use hybrid_mount::conf::config::{
    decode_hex, default_max_backups, default_moduledir, default_mountsource,
    default_retention_days, enforce_status, parse_partitions, Config, GranaryConfig,
    WinnowingTable, CONFIG_FILE_DEFAULT,
};
use hybrid_mount::defs::{builtin_partition_names, OVERLAY_SOURCE, SYSTEM_RW_DIR};
use hybrid_mount::engine::conflicts::{analyze_conflicts, find_contenders, LayerListing};
use hybrid_mount::engine::winnow::{sift_conflict, sift_conflicts, ConflictDetail};

fn strings(v: &[&str]) -> Vec<String> {
    v.iter().map(|s| s.to_string()).collect()
}

#[test]
fn winnowing_table_keeps_the_last_rule() {
    let mut t = WinnowingTable::new();
    assert_eq!(t.get_preferred_module("/system/etc/hosts"), None);
    t.set_rule("/system/etc/hosts", "A");
    t.set_rule("/system/lib/libx.so", "C");
    assert_eq!(t.get_preferred_module("/system/etc/hosts"), Some("A".to_string()));
    t.set_rule("/system/etc/hosts", "B");
    assert_eq!(t.get_preferred_module("/system/etc/hosts"), Some("B".to_string()));
    assert_eq!(t.get_preferred_module("/system/lib/libx.so"), Some("C".to_string()));
    assert_eq!(t.rules.len(), 2);
}

#[test]
fn winnowing_table_removes_rules() {
    let mut t = WinnowingTable::new();
    t.set_rule("/a", "A");
    t.set_rule("/b", "B");
    t.remove_rule("/a");
    assert_eq!(t.get_preferred_module("/a"), None);
    assert_eq!(t.get_preferred_module("/b"), Some("B".to_string()));
    t.remove_rule("/missing");
    assert_eq!(t.rules.len(), 1);
}

#[test]
fn winnowing_table_reads_duplicated_rules_like_a_map() {
    let mut t = WinnowingTable {
        rules: vec![
            ("/a".to_string(), "old".to_string()),
            ("/b".to_string(), "B".to_string()),
            ("/a".to_string(), "new".to_string()),
        ],
    };
    assert_eq!(t.get_preferred_module("/a"), Some("new".to_string()));
    t.remove_rule("/a");
    assert_eq!(t.get_preferred_module("/a"), None);
    assert_eq!(t.rules, vec![("/b".to_string(), "B".to_string())]);
}

#[test]
fn defaults_are_as_documented() {
    assert_eq!(default_max_backups(), 20);
    assert_eq!(default_retention_days(), 0);
    assert_eq!(default_moduledir(), "/data/adb/modules/");
    assert_eq!(default_mountsource(), "KSU");
    assert_eq!(CONFIG_FILE_DEFAULT, "/data/adb/meta-hybrid/config.toml");
    assert_eq!(OVERLAY_SOURCE, "KSU");
    assert_eq!(SYSTEM_RW_DIR, "/data/adb/meta-hybrid/rw");
    let g = GranaryConfig::default();
    assert_eq!(g.max_backups, 20);
    assert_eq!(g.retention_days, 0);
    let c = Config::default();
    assert_eq!(c.moduledir, "/data/adb/modules/");
    assert_eq!(c.mountsource, "KSU");
    assert!(!c.verbose && !c.force_ext4 && !c.use_erofs && !c.enable_nuke);
    assert!(!c.disable_umount && !c.allow_umount_coexistence && !c.dry_run);
    assert!(c.partitions.is_empty());
    assert!(c.winnowing.rules.is_empty());
    assert_eq!(c.granary.max_backups, 20);
    assert_eq!(
        builtin_partition_names(),
        strings(&["system", "vendor", "product", "system_ext", "odm", "oem"])
    );
}

#[test]
fn command_line_overrides_the_file() {
    let mut c = Config::default();
    c.partitions = strings(&["apex"]);
    c.merge_with_cli(None, None, false, vec![], false);
    assert_eq!(c.moduledir, "/data/adb/modules/");
    assert_eq!(c.mountsource, "KSU");
    assert_eq!(c.partitions, strings(&["apex"]));
    assert!(!c.verbose);
    assert!(!c.dry_run);
    c.merge_with_cli(
        Some("/tmp/modules".to_string()),
        Some("APatch".to_string()),
        true,
        strings(&["mi_ext", "my_part"]),
        true,
    );
    assert_eq!(c.moduledir, "/tmp/modules");
    assert_eq!(c.mountsource, "APatch");
    assert_eq!(c.partitions, strings(&["mi_ext", "my_part"]));
    assert!(c.verbose);
    assert!(c.dry_run);
    c.merge_with_cli(None, None, false, vec![], false);
    assert!(c.verbose);
    assert!(c.dry_run);
    assert_eq!(c.partitions, strings(&["mi_ext", "my_part"]));
}

#[test]
fn partitions_are_read_from_a_comma_list() {
    assert_eq!(parse_partitions("mi_ext, my_part ,,apex"), strings(&["mi_ext", "my_part", "apex"]));
    assert_eq!(parse_partitions(""), Vec::<String>::new());
    assert_eq!(parse_partitions(" , ,"), Vec::<String>::new());
    assert_eq!(parse_partitions("single"), strings(&["single"]));
    assert_eq!(parse_partitions("\ta b\n,c"), strings(&["a b", "c"]));
}

#[test]
fn enforcement_disables_unmounting_unless_coexisting() {
    let mut c = Config::default();
    c.apply_enforce_status(false);
    assert!(!c.disable_umount);
    c.apply_enforce_status(true);
    assert!(c.disable_umount);
    let mut coexisting = Config::default();
    coexisting.allow_umount_coexistence = true;
    coexisting.apply_enforce_status(true);
    assert!(!coexisting.disable_umount);
    let mut already = Config::default();
    already.disable_umount = true;
    already.apply_enforce_status(false);
    assert!(already.disable_umount);
}

fn conflict(partition: &str, path: &str, contenders: &[&str]) -> ConflictDetail {
    ConflictDetail {
        partition: partition.to_string(),
        relative_path: path.to_string(),
        contending_modules: strings(contenders),
    }
}

#[test]
fn conflict_is_winnowed_by_the_table() {
    let mut table = WinnowingTable::new();
    table.set_rule("/system/etc/hosts", "A");
    let r = sift_conflict(conflict("system", "etc/hosts", &["A", "B"]), &table);
    assert_eq!(r.path, "/system/etc/hosts");
    assert_eq!(r.contenders, strings(&["A", "B"]));
    assert_eq!(r.selected, "A");
    assert!(r.is_forced);
}

#[test]
fn conflict_without_rule_goes_to_the_last_contender() {
    let table = WinnowingTable::new();
    let r = sift_conflict(conflict("vendor", "lib/libx.so", &["A", "B", "C"]), &table);
    assert_eq!(r.path, "/vendor/lib/libx.so");
    assert_eq!(r.selected, "C");
    assert!(!r.is_forced);
}

#[test]
fn rule_for_a_module_that_does_not_contend_is_ignored() {
    let mut table = WinnowingTable::new();
    table.set_rule("/system/etc/hosts", "Z");
    let r = sift_conflict(conflict("system", "etc/hosts", &["A", "B"]), &table);
    assert_eq!(r.selected, "B");
    assert!(!r.is_forced);
    let none = sift_conflict(conflict("system", "etc/hosts", &[]), &table);
    assert_eq!(none.selected, "unknown");
    assert!(!none.is_forced);
}

#[test]
fn conflicts_are_sifted_in_order() {
    let mut table = WinnowingTable::new();
    table.set_rule("/system/etc/hosts", "B");
    let r = sift_conflicts(
        vec![
            conflict("system", "etc/hosts", &["A", "B"]),
            conflict("system", "bin/sh", &["A", "B"]),
        ],
        &table,
    );
    assert_eq!(r.len(), 2);
    assert_eq!(r[0].path, "/system/etc/hosts");
    assert_eq!(r[0].selected, "B");
    assert!(r[0].is_forced);
    assert_eq!(r[1].path, "/system/bin/sh");
    assert_eq!(r[1].selected, "B");
    assert!(!r[1].is_forced);
    assert!(sift_conflicts(vec![], &table).is_empty());
}

fn listing(id: &str, files: &[&str]) -> LayerListing {
    LayerListing { module_id: id.to_string(), files: strings(files) }
}

#[test]
fn conflicts_are_paths_that_two_layers_hold() {
    let layers = vec![
        listing("A", &["etc/hosts", "lib/a.so", "bin/sh"]),
        listing("B", &["lib/b.so", "etc/hosts"]),
        listing("C", &["bin/sh", "etc/hosts", "only/c"]),
    ];
    let r = analyze_conflicts("system", &layers);
    assert_eq!(r.len(), 2);
    assert_eq!(r[0].partition, "system");
    assert_eq!(r[0].relative_path, "etc/hosts");
    assert_eq!(r[0].contending_modules, strings(&["A", "B", "C"]));
    assert_eq!(r[1].relative_path, "bin/sh");
    assert_eq!(r[1].contending_modules, strings(&["A", "C"]));
    assert_eq!(find_contenders(&layers, &"only/c".to_string()), strings(&["C"]));
}

#[test]
fn no_conflicts_without_shared_paths() {
    let layers = vec![listing("A", &["a", "a"]), listing("B", &["b"])];
    assert!(analyze_conflicts("system", &layers).is_empty());
    assert!(analyze_conflicts("system", &vec![]).is_empty());
    let one = vec![listing("A", &["etc/hosts"])];
    assert!(analyze_conflicts("system", &one).is_empty());
}

#[test]
fn hexadecimal_payload_is_decoded() {
    assert_eq!(decode_hex("7b7D"), Some(vec![0x7b, 0x7d]));
    assert_eq!(decode_hex(""), Some(vec![]));
    assert_eq!(decode_hex("00ff10"), Some(vec![0, 255, 16]));
    assert_eq!(decode_hex("+a"), Some(vec![10]));
    assert_eq!(decode_hex("abc"), None);
    assert_eq!(decode_hex("zz"), None);
    assert_eq!(decode_hex("0g"), None);
    assert_eq!(decode_hex("a+"), None);
    assert_eq!(decode_hex("-1"), None);
    assert_eq!(decode_hex("\u{e9}0"), None);
    for text in ["00", "7f", "+f", "F0", "0x", " 1", "++"] {
        assert_eq!(decode_hex(text), u8::from_str_radix(text, 16).ok().map(|b| vec![b]));
    }
}

#[test]
fn enforcement_is_read_from_the_switch() {
    assert!(!enforce_status(None));
    assert!(!enforce_status(Some("0")));
    assert!(!enforce_status(Some(" 0\n")));
    assert!(enforce_status(Some("1\n")));
    assert!(enforce_status(Some("")));
    assert!(enforce_status(Some("00")));
}
