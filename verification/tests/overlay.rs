use hybrid_mount::mount::overlay::{
    child_mounts, child_mounts_of, escape_commas, mount_overlay, mount_overlay_child,
    mount_overlayfs, truncate_lowerdirs, ChildAction, LowerKind, OverlayError,
};
use hybrid_mount::mount::overlayfs::utils::AutoMountExt4;
use hybrid_mount::mount::overlayfs::{mount_partition, mount_systemlessly, ModuleDir};

fn strings(v: &[&str]) -> Vec<String> {
    v.iter().map(|s| s.to_string()).collect()
}

const MOUNTINFO: &str = "\
22 1 8:1 / / rw,relatime shared:1 - ext4 /dev/root rw
23 22 0:21 / /proc rw,nosuid - proc proc rw
30 22 8:2 / /system ro,relatime shared:2 - ext4 /dev/block/dm-0 ro
31 30 7:0 / /system/apex/com.android.foo ro,nodev - ext4 /dev/block/loop0 ro
32 30 7:1 / /system/apex/com.android.bar ro,nodev - ext4 /dev/block/loop1 ro
33 30 7:0 / /system/apex/com.android.foo ro,nodev - ext4 /dev/block/loop0 ro
34 22 8:3 / /system_ext ro,relatime - ext4 /dev/block/dm-1 ro
35 22 8:4 / /vendor ro,relatime - ext4 /dev/block/dm-2 ro
";

#[test]
fn truncate_keeps_what_fits() {
    let few = strings(&["/a", "/b", "/c"]);
    let (kept, cut) = truncate_lowerdirs(&few);
    assert_eq!(kept, few);
    assert!(!cut);
    let (none, cut) = truncate_lowerdirs(&vec![]);
    assert!(none.is_empty());
    assert!(!cut);
}

#[test]
fn truncate_drops_the_last_of_129() {
    let many: Vec<String> = (0..129).map(|i| format!("/l{}", i)).collect();
    let (kept, cut) = truncate_lowerdirs(&many);
    assert!(cut);
    assert_eq!(kept.len(), 128);
    assert_eq!(kept, many[..128].to_vec());
    let exact: Vec<String> = (0..128).map(|i| format!("/l{}", i)).collect();
    let (kept, cut) = truncate_lowerdirs(&exact);
    assert!(!cut);
    assert_eq!(kept.len(), 128);
}

#[test]
fn truncate_counts_bytes_with_separators() {
    // three layers of 1000 bytes take 3002 bytes with their two colons
    let layer = "x".repeat(1000);
    let (kept, cut) = truncate_lowerdirs(&vec![layer.clone(), layer.clone(), layer.clone()]);
    assert!(cut);
    assert_eq!(kept.len(), 2);
    // 1000 + 1 + 1000 + 1 + 998 = 3000 fits exactly
    let (kept, cut) = truncate_lowerdirs(&vec![layer.clone(), layer.clone(), "y".repeat(998)]);
    assert!(!cut);
    assert_eq!(kept.len(), 3);
    let (kept, cut) = truncate_lowerdirs(&vec![layer.clone(), layer.clone(), "y".repeat(999)]);
    assert!(cut);
    assert_eq!(kept.len(), 2);
}

#[test]
fn truncate_counts_bytes_not_characters() {
    // 1000 characters of three bytes each
    let wide = "\u{4e2d}".repeat(1000);
    let (kept, cut) = truncate_lowerdirs(&vec![wide.clone(), "a".to_string()]);
    assert!(cut);
    assert_eq!(kept, vec![wide]);
    let too_wide = "\u{4e2d}".repeat(1001);
    let (kept, cut) = truncate_lowerdirs(&vec![too_wide, "a".to_string()]);
    assert!(cut);
    assert!(kept.is_empty());
    // two bytes and four bytes per character
    let mixed = format!("{}{}", "\u{e9}".repeat(500), "\u{1f600}".repeat(500));
    let (kept, cut) = truncate_lowerdirs(&vec![mixed.clone()]);
    assert!(!cut);
    assert_eq!(kept, vec![mixed.clone()]);
    let (kept, _) = truncate_lowerdirs(&vec![mixed, "z".to_string()]);
    assert_eq!(kept.len(), 1);
}

#[test]
fn commas_are_escaped() {
    assert_eq!(escape_commas("/a,b/c"), "/a\\,b/c");
    assert_eq!(escape_commas(",,"), "\\,\\,");
    assert_eq!(escape_commas("plain"), "plain");
    assert_eq!(escape_commas(""), "");
    assert_eq!(escape_commas("end,"), "end\\,");
}

#[test]
fn overlay_mount_joins_layers_over_the_stock_directory() {
    let m = mount_overlayfs(
        &strings(&["/mnt/A/system", "/mnt/B/system"]),
        "/system",
        None,
        None,
        false,
        false,
        "/system",
        "KSU",
    );
    assert_eq!(m.dest, "/system");
    assert_eq!(m.source, "KSU");
    assert_eq!(m.lowerdir, "/mnt/A/system:/mnt/B/system:/system");
    assert_eq!(m.upperdir, None);
    assert_eq!(m.workdir, None);
    assert_eq!(m.legacy_data, "lowerdir=/mnt/A/system:/mnt/B/system:/system");
    assert!(!m.truncated);
}

#[test]
fn overlay_mount_uses_writable_layer_only_when_both_exist() {
    let make = |upper: Option<&str>, work: Option<&str>, ue: bool, we: bool| {
        mount_overlayfs(
            &strings(&["/l,1"]),
            "/system",
            upper.map(|s| s.to_string()),
            work.map(|s| s.to_string()),
            ue,
            we,
            "/system",
            "KSU",
        )
    };
    let both = make(Some("/rw/up,per"), Some("/rw/work"), true, true);
    assert_eq!(both.upperdir, Some("/rw/up,per".to_string()));
    assert_eq!(both.workdir, Some("/rw/work".to_string()));
    assert_eq!(both.lowerdir, "/l,1:/system");
    assert_eq!(
        both.legacy_data,
        "lowerdir=/l\\,1:/system,upperdir=/rw/up\\,per,workdir=/rw/work"
    );
    for m in [
        make(Some("/rw/upper"), Some("/rw/work"), true, false),
        make(Some("/rw/upper"), Some("/rw/work"), false, true),
        make(Some("/rw/upper"), None, true, true),
        make(None, Some("/rw/work"), true, true),
    ] {
        assert_eq!(m.upperdir, None);
        assert_eq!(m.workdir, None);
        assert_eq!(m.legacy_data, "lowerdir=/l\\,1:/system");
    }
}

#[test]
fn overlay_mount_truncates_and_says_so() {
    let many: Vec<String> = (0..130).map(|i| format!("/l{}", i)).collect();
    let m = mount_overlayfs(&many, "/system", None, None, false, false, "/system", "KSU");
    assert!(m.truncated);
    let parts: Vec<&str> = m.lowerdir.split(':').collect();
    assert_eq!(parts.len(), 129);
    assert_eq!(parts[127], "/l127");
    assert_eq!(parts[128], "/system");
}

#[test]
fn child_mounts_are_those_strictly_beneath() {
    let found = child_mounts(MOUNTINFO, "/system").unwrap();
    assert_eq!(
        found,
        strings(&["/system/apex/com.android.bar", "/system/apex/com.android.foo"])
    );
    assert_eq!(child_mounts(MOUNTINFO, "/vendor").unwrap(), Vec::<String>::new());
    let below_root = child_mounts(MOUNTINFO, "/").unwrap();
    assert_eq!(below_root.len(), 6);
    assert!(!below_root.contains(&"/".to_string()));
}

#[test]
fn child_mounts_compare_whole_components() {
    let found = child_mounts(MOUNTINFO, "/system").unwrap();
    assert!(!found.contains(&"/system_ext".to_string()));
    let points = strings(&["/system/b", "/systemic", "/system", "/system/a/", "/system/b"]);
    assert_eq!(child_mounts_of(&points, "/system"), strings(&["/system/a/", "/system/b"]));
}

#[test]
fn child_mounts_reject_unreadable_text() {
    assert_eq!(child_mounts("this is not a mount table", "/system"), None);
    assert_eq!(child_mounts("", "/system"), Some(vec![]));
}

#[test]
fn mount_overlay_lists_children_with_their_stock_paths() {
    let s = mount_overlay(
        "/system",
        &strings(&["/mnt/A/system"]),
        None,
        None,
        false,
        false,
        MOUNTINFO,
        "KSU",
    )
    .ok()
    .unwrap();
    assert_eq!(s.root.dest, "/system");
    assert_eq!(s.root.lowerdir, "/mnt/A/system:/system");
    assert_eq!(s.children.len(), 2);
    assert_eq!(s.children[1].mount_point, "/system/apex/com.android.foo");
    assert_eq!(s.children[1].relative, "/apex/com.android.foo");
    assert_eq!(s.children[1].stock_child, "./apex/com.android.foo");
    assert_eq!(s.children[0].stock_child, "./apex/com.android.bar");
}

#[test]
fn mount_overlay_fails_without_mount_table() {
    let r = mount_overlay("/system", &vec![], None, None, false, false, "garbage", "KSU");
    assert_eq!(r.err(), Some(OverlayError::MountInfo));
}

fn decide(probes: &[LowerKind], stock_is_dir: bool) -> ChildAction {
    mount_overlay_child(
        "/system/apex/com.android.foo",
        "/apex/com.android.foo",
        &strings(&["/mnt/A/system", "/mnt/B/system", "/mnt/C/system"]),
        "./apex/com.android.foo",
        &probes.to_vec(),
        stock_is_dir,
        "KSU",
    )
}

#[test]
fn untouched_child_mount_is_bound_back() {
    match decide(&[LowerKind::Missing, LowerKind::Missing, LowerKind::Missing], true) {
        ChildAction::Bind { from, to } => {
            assert_eq!(from, "./apex/com.android.foo");
            assert_eq!(to, "/system/apex/com.android.foo");
        }
        _ => panic!("expected a bind"),
    }
    assert!(matches!(decide(&[], true), ChildAction::Bind { .. }));
}

#[test]
fn child_mount_with_module_content_is_overlaid() {
    match decide(&[LowerKind::Directory, LowerKind::Missing, LowerKind::Directory], true) {
        ChildAction::Overlay(m) => {
            assert_eq!(m.dest, "/system/apex/com.android.foo");
            assert_eq!(
                m.lowerdir,
                "/mnt/A/system/apex/com.android.foo:/mnt/C/system/apex/com.android.foo:./apex/com.android.foo"
            );
            assert_eq!(m.upperdir, None);
            assert_eq!(m.source, "KSU");
        }
        _ => panic!("expected an overlay"),
    }
}

#[test]
fn child_mount_is_abandoned_when_it_cannot_be_overlaid() {
    assert!(matches!(
        decide(&[LowerKind::Directory, LowerKind::Other, LowerKind::Missing], true),
        ChildAction::Abandon
    ));
    assert!(matches!(decide(&[LowerKind::Directory], false), ChildAction::Abandon));
    assert!(matches!(decide(&[LowerKind::Missing], false), ChildAction::Abandon));
}

fn module_dir(name: &str, partitions: &[&str]) -> ModuleDir {
    ModuleDir {
        path: format!("/data/adb/modules/{}", name),
        name: Some(name.to_string()),
        is_dir: true,
        disabled: false,
        skip_mount: false,
        partitions: strings(partitions),
    }
}

#[test]
fn systemless_layers_are_gathered_by_partition() {
    let mut off = module_dir("off", &["system"]);
    off.disabled = true;
    let mut skipped = module_dir("skipped", &["system"]);
    skipped.skip_mount = true;
    let mut plain_file = module_dir("file", &["system"]);
    plain_file.is_dir = false;
    let modules = vec![
        module_dir("A", &["system", "vendor"]),
        off,
        module_dir("unwanted", &["system"]),
        skipped,
        plain_file,
        module_dir("B", &["system", "my_part"]),
    ];
    let wanted = strings(&["A", "B", "off", "skipped", "file"]);
    let r = mount_systemlessly(&wanted, &strings(&["my_part", "vendor"]), &modules);
    let seen: Vec<(String, Vec<String>)> =
        r.iter().map(|p| (p.partition.clone(), p.lowerdirs.clone())).collect();
    assert_eq!(seen.len(), 7);
    assert_eq!(
        seen[0],
        (
            "system".to_string(),
            strings(&["/data/adb/modules/A/system", "/data/adb/modules/B/system"])
        )
    );
    assert_eq!(seen[1], ("vendor".to_string(), strings(&["/data/adb/modules/A/vendor"])));
    assert_eq!(seen[2], ("product".to_string(), vec![]));
    assert_eq!(seen[5].0, "oem");
    assert_eq!(seen[6], ("my_part".to_string(), vec![]));
}

#[test]
fn partition_is_mounted_unless_empty_or_a_symlink() {
    let lower = strings(&["/data/adb/modules/A/vendor"]);
    assert!(mount_partition("vendor", &vec![], false, true).is_none());
    assert!(mount_partition("vendor", &lower, true, true).is_none());
    let m = mount_partition("vendor", &lower, false, false).unwrap();
    assert_eq!(m.partition, "/vendor");
    assert_eq!(m.lowerdirs, lower);
    assert_eq!(m.workdir, None);
    assert_eq!(m.upperdir, None);
    let staged = mount_partition("vendor", &lower, false, true).unwrap();
    assert_eq!(staged.workdir, Some("/data/adb/meta-hybrid/rw/vendor/workdir".to_string()));
    assert_eq!(staged.upperdir, Some("/data/adb/meta-hybrid/rw/vendor/upperdir".to_string()));
}

#[test]
fn image_guard_releases_what_it_holds() {
    assert!(AutoMountExt4::try_new("/mnt/img", true, false).is_none());
    let held = AutoMountExt4::try_new("/mnt/img", true, true).unwrap();
    assert_eq!(held.umount(), "/mnt/img");
    assert_eq!(held.release(), Some("/mnt/img".to_string()));
    let kept = AutoMountExt4::try_new("/mnt/img", false, true).unwrap();
    assert_eq!(kept.release(), None);
}
