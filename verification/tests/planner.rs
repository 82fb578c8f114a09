use hybrid_mount::conf::config::Config;
use hybrid_mount::engine::inventory::{validate_module_id, Module};
use hybrid_mount::engine::planner::{
    generate, has_meaningful_content, sort_operations, target_partitions, ModuleContent,
    MountPlan, OverlayOperation, PlanError, TargetProbe,
};

fn module(id: &str, mode: &str) -> Module {
    Module {
        id: id.to_string(),
        source_path: format!("/data/adb/modules/{}", id),
        mode: mode.to_string(),
    }
}

fn content(parts: &[&str]) -> ModuleContent {
    ModuleContent {
        in_storage: true,
        populated: parts.iter().map(|p| p.to_string()).collect(),
    }
}

fn probe(part: &str, resolved: &str) -> TargetProbe {
    TargetProbe {
        partition: part.to_string(),
        resolved: Some(resolved.to_string()),
        is_dir: true,
        upper_exists: false,
        work_exists: false,
    }
}

fn strings(v: &[&str]) -> Vec<String> {
    v.iter().map(|s| s.to_string()).collect()
}

fn plan_of(
    config: &Config,
    modules: &Vec<Module>,
    contents: &Vec<ModuleContent>,
    probes: &Vec<TargetProbe>,
) -> MountPlan {
    generate(config, modules, "/mnt/storage", contents, probes).unwrap()
}

#[test]
fn plan_single_overlay_module() {
    let config = Config::default();
    let modules = vec![module("A", "auto")];
    let contents = vec![content(&["system"])];
    let probes = vec![probe("system", "/system")];
    let plan = plan_of(&config, &modules, &contents, &probes);
    assert_eq!(plan.overlay_ops.len(), 1);
    assert_eq!(plan.overlay_ops[0].target, "/system");
    assert_eq!(plan.overlay_ops[0].partition_name, "system");
    assert_eq!(plan.overlay_ops[0].source, "KSU");
    assert_eq!(plan.overlay_ops[0].lowerdirs, strings(&["/mnt/storage/A/system"]));
    assert_eq!(plan.overlay_ops[0].upperdir, None);
    assert_eq!(plan.overlay_ops[0].workdir, None);
    assert!(!plan.overlay_ops[0].truncated);
    assert_eq!(plan.overlay_module_ids, strings(&["A"]));
    assert!(plan.magic_module_ids.is_empty());
    assert!(plan.magic_module_paths.is_empty());
}

#[test]
fn plan_rejects_mismatched_probes() {
    let config = Config::default();
    let modules = vec![module("A", "auto")];
    let r = generate(&config, &modules, "/mnt/storage", &vec![], &vec![]);
    assert_eq!(r.err(), Some(PlanError::ProbeMismatch));
}

#[test]
fn plan_layers_follow_module_order() {
    let config = Config::default();
    let modules = vec![module("B", "auto"), module("A", "auto")];
    let contents = vec![content(&["system"]), content(&["system", "vendor"])];
    let probes = vec![probe("system", "/system"), probe("vendor", "/vendor")];
    let plan = plan_of(&config, &modules, &contents, &probes);
    assert_eq!(plan.overlay_ops.len(), 2);
    assert_eq!(plan.overlay_ops[0].target, "/system");
    assert_eq!(
        plan.overlay_ops[0].lowerdirs,
        strings(&["/mnt/storage/B/system", "/mnt/storage/A/system"])
    );
    assert_eq!(plan.overlay_ops[1].target, "/vendor");
    assert_eq!(plan.overlay_ops[1].lowerdirs, strings(&["/mnt/storage/A/vendor"]));
    assert_eq!(plan.overlay_module_ids, strings(&["A", "B"]));
}

#[test]
fn plan_ops_are_sorted_by_target() {
    let mut config = Config::default();
    config.partitions = strings(&["apex"]);
    let modules = vec![module("A", "auto")];
    let contents = vec![content(&["system", "vendor", "product", "apex"])];
    let probes = vec![
        probe("system", "/system"),
        probe("vendor", "/vendor"),
        probe("product", "/product"),
        probe("apex", "/apex"),
    ];
    let plan = plan_of(&config, &modules, &contents, &probes);
    let targets: Vec<String> = plan.overlay_ops.iter().map(|o| o.target.clone()).collect();
    assert_eq!(targets, strings(&["/apex", "/product", "/system", "/vendor"]));
}

#[test]
fn plan_is_the_same_when_made_twice() {
    let config = Config::default();
    let modules = vec![module("m2", "magic"), module("m1", "auto"), module("m0", "auto")];
    let contents = vec![content(&["system"]), content(&["odm", "system"]), content(&["vendor"])];
    let probes = vec![
        probe("odm", "/odm"),
        probe("system", "/system"),
        probe("vendor", "/vendor"),
    ];
    let a = plan_of(&config, &modules, &contents, &probes);
    let b = plan_of(&config, &modules, &contents, &probes);
    assert_eq!(a.overlay_ops.len(), b.overlay_ops.len());
    for i in 0..a.overlay_ops.len() {
        assert_eq!(a.overlay_ops[i].target, b.overlay_ops[i].target);
        assert_eq!(a.overlay_ops[i].lowerdirs, b.overlay_ops[i].lowerdirs);
    }
    assert_eq!(a.magic_module_paths, b.magic_module_paths);
    assert_eq!(a.overlay_module_ids, b.overlay_module_ids);
    assert_eq!(a.magic_module_ids, b.magic_module_ids);
}

#[test]
fn plan_uses_resolved_target() {
    let config = Config::default();
    let modules = vec![module("A", "auto")];
    let contents = vec![content(&["vendor"])];
    let probes = vec![probe("vendor", "/system/vendor")];
    let plan = plan_of(&config, &modules, &contents, &probes);
    assert_eq!(plan.overlay_ops.len(), 1);
    assert_eq!(plan.overlay_ops[0].target, "/system/vendor");
    assert_eq!(plan.overlay_ops[0].partition_name, "vendor");
}

#[test]
fn plan_skips_unresolved_and_non_directory_targets() {
    let config = Config::default();
    let modules = vec![module("A", "auto")];
    let contents = vec![content(&["system", "vendor", "odm"])];
    let probes = vec![
        TargetProbe {
            partition: "system".to_string(),
            resolved: None,
            is_dir: false,
            upper_exists: false,
            work_exists: false,
        },
        TargetProbe {
            partition: "vendor".to_string(),
            resolved: Some("/vendor".to_string()),
            is_dir: false,
            upper_exists: false,
            work_exists: false,
        },
    ];
    let plan = plan_of(&config, &modules, &contents, &probes);
    assert!(plan.overlay_ops.is_empty());
    assert_eq!(plan.overlay_module_ids, strings(&["A"]));
}

#[test]
fn plan_excludes_module_with_empty_partition_only() {
    let config = Config::default();
    let modules = vec![module("empty", "auto"), module("hollow", "magic"), module("A", "auto")];
    let contents = vec![content(&[]), content(&[]), content(&["system"])];
    let probes = vec![probe("system", "/system")];
    let plan = plan_of(&config, &modules, &contents, &probes);
    assert_eq!(plan.overlay_module_ids, strings(&["A"]));
    assert!(plan.magic_module_ids.is_empty());
    assert!(plan.magic_module_paths.is_empty());
    assert_eq!(plan.overlay_ops[0].lowerdirs, strings(&["/mnt/storage/A/system"]));
}

#[test]
fn plan_sends_magic_modules_to_magic_mount() {
    let config = Config::default();
    let modules = vec![module("zeta", "magic"), module("alpha", "magic"), module("A", "auto")];
    let contents = vec![content(&["system"]), content(&["vendor"]), content(&["system"])];
    let probes = vec![probe("system", "/system"), probe("vendor", "/vendor")];
    let plan = plan_of(&config, &modules, &contents, &probes);
    assert_eq!(plan.magic_module_ids, strings(&["alpha", "zeta"]));
    assert_eq!(
        plan.magic_module_paths,
        strings(&["/data/adb/modules/alpha", "/data/adb/modules/zeta"])
    );
    assert_eq!(plan.overlay_module_ids, strings(&["A"]));
    assert_eq!(plan.overlay_ops.len(), 1);
    assert_eq!(plan.overlay_ops[0].lowerdirs, strings(&["/mnt/storage/A/system"]));
}

#[test]
fn plan_skips_module_missing_from_storage() {
    let config = Config::default();
    let modules = vec![module("A", "auto")];
    let contents = vec![ModuleContent { in_storage: false, populated: strings(&["system"]) }];
    let probes = vec![probe("system", "/system")];
    let plan = plan_of(&config, &modules, &contents, &probes);
    assert!(plan.overlay_ops.is_empty());
    assert!(plan.overlay_module_ids.is_empty());
}

#[test]
fn plan_truncates_129_layers_to_128() {
    let config = Config::default();
    let mut modules = Vec::new();
    let mut contents = Vec::new();
    for i in 0..129 {
        modules.push(module(&format!("m{:03}", i), "auto"));
        contents.push(content(&["system"]));
    }
    let probes = vec![probe("system", "/system")];
    let plan = generate(&config, &modules, "/s", &contents, &probes).unwrap();
    assert_eq!(plan.overlay_ops.len(), 1);
    let lower = &plan.overlay_ops[0].lowerdirs;
    assert_eq!(lower.len(), 128);
    assert!(plan.overlay_ops[0].truncated);
    assert_eq!(lower[0], "/s/m000/system");
    assert_eq!(lower[127], "/s/m127/system");
    assert!(!lower.contains(&"/s/m128/system".to_string()));
    assert!(lower.join(":").len() <= 3000);
    assert_eq!(plan.overlay_module_ids.len(), 129);
}

#[test]
fn plan_truncates_to_3000_bytes() {
    let config = Config::default();
    let mut modules = Vec::new();
    let mut contents = Vec::new();
    // each layer is "/s/" + 90 characters + "/system": 3 + 90 + 7 = 100 bytes
    for i in 0..40 {
        modules.push(module(&format!("{:090}", i), "auto"));
        contents.push(content(&["system"]));
    }
    let probes = vec![probe("system", "/system")];
    let plan = generate(&config, &modules, "/s", &contents, &probes).unwrap();
    let lower = &plan.overlay_ops[0].lowerdirs;
    // 29 layers take 29 * 100 + 28 = 2928 bytes, 30 would take 3029
    assert_eq!(lower.len(), 29);
    assert_eq!(lower.join(":").len(), 2928);
    assert_eq!(lower[28], format!("/s/{:090}/system", 28));
}

#[test]
fn plan_names_writable_layer_when_staged() {
    let config = Config::default();
    let modules = vec![module("A", "auto")];
    let contents = vec![content(&["system", "vendor"])];
    let probes = vec![
        TargetProbe {
            partition: "system".to_string(),
            resolved: Some("/system".to_string()),
            is_dir: true,
            upper_exists: true,
            work_exists: true,
        },
        TargetProbe {
            partition: "vendor".to_string(),
            resolved: Some("/vendor".to_string()),
            is_dir: true,
            upper_exists: true,
            work_exists: false,
        },
    ];
    let plan = plan_of(&config, &modules, &contents, &probes);
    assert_eq!(
        plan.overlay_ops[0].upperdir,
        Some("/data/adb/meta-hybrid/rw/system/upperdir".to_string())
    );
    assert_eq!(
        plan.overlay_ops[0].workdir,
        Some("/data/adb/meta-hybrid/rw/system/workdir".to_string())
    );
    assert_eq!(plan.overlay_ops[1].upperdir, None);
    assert_eq!(plan.overlay_ops[1].workdir, None);
}

#[test]
fn plan_does_not_repeat_a_layer() {
    let mut config = Config::default();
    config.partitions = strings(&["system", "my_part", "my_part"]);
    let modules = vec![module("A", "auto"), module("A", "auto")];
    let contents = vec![content(&["system", "my_part"]), content(&["system"])];
    let probes = vec![probe("system", "/system"), probe("my_part", "/my_part")];
    let plan = plan_of(&config, &modules, &contents, &probes);
    assert_eq!(plan.overlay_ops.len(), 2);
    assert_eq!(plan.overlay_ops[0].target, "/my_part");
    assert_eq!(plan.overlay_ops[1].lowerdirs, strings(&["/mnt/storage/A/system"]));
    assert_eq!(plan.overlay_module_ids, strings(&["A"]));
}

#[test]
fn target_partitions_are_builtin_then_configured() {
    let mut config = Config::default();
    assert_eq!(
        target_partitions(&config),
        strings(&["system", "vendor", "product", "system_ext", "odm", "oem"])
    );
    config.partitions = strings(&["apex", "vendor", "apex", "mi_ext"]);
    assert_eq!(
        target_partitions(&config),
        strings(&["system", "vendor", "product", "system_ext", "odm", "oem", "apex", "mi_ext"])
    );
}

#[test]
fn meaningful_content_needs_a_planned_partition() {
    let parts = strings(&["system", "vendor"]);
    assert!(has_meaningful_content(&content(&["vendor"]), &parts));
    assert!(!has_meaningful_content(&content(&["webroot"]), &parts));
    assert!(!has_meaningful_content(&content(&[]), &parts));
}

fn op(target: &str, layer: &str) -> OverlayOperation {
    OverlayOperation {
        target: target.to_string(),
        lowerdirs: strings(&[layer]),
        upperdir: None,
        workdir: None,
        source: "KSU".to_string(),
        partition_name: "p".to_string(),
        truncated: false,
    }
}

#[test]
fn sort_operations_is_stable() {
    let raw = vec![op("/b", "1"), op("/a", "2"), op("/b", "3"), op("/a", "4"), op("/", "5")];
    let sorted = sort_operations(raw);
    let seen: Vec<(String, String)> =
        sorted.iter().map(|o| (o.target.clone(), o.lowerdirs[0].clone())).collect();
    let expected: Vec<(String, String)> = [("/", "5"), ("/a", "2"), ("/a", "4"), ("/b", "1"), ("/b", "3")]
        .iter()
        .map(|(a, b)| (a.to_string(), b.to_string()))
        .collect();
    assert_eq!(seen, expected);
}

#[test]
fn module_ids_are_validated() {
    assert!(validate_module_id("zygisk_lsposed"));
    assert!(validate_module_id("A.b-c_9"));
    assert!(!validate_module_id(""));
    assert!(!validate_module_id("bad id"));
    assert!(!validate_module_id("sl/ash"));
    assert!(!validate_module_id("caf\u{e9}"));
}

#[test]
fn default_plan_is_empty() {
    let plan = MountPlan::default();
    assert!(plan.overlay_ops.is_empty());
    assert!(plan.magic_module_paths.is_empty());
    assert!(plan.overlay_module_ids.is_empty());
    assert!(plan.magic_module_ids.is_empty());
}
