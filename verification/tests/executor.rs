use hybrid_mount::engine::executor::{execute, extract_id, extract_module_root, reconcile};
use hybrid_mount::engine::planner::{MountPlan, OverlayOperation};

fn strings(v: &[&str]) -> Vec<String> {
    v.iter().map(|s| s.to_string()).collect()
}

fn op(target: &str, layers: &[&str]) -> OverlayOperation {
    OverlayOperation {
        target: target.to_string(),
        lowerdirs: strings(layers),
        upperdir: None,
        workdir: None,
        source: "KSU".to_string(),
        partition_name: target.trim_start_matches('/').to_string(),
        truncated: false,
    }
}

fn sample_plan() -> MountPlan {
    MountPlan {
        overlay_ops: vec![
            op("/system", &["/mnt/A/system", "/mnt/B/system"]),
            op("/vendor", &["/mnt/C/vendor"]),
        ],
        magic_module_paths: strings(&["/data/adb/modules/M"]),
        overlay_module_ids: strings(&["A", "B", "C"]),
        magic_module_ids: strings(&["M"]),
    }
}

#[test]
fn extract_id_is_the_parent_directory_name() {
    assert_eq!(extract_id("/mnt/storage/A/system"), Some("A".to_string()));
    assert_eq!(extract_id("/system"), None);
    assert_eq!(extract_id("/"), None);
    assert_eq!(extract_id("A/system"), Some("A".to_string()));
}

#[test]
fn extract_module_root_is_the_parent() {
    assert_eq!(extract_module_root("/mnt/storage/A/system"), Some("/mnt/storage/A".to_string()));
    assert_eq!(extract_module_root("/system"), Some("/".to_string()));
    assert_eq!(extract_module_root("/"), None);
}

#[test]
fn execute_without_failures_keeps_the_plan() {
    let plan = sample_plan();
    let r = execute(&plan, &vec![false, false], true);
    assert_eq!(r.overlay_module_ids, strings(&["A", "B", "C"]));
    assert_eq!(r.magic_module_ids, strings(&["M"]));
}

#[test]
fn execute_moves_modules_of_failed_mount_to_magic() {
    let plan = sample_plan();
    let r = execute(&plan, &vec![false, true], true);
    assert_eq!(r.overlay_module_ids, strings(&["A", "B"]));
    assert_eq!(r.magic_module_ids, strings(&["C", "M"]));
    assert!(!r.overlay_module_ids.contains(&"C".to_string()));
}

#[test]
fn execute_keeps_the_two_lists_apart() {
    let plan = sample_plan();
    for failed in [vec![true, true], vec![true, false], vec![false, true], vec![false, false], vec![]] {
        for magic_ok in [true, false] {
            let r = execute(&plan, &failed, magic_ok);
            for id in &r.overlay_module_ids {
                assert!(!r.magic_module_ids.contains(id));
            }
        }
    }
}

#[test]
fn execute_clears_magic_list_when_magic_mount_fails() {
    let plan = sample_plan();
    let r = execute(&plan, &vec![true, false], false);
    assert_eq!(r.overlay_module_ids, strings(&["C"]));
    assert!(r.magic_module_ids.is_empty());
}

#[test]
fn execute_treats_unreported_mounts_as_done() {
    let plan = sample_plan();
    let r = execute(&plan, &vec![], true);
    assert_eq!(r.overlay_module_ids, strings(&["A", "B", "C"]));
}

#[test]
fn execute_sorts_and_deduplicates() {
    let plan = MountPlan {
        overlay_ops: vec![op("/system", &["/mnt/B/system"]), op("/vendor", &["/mnt/B/vendor"])],
        magic_module_paths: strings(&["/m/Z", "/m/Y"]),
        overlay_module_ids: strings(&["C", "B", "A", "A"]),
        magic_module_ids: vec![],
    };
    let r = execute(&plan, &vec![true, true], true);
    assert_eq!(r.overlay_module_ids, strings(&["A", "C"]));
    assert_eq!(r.magic_module_ids, strings(&["B", "Y", "Z"]));
}

#[test]
fn reconcile_queues_roots_of_failed_mounts() {
    let plan = sample_plan();
    let rec = reconcile(&plan, &vec![true, false]);
    assert_eq!(rec.magic_queue, strings(&["/data/adb/modules/M", "/mnt/A", "/mnt/B"]));
    assert_eq!(rec.overlay_module_ids, strings(&["C"]));
    let untouched = reconcile(&plan, &vec![false, false]);
    assert_eq!(untouched.magic_queue, strings(&["/data/adb/modules/M"]));
    assert_eq!(untouched.overlay_module_ids, strings(&["A", "B", "C"]));
}

#[test]
fn execute_takes_an_inconsistent_plan_as_it_is() {
    let plan = MountPlan {
        overlay_ops: vec![op("/system", &["/mnt/A/system"])],
        magic_module_paths: strings(&["/data/adb/modules/A"]),
        overlay_module_ids: strings(&["A"]),
        magic_module_ids: strings(&["A"]),
    };
    let r = execute(&plan, &vec![false], true);
    assert_eq!(r.overlay_module_ids, strings(&["A"]));
    assert_eq!(r.magic_module_ids, strings(&["A"]));
}
