use hybrid_mount::mount::magic::{
    child_demands, collect_module_files, process_module, DirectoryPlan, Exclusion, LiveEntry,
    LiveKind, LivePartition, MagicError, MagicMount, ModuleSnapshot, NodeAction,
    PartitionSnapshot, Step,
};
use hybrid_mount::mount::node::{EntryKind, Node, NodeFileType, SourceEntry};

fn entry(path: &str, name: &str, kind: EntryKind, children: Vec<SourceEntry>) -> SourceEntry {
    SourceEntry {
        name: name.to_string(),
        path: format!("{}/{}", path, name),
        kind: Some(kind),
        opaque_xattr: None,
        has_replace_file: false,
        children,
    }
}

fn live(name: &str, kind: LiveKind) -> LiveEntry {
    LiveEntry { name: name.to_string(), kind, target_exists: true }
}

fn node(name: &str, file_type: NodeFileType, source: Option<&str>) -> Node {
    Node {
        name: name.to_string(),
        file_type,
        children: vec![],
        backing_path: source.map(|s| s.to_string()),
        replace: false,
        skip: false,
    }
}

fn dir_with(name: &str, source: Option<&str>, children: Vec<Node>) -> Node {
    let mut n = node(name, NodeFileType::Directory, source);
    n.children = children;
    n
}

fn mount(n: Node, has_tmpfs: bool) -> MagicMount {
    MagicMount::new(n, "/system", "/work/system", has_tmpfs, true)
}

fn describe(plan: &DirectoryPlan) -> Vec<String> {
    plan.steps
        .iter()
        .map(|s| match s {
            Step::Descend(n) => format!("descend {}", n.name),
            Step::Mirror(name) => format!("mirror {}", name),
        })
        .collect()
}

#[test]
fn new_places_the_node_under_both_paths() {
    let m = MagicMount::new(node("app", NodeFileType::Directory, None), "/system", "/w/system", false, true);
    assert_eq!(m.path, "/system/app");
    assert_eq!(m.work_dir_path, "/w/system/app");
    assert!(!m.has_tmpfs);
    assert!(m.umount);
    let root = MagicMount::new(node("", NodeFileType::Directory, None), "/", "/w", false, false);
    assert_eq!(root.path, "/");
    assert_eq!(root.work_dir_path, "/w/");
}

#[test]
fn regular_file_binds_in_place_outside_tmpfs() {
    let m = mount(node("build.prop", NodeFileType::RegularFile, Some("/mod/build.prop")), false);
    match m.do_magic_mount() {
        Ok(NodeAction::BindFile { source, target, create_first }) => {
            assert_eq!(source, "/mod/build.prop");
            assert_eq!(target, "/system/build.prop");
            assert!(!create_first);
        }
        _ => panic!("expected a bind"),
    }
}

#[test]
fn regular_file_binds_into_work_area_inside_tmpfs() {
    let m = mount(node("build.prop", NodeFileType::RegularFile, Some("/mod/build.prop")), true);
    match m.handle_regular_file() {
        Ok(NodeAction::BindFile { source, target, create_first }) => {
            assert_eq!(source, "/mod/build.prop");
            assert_eq!(target, "/work/system/build.prop");
            assert!(create_first);
        }
        _ => panic!("expected a bind"),
    }
}

#[test]
fn root_file_cannot_be_mounted() {
    let m = mount(node("f", NodeFileType::RegularFile, None), false);
    match m.do_magic_mount() {
        Err(MagicError::RootFile(p)) => assert_eq!(p, "/system/f"),
        _ => panic!("expected an error"),
    }
    let e = MagicError::RootFile("/system/f".to_string());
    assert_eq!(e.message(), "cannot mount root file /system/f!");
}

#[test]
fn symlink_is_cloned_into_work_area() {
    let m = mount(node("l", NodeFileType::Symlink, Some("/mod/l")), true);
    match m.do_magic_mount() {
        Ok(NodeAction::CloneSymlink { source, target }) => {
            assert_eq!(source, "/mod/l");
            assert_eq!(target, "/work/system/l");
        }
        _ => panic!("expected a clone"),
    }
    let root = mount(node("l", NodeFileType::Symlink, None), true);
    match root.handle_symlink() {
        Err(MagicError::RootSymlink(p)) => assert_eq!(p, "/system/l"),
        _ => panic!("expected an error"),
    }
    let e = MagicError::RootSymlink("/system/l".to_string());
    assert_eq!(e.message(), "cannot mount root symlink /system/l!");
}

#[test]
fn whiteout_and_directory_actions() {
    let w = mount(node("gone", NodeFileType::Whiteout, Some("/mod/gone")), true);
    assert!(matches!(w.do_magic_mount(), Ok(NodeAction::Removed)));
    let d = mount(node("dir", NodeFileType::Directory, None), false);
    assert!(matches!(d.do_magic_mount(), Ok(NodeAction::EnterDirectory)));
}

#[test]
fn child_demands_follow_the_live_listing() {
    let listing = vec![
        live("file", LiveKind::File),
        live("dir", LiveKind::Directory),
        live("link", LiveKind::Symlink),
        LiveEntry { name: "dangling".to_string(), kind: LiveKind::Symlink, target_exists: false },
    ];
    let f = |name: &str, t: NodeFileType| child_demands(&node(name, t, Some("/m")), &listing);
    assert!(!f("file", NodeFileType::RegularFile));
    assert!(f("file", NodeFileType::Directory));
    assert!(!f("dir", NodeFileType::Directory));
    assert!(f("dir", NodeFileType::RegularFile));
    assert!(f("link", NodeFileType::RegularFile));
    assert!(f("link", NodeFileType::Directory));
    assert!(f("missing", NodeFileType::RegularFile));
    assert!(f("missing", NodeFileType::Directory));
    assert!(f("file", NodeFileType::Symlink));
    assert!(f("missing", NodeFileType::Symlink));
    assert!(f("file", NodeFileType::Whiteout));
    assert!(!f("missing", NodeFileType::Whiteout));
    assert!(!f("dangling", NodeFileType::Whiteout));
}

#[test]
fn directory_of_matching_files_needs_no_tmpfs() {
    let n = dir_with(
        "etc",
        Some("/mod/etc"),
        vec![node("hosts", NodeFileType::RegularFile, Some("/mod/etc/hosts"))],
    );
    let listing = vec![live("fstab", LiveKind::File), live("hosts", LiveKind::File)];
    let plan = mount(n, false).handle_directory(true, &listing);
    assert!(!plan.create_tmpfs);
    assert!(!plan.has_tmpfs);
    assert_eq!(plan.attrs_from, None);
    assert!(!plan.schedule_umount);
    assert_eq!(plan.path, "/system/etc");
    assert_eq!(plan.work_dir_path, "/work/system/etc");
    assert_eq!(describe(&plan), vec!["descend hosts".to_string()]);
}

#[test]
fn new_file_asks_for_a_tmpfs_and_mirrors_the_rest() {
    let n = dir_with(
        "etc",
        Some("/mod/etc"),
        vec![
            node("new.conf", NodeFileType::RegularFile, Some("/mod/etc/new.conf")),
            node("hosts", NodeFileType::RegularFile, Some("/mod/etc/hosts")),
        ],
    );
    let listing = vec![live("fstab", LiveKind::File), live("hosts", LiveKind::File)];
    let plan = mount(n, false).handle_directory(true, &listing);
    assert!(plan.create_tmpfs);
    assert!(plan.has_tmpfs);
    assert!(plan.schedule_umount);
    assert_eq!(plan.attrs_from, Some("/system/etc".to_string()));
    assert_eq!(
        describe(&plan),
        vec!["mirror fstab".to_string(), "descend hosts".to_string(), "descend new.conf".to_string()]
    );
}

#[test]
fn whiteout_over_live_path_is_absent_in_the_tmpfs() {
    let n = dir_with(
        "app",
        Some("/D/system/app"),
        vec![
            node("Evil", NodeFileType::Whiteout, Some("/D/system/app/Evil")),
            node("Good", NodeFileType::Directory, Some("/D/system/app/Good")),
        ],
    );
    let listing = vec![
        live("Evil", LiveKind::Directory),
        live("Good", LiveKind::Directory),
        live("Stock", LiveKind::Directory),
    ];
    let plan = mount(n, false).handle_directory(true, &listing);
    assert!(plan.create_tmpfs);
    let steps = describe(&plan);
    assert_eq!(
        steps,
        vec!["descend Evil".to_string(), "descend Good".to_string(), "mirror Stock".to_string()]
    );
    assert!(!steps.contains(&"mirror Evil".to_string()));
    for s in plan.steps {
        if let Step::Descend(c) = s {
            if c.name == "Evil" {
                let m = MagicMount::new(c, "/system/app", "/work/system/app", true, true);
                assert!(matches!(m.do_magic_mount(), Ok(NodeAction::Removed)));
            }
        }
    }
}

#[test]
fn whiteout_without_live_path_needs_nothing() {
    let n = dir_with(
        "app",
        Some("/D/system/app"),
        vec![node("Evil", NodeFileType::Whiteout, Some("/D/system/app/Evil"))],
    );
    let plan = mount(n, false).handle_directory(true, &vec![live("Stock", LiveKind::Directory)]);
    assert!(!plan.create_tmpfs);
    assert_eq!(describe(&plan), vec!["descend Evil".to_string()]);
}

#[test]
fn replace_directory_hides_the_live_content() {
    let mut n = dir_with(
        "OldApp",
        Some("/E/system/priv-app/OldApp"),
        vec![node("New.apk", NodeFileType::RegularFile, Some("/E/system/priv-app/OldApp/New.apk"))],
    );
    n.replace = true;
    let listing = vec![live("Old.apk", LiveKind::File), live("lib", LiveKind::Directory)];
    let m = MagicMount::new(n, "/system/priv-app", "/work/system/priv-app", false, false);
    let plan = m.handle_directory(true, &listing);
    assert!(plan.create_tmpfs);
    assert!(!plan.schedule_umount);
    assert_eq!(describe(&plan), vec!["descend New.apk".to_string()]);
    assert_eq!(plan.attrs_from, Some("/system/priv-app/OldApp".to_string()));
}

#[test]
fn replace_without_source_does_not_make_a_tmpfs() {
    let mut n = dir_with("d", None, vec![]);
    n.replace = true;
    let plan = mount(n, false).handle_directory(true, &vec![live("a", LiveKind::File)]);
    assert!(!plan.create_tmpfs);
    assert!(plan.steps.is_empty());
}

#[test]
fn sourceless_children_are_set_aside_outside_tmpfs() {
    let n = dir_with(
        "system",
        None,
        vec![
            dir_with("ghost", None, vec![]),
            node("hosts", NodeFileType::RegularFile, Some("/mod/hosts")),
        ],
    );
    let m = MagicMount::new(n, "/", "/work", false, true);
    let plan = m.handle_directory(true, &vec![live("hosts", LiveKind::File)]);
    assert!(!plan.create_tmpfs);
    assert_eq!(describe(&plan), vec!["descend hosts".to_string()]);
}

#[test]
fn set_aside_stops_at_the_child_that_triggers() {
    let n = dir_with(
        "system",
        None,
        vec![
            dir_with("early", None, vec![]),
            node("link", NodeFileType::Symlink, Some("/mod/link")),
            dir_with("late", None, vec![]),
        ],
    );
    let m = MagicMount::new(n, "/", "/work", false, true);
    let plan = m.handle_directory(true, &vec![]);
    assert!(plan.create_tmpfs);
    assert_eq!(describe(&plan), vec!["descend link".to_string(), "descend late".to_string()]);
}

#[test]
fn inside_a_tmpfs_everything_is_rebuilt() {
    let n = dir_with(
        "etc",
        Some("/mod/etc"),
        vec![node("hosts", NodeFileType::RegularFile, Some("/mod/etc/hosts"))],
    );
    let listing = vec![live("fstab", LiveKind::File), live("hosts", LiveKind::File)];
    let plan = mount(n, true).handle_directory(true, &listing);
    assert!(!plan.create_tmpfs);
    assert!(plan.has_tmpfs);
    assert!(!plan.schedule_umount);
    assert_eq!(plan.attrs_from, Some("/system/etc".to_string()));
    assert_eq!(describe(&plan), vec!["mirror fstab".to_string(), "descend hosts".to_string()]);
}

#[test]
fn missing_live_directory_takes_attributes_from_the_module() {
    let n = dir_with(
        "newdir",
        Some("/mod/newdir"),
        vec![node("f", NodeFileType::RegularFile, Some("/mod/newdir/f"))],
    );
    let plan = mount(n, true).handle_directory(false, &vec![]);
    assert_eq!(plan.attrs_from, Some("/mod/newdir".to_string()));
    assert_eq!(describe(&plan), vec!["descend f".to_string()]);
    let sourceless = dir_with("x", None, vec![]);
    let plan = mount(sourceless, true).handle_directory(false, &vec![]);
    assert_eq!(plan.attrs_from, None);
}

fn snapshot(id: &str, partitions: Vec<(&str, Vec<SourceEntry>)>) -> ModuleSnapshot {
    ModuleSnapshot {
        path: format!("/data/adb/modules/{}", id),
        name: Some(id.to_string()),
        disabled: false,
        removed: false,
        skip_mount: false,
        partitions: partitions
            .into_iter()
            .map(|(name, entries)| PartitionSnapshot { name: name.to_string(), entries })
            .collect(),
    }
}

fn file_in(path: &str, name: &str) -> SourceEntry {
    entry(path, name, EntryKind::File, vec![])
}

fn names(n: &Node) -> Vec<String> {
    n.children.iter().map(|c| c.name.clone()).collect()
}

#[test]
fn process_module_splits_system_and_root() {
    let m = snapshot(
        "A",
        vec![
            ("system", vec![file_in("/A/system", "build.prop")]),
            ("vendor", vec![file_in("/A/vendor", "v.so")]),
            ("my_part", vec![file_in("/A/my_part", "m")]),
            ("other", vec![file_in("/A/other", "o")]),
        ],
    );
    let live = vec![
        LivePartition { name: "my_part".to_string(), root_is_dir: true, system_exists: false, system_is_symlink: false },
        LivePartition { name: "other".to_string(), root_is_dir: false, system_exists: false, system_is_symlink: false },
    ];
    let extra = vec!["my_part".to_string(), "other".to_string(), "vendor".to_string(), "system".to_string()];
    let (root, system) = process_module(&m, &extra, None, &live);
    assert_eq!(root.name, "");
    assert_eq!(names(&root), vec!["my_part".to_string()]);
    assert_eq!(system.name, "system");
    assert_eq!(names(&system), vec!["build.prop".to_string(), "vendor".to_string()]);
    assert_eq!(system.children[1].file_type, NodeFileType::Directory);
    assert_eq!(system.children[1].backing_path, None);
    assert_eq!(names(&system.children[1]), vec!["v.so".to_string()]);
}

#[test]
fn process_module_passes_over_marked_and_misnamed_modules() {
    let make = || snapshot("A", vec![("system", vec![file_in("/A/system", "f")])]);
    let mut disabled = make();
    disabled.disabled = true;
    let mut removed = make();
    removed.removed = true;
    let mut skipped = make();
    skipped.skip_mount = true;
    let mut misnamed = make();
    misnamed.name = Some("bad name".to_string());
    for m in [disabled, removed, skipped, misnamed] {
        let (root, system) = process_module(&m, &vec![], None, &vec![]);
        assert!(root.children.is_empty());
        assert!(system.children.is_empty());
    }
    let mut nameless = make();
    nameless.name = None;
    let (_, system) = process_module(&nameless, &vec![], None, &vec![]);
    assert_eq!(names(&system), vec!["f".to_string()]);
}

#[test]
fn process_module_honours_exclusions() {
    let m = snapshot(
        "A",
        vec![
            ("system", vec![file_in("/A/system", "f")]),
            ("vendor", vec![file_in("/A/vendor", "v")]),
            ("product", vec![file_in("/A/product", "p")]),
        ],
    );
    let excluded = vec!["system".to_string(), "vendor".to_string()];
    let (_, system) = process_module(&m, &vec![], Some(&excluded), &vec![]);
    assert_eq!(names(&system), vec!["product".to_string()]);
}

#[test]
fn process_module_turns_partition_symlink_into_directory() {
    let m = snapshot(
        "A",
        vec![
            ("system", vec![entry("/A/system", "vendor", EntryKind::Symlink, vec![])]),
            ("vendor", vec![file_in("/A/vendor", "v")]),
        ],
    );
    let (_, system) = process_module(&m, &vec![], None, &vec![]);
    assert_eq!(system.children[0].name, "vendor");
    assert_eq!(system.children[0].file_type, NodeFileType::Directory);
    assert_eq!(system.children[0].backing_path, None);
    assert_eq!(names(&system.children[0]), vec!["v".to_string()]);
}

#[test]
fn collect_module_files_gives_nothing_for_nothing() {
    assert!(collect_module_files(&vec![], &vec![], &vec![], &vec![]).is_none());
    let empty = snapshot("A", vec![("system", vec![])]);
    assert!(collect_module_files(&vec![empty], &vec![], &vec![], &vec![]).is_none());
}

#[test]
fn collect_module_files_merges_and_relocates() {
    let a = snapshot(
        "A",
        vec![
            ("system", vec![file_in("/A/system", "hosts")]),
            ("vendor", vec![file_in("/A/vendor", "a.so")]),
            ("odm", vec![file_in("/A/odm", "o")]),
        ],
    );
    let b = snapshot(
        "B",
        vec![
            ("system", vec![file_in("/B/system", "hosts"), file_in("/B/system", "extra")]),
            ("vendor", vec![file_in("/B/vendor", "b.so")]),
            ("product", vec![file_in("/B/product", "p")]),
        ],
    );
    let live = vec![
        LivePartition { name: "vendor".to_string(), root_is_dir: true, system_exists: true, system_is_symlink: true },
        LivePartition { name: "product".to_string(), root_is_dir: true, system_exists: true, system_is_symlink: false },
        LivePartition { name: "odm".to_string(), root_is_dir: true, system_exists: false, system_is_symlink: false },
    ];
    let root = collect_module_files(&vec![a, b], &vec![], &vec![], &live).unwrap();
    assert_eq!(root.name, "");
    assert_eq!(names(&root), vec!["vendor".to_string(), "odm".to_string(), "system".to_string()]);
    let vendor = &root.children[0];
    assert_eq!(names(vendor), vec!["a.so".to_string(), "b.so".to_string()]);
    let system = &root.children[2];
    assert_eq!(names(system), vec!["hosts".to_string(), "extra".to_string(), "product".to_string()]);
    assert_eq!(system.children[0].backing_path, Some("/A/system/hosts".to_string()));
}

#[test]
fn collect_module_files_uses_the_exclusions_of_each_module() {
    let a = snapshot("A", vec![("system", vec![file_in("/A/system", "a")])]);
    let b = snapshot("B", vec![("system", vec![file_in("/B/system", "b")])]);
    let exclusions = vec![Exclusion {
        path: "/data/adb/modules/A".to_string(),
        partitions: vec!["system".to_string()],
    }];
    let root = collect_module_files(&vec![a, b], &vec![], &exclusions, &vec![]).unwrap();
    assert_eq!(names(&root), vec!["system".to_string()]);
    assert_eq!(names(&root.children[0]), vec!["b".to_string()]);
}
