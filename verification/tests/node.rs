use hybrid_mount::mount::node::{
    find_child, merge_nodes, EntryKind, Node, NodeFileType, SourceEntry,
};

fn entry(name: &str, kind: EntryKind, children: Vec<SourceEntry>) -> SourceEntry {
    SourceEntry {
        name: name.to_string(),
        path: format!("/mod/{}", name),
        kind: Some(kind),
        opaque_xattr: None,
        has_replace_file: false,
        children,
    }
}

fn file(name: &str) -> SourceEntry {
    entry(name, EntryKind::File, vec![])
}

fn dir(name: &str, children: Vec<SourceEntry>) -> SourceEntry {
    entry(name, EntryKind::Directory, children)
}

fn in_module(module: &str, mut e: SourceEntry) -> SourceEntry {
    e.path = format!("/{}{}", module, e.path);
    e.children = e.children.into_iter().map(|c| in_module(module, c)).collect();
    e
}

fn tree(module: &str, entries: Vec<SourceEntry>) -> Node {
    let mut root = Node::new_root("system");
    let entries: Vec<SourceEntry> = entries.into_iter().map(|e| in_module(module, e)).collect();
    root.collect_module_files(&entries);
    root
}

fn child<'a>(n: &'a Node, name: &str) -> Option<&'a Node> {
    n.children.iter().find(|c| c.name == name)
}

fn at<'a>(n: &'a Node, path: &[&str]) -> Option<&'a Node> {
    let mut cur = n;
    for name in path {
        cur = child(cur, name)?;
    }
    Some(cur)
}

type Shape = Vec<(String, NodeFileType, Option<String>, bool)>;

fn shape_into(n: &Node, prefix: &str, out: &mut Shape) {
    let here = format!("{}/{}", prefix, n.name);
    out.push((here.clone(), n.file_type, n.backing_path.clone(), n.replace));
    for c in &n.children {
        shape_into(c, &here, out);
    }
}

fn shape(n: &Node) -> Shape {
    let mut out = Vec::new();
    shape_into(n, "", &mut out);
    out.sort_by(|a, b| a.0.cmp(&b.0));
    out
}

#[test]
fn new_root_is_an_empty_directory() {
    let n = Node::new_root("system");
    assert_eq!(n.name, "system");
    assert_eq!(n.file_type, NodeFileType::Directory);
    assert!(n.children.is_empty());
    assert_eq!(n.backing_path, None);
    assert!(!n.replace);
    assert!(!n.skip);
}

#[test]
fn from_file_type_maps_the_three_plain_kinds() {
    assert_eq!(NodeFileType::from_file_type(EntryKind::File), Some(NodeFileType::RegularFile));
    assert_eq!(NodeFileType::from_file_type(EntryKind::Directory), Some(NodeFileType::Directory));
    assert_eq!(NodeFileType::from_file_type(EntryKind::Symlink), Some(NodeFileType::Symlink));
    assert_eq!(NodeFileType::from_file_type(EntryKind::CharDevice { rdev: 0 }), None);
    assert_eq!(NodeFileType::from_file_type(EntryKind::Other), None);
}

#[test]
fn labels_of_node_types() {
    assert_eq!(NodeFileType::Directory.label(), "DIR");
    assert_eq!(NodeFileType::RegularFile.label(), "FILE");
    assert_eq!(NodeFileType::Symlink.label(), "LINK");
    assert_eq!(NodeFileType::Whiteout.label(), "WHT");
}

#[test]
fn char_device_zero_is_a_whiteout() {
    let e = entry("Evil", EntryKind::CharDevice { rdev: 0 }, vec![]);
    let n = Node::new_module("Evil", &e).unwrap();
    assert_eq!(n.file_type, NodeFileType::Whiteout);
    assert_eq!(n.backing_path, Some("/mod/Evil".to_string()));
    assert!(n.children.is_empty());
    let other = entry("tty", EntryKind::CharDevice { rdev: 1025 }, vec![]);
    assert!(Node::new_module("tty", &other).is_none());
}

#[test]
fn new_module_skips_what_it_cannot_mount() {
    assert!(Node::new_module("sock", &entry("sock", EntryKind::Other, vec![])).is_none());
    let mut unreadable = file("x");
    unreadable.kind = None;
    assert!(Node::new_module("x", &unreadable).is_none());
    let link = Node::new_module("l", &entry("l", EntryKind::Symlink, vec![])).unwrap();
    assert_eq!(link.file_type, NodeFileType::Symlink);
    let f = Node::new_module("f", &file("f")).unwrap();
    assert_eq!(f.file_type, NodeFileType::RegularFile);
    assert_eq!(f.name, "f");
    assert!(!f.replace);
    assert!(!f.skip);
}

#[test]
fn replace_comes_from_xattr_or_sentinel() {
    assert!(Node::dir_is_replace(&Some(b"y".to_vec()), false));
    assert!(Node::dir_is_replace(&None, true));
    assert!(Node::dir_is_replace(&Some(b"n".to_vec()), true));
    assert!(!Node::dir_is_replace(&Some(b"n".to_vec()), false));
    assert!(!Node::dir_is_replace(&Some(b"yy".to_vec()), false));
    assert!(!Node::dir_is_replace(&Some(vec![]), false));
    assert!(!Node::dir_is_replace(&None, false));
}

#[test]
fn replace_flag_is_for_directories_only() {
    let mut d = dir("OldApp", vec![]);
    d.opaque_xattr = Some(b"y".to_vec());
    assert!(Node::new_module("OldApp", &d).unwrap().replace);
    let mut s = dir("Other", vec![]);
    s.has_replace_file = true;
    assert!(Node::new_module("Other", &s).unwrap().replace);
    let mut f = file("f");
    f.opaque_xattr = Some(b"y".to_vec());
    f.has_replace_file = true;
    assert!(!Node::new_module("f", &f).unwrap().replace);
}

#[test]
fn collect_builds_the_tree() {
    let mut root = Node::new_root("system");
    let entries = vec![dir("lib", vec![file("libx.so")]), file("build.prop")];
    let has_file = root.collect_module_files(&entries);
    assert!(has_file);
    assert_eq!(root.children.len(), 2);
    assert_eq!(root.children[0].name, "lib");
    assert_eq!(root.children[1].name, "build.prop");
    let lib = at(&root, &["lib", "libx.so"]).unwrap();
    assert_eq!(lib.file_type, NodeFileType::RegularFile);
    assert_eq!(lib.backing_path, Some("/mod/libx.so".to_string()));
}

#[test]
fn collect_reports_whether_a_file_was_found() {
    let mut empty = Node::new_root("system");
    assert!(!empty.collect_module_files(&vec![]));
    let mut dirs_only = Node::new_root("system");
    assert!(!dirs_only.collect_module_files(&vec![dir("a", vec![dir("b", vec![])])]));
    let mut deep = Node::new_root("system");
    assert!(deep.collect_module_files(&vec![dir("a", vec![dir("b", vec![file("c")])])]));
    let mut replacing = Node::new_root("system");
    let mut d = dir("a", vec![]);
    d.has_replace_file = true;
    assert!(replacing.collect_module_files(&vec![d]));
    let mut whiteout = Node::new_root("system");
    let w = entry("gone", EntryKind::CharDevice { rdev: 0 }, vec![]);
    assert!(whiteout.collect_module_files(&vec![w]));
    let mut skipped = Node::new_root("system");
    assert!(!skipped.collect_module_files(&vec![entry("sock", EntryKind::Other, vec![])]));
    assert!(skipped.children.is_empty());
}

#[test]
fn collect_keeps_the_node_that_came_first() {
    let mut root = tree("A", vec![file("hosts"), dir("etc", vec![file("a")])]);
    let second: Vec<SourceEntry> = vec![
        in_module("B", dir("hosts", vec![file("inner")])),
        in_module("B", dir("etc", vec![file("a"), file("b")])),
        in_module("B", file("new")),
    ];
    root.collect_module_files(&second);
    let hosts = at(&root, &["hosts"]).unwrap();
    assert_eq!(hosts.file_type, NodeFileType::RegularFile);
    assert_eq!(hosts.backing_path, Some("/A/mod/hosts".to_string()));
    assert!(hosts.children.is_empty());
    assert_eq!(at(&root, &["etc", "a"]).unwrap().backing_path, Some("/A/mod/a".to_string()));
    assert_eq!(at(&root, &["etc", "b"]).unwrap().backing_path, Some("/B/mod/b".to_string()));
    assert_eq!(at(&root, &["etc"]).unwrap().backing_path, Some("/A/mod/etc".to_string()));
    assert_eq!(at(&root, &["new"]).unwrap().backing_path, Some("/B/mod/new".to_string()));
}

#[test]
fn find_child_gives_the_position() {
    let root = tree("A", vec![file("a"), file("b"), file("c")]);
    assert_eq!(find_child(&root.children, &"a".to_string()), Some(0));
    assert_eq!(find_child(&root.children, &"c".to_string()), Some(2));
    assert_eq!(find_child(&root.children, &"d".to_string()), None);
}

#[test]
fn merge_without_overlap_is_the_same_either_way() {
    let make_a = || tree("A", vec![dir("app", vec![file("One.apk")]), file("a.prop")]);
    let make_b = || tree("B", vec![dir("lib", vec![file("libz.so")]), file("b.prop")]);
    let mut ab = make_a();
    merge_nodes(&mut ab, make_b());
    let mut ba = make_b();
    merge_nodes(&mut ba, make_a());
    assert_eq!(shape(&ab), shape(&ba));
    assert_eq!(ab.children.len(), 4);
    assert_eq!(
        at(&ab, &["lib", "libz.so"]).unwrap().backing_path,
        Some("/B/mod/libz.so".to_string())
    );
}

#[test]
fn merge_shares_sourceless_directories() {
    let make = |m: &str, leaf: &str| {
        let mut root = Node::new_root("");
        let mut system = Node::new_root("system");
        system.collect_module_files(&vec![in_module(m, file(leaf))]);
        root.children.push(system);
        root
    };
    let mut ab = make("A", "x");
    merge_nodes(&mut ab, make("B", "y"));
    let mut ba = make("B", "y");
    merge_nodes(&mut ba, make("A", "x"));
    assert_eq!(shape(&ab), shape(&ba));
    assert_eq!(at(&ab, &["system"]).unwrap().children.len(), 2);
}

#[test]
fn merge_lets_the_first_tree_win() {
    let mut a = tree("A", vec![dir("etc", vec![file("hosts")]), file("plain")]);
    let b = tree(
        "B",
        vec![dir("etc", vec![file("hosts"), file("extra")]), dir("plain", vec![file("inner")])],
    );
    merge_nodes(&mut a, b);
    assert_eq!(
        at(&a, &["etc", "hosts"]).unwrap().backing_path,
        Some("/A/mod/hosts".to_string())
    );
    assert_eq!(at(&a, &["etc"]).unwrap().backing_path, Some("/A/mod/etc".to_string()));
    assert_eq!(
        at(&a, &["etc", "extra"]).unwrap().backing_path,
        Some("/B/mod/extra".to_string())
    );
    let plain = at(&a, &["plain"]).unwrap();
    assert_eq!(plain.file_type, NodeFileType::RegularFile);
    assert!(plain.children.is_empty());
}

#[test]
fn merge_into_a_file_changes_nothing() {
    let e = file("f");
    let mut f = Node::new_module("f", &e).unwrap();
    let d = tree("B", vec![file("x")]);
    merge_nodes(&mut f, d);
    assert_eq!(f.file_type, NodeFileType::RegularFile);
    assert!(f.children.is_empty());
    assert_eq!(f.backing_path, Some("/mod/f".to_string()));
}

#[test]
fn merge_gives_a_sourceless_directory_the_other_source() {
    let mut high = Node::new_root("vendor");
    let mut d = dir("vendor", vec![file("v")]);
    d.has_replace_file = true;
    let mut parent = Node::new_root("p");
    parent.collect_module_files(&vec![d]);
    let low = parent.children.remove(0);
    assert!(low.replace);
    merge_nodes(&mut high, low);
    assert_eq!(high.backing_path, Some("/mod/vendor".to_string()));
    assert!(high.replace);
    assert_eq!(high.children.len(), 1);
}

#[test]
fn whiteout_survives_the_merge() {
    let w = entry("Evil", EntryKind::CharDevice { rdev: 0 }, vec![]);
    let mut d = tree("D", vec![dir("app", vec![w, file("Good.apk")])]);
    let other = tree("E", vec![dir("app", vec![dir("Evil", vec![file("Evil.apk")])])]);
    merge_nodes(&mut d, other);
    let evil = at(&d, &["app", "Evil"]).unwrap();
    assert_eq!(evil.file_type, NodeFileType::Whiteout);
    assert!(evil.children.is_empty());
}

#[test]
fn tree_is_drawn_with_children_in_name_order() {
    let mut root = Node::new_root("");
    let mut system = tree(
        "A",
        vec![
            file("zz"),
            dir("etc", vec![file("hosts"), entry("gone", EntryKind::CharDevice { rdev: 0 }, vec![])]),
            entry("bin", EntryKind::Symlink, vec![]),
        ],
    );
    system.children[1].replace = true;
    system.children[1].skip = true;
    system.children[0].skip = true;
    root.children.push(system);
    let expected = "\
/ [DIR]
\u{2514}\u{2500}\u{2500} system [DIR]
    \u{251c}\u{2500}\u{2500} bin [LINK] -> /A/mod/bin
    \u{251c}\u{2500}\u{2500} etc [DIR] [REPLACE|SKIP] -> /A/mod/etc
    \u{2502}   \u{251c}\u{2500}\u{2500} gone [WHT] -> /A/mod/gone
    \u{2502}   \u{2514}\u{2500}\u{2500} hosts [FILE] -> /A/mod/hosts
    \u{2514}\u{2500}\u{2500} zz [FILE] [SKIP] -> /A/mod/zz
";
    assert_eq!(root.render(), expected);
    assert_eq!(Node::new_root("lone").render(), "lone [DIR]\n");
}
