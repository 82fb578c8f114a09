//! The tree of files that a magic mount projects onto the live filesystem.

use crate::text::{lex_lt, owned, str_lt};
use vstd::prelude::*;
use vstd::string::StringExecFns;

verus! {

/// What a node of the projected tree is.
#[derive(PartialEq, Eq, Clone, Copy, Debug, Hash, Structural)]
pub enum NodeFileType {
    RegularFile,
    Directory,
    Symlink,
    Whiteout,
}

/// What the metadata of a directory entry says it is.
#[derive(PartialEq, Eq, Clone, Copy, Debug, Hash, Structural)]
pub enum EntryKind {
    File,
    Directory,
    Symlink,
    /// A character device, with its device number.
    CharDevice { rdev: u64 },
    /// Anything else: a block device, a socket, a pipe.
    Other,
}

/// One entry of a module's source directory, as read from disk.
pub struct SourceEntry {
    pub name: String,
    /// Where the entry lies in the module.
    pub path: String,
    /// `None` where the metadata could not be read.
    pub kind: Option<EntryKind>,
    /// Value of the overlay "opaque" attribute, where the entry has one.
    pub opaque_xattr: Option<Vec<u8>>,
    /// Whether the entry is a directory that holds the replace sentinel.
    pub has_replace_file: bool,
    /// The entries below it, where it is a directory.
    pub children: Vec<SourceEntry>,
}

pub struct Node {
    pub name: String,
    pub file_type: NodeFileType,
    pub children: Vec<Node>,
    pub backing_path: Option<String>,
    pub replace: bool,
    pub skip: bool,
}

/// The mathematical content of a [`Node`].
pub ghost struct NodeModel {
    pub name: Seq<char>,
    pub file_type: NodeFileType,
    pub children: Seq<NodeModel>,
    pub backing_path: Option<Seq<char>>,
    pub replace: bool,
    pub skip: bool,
}

/// The mathematical content of a [`SourceEntry`].
pub ghost struct EntryModel {
    pub name: Seq<char>,
    pub path: Seq<char>,
    pub kind: Option<EntryKind>,
    pub opaque_xattr: Option<Seq<u8>>,
    pub has_replace_file: bool,
    pub children: Seq<EntryModel>,
}

pub open spec fn opt_view(s: Option<String>) -> Option<Seq<char>> {
    match s {
        Some(p) => Some(p@),
        None => None,
    }
}

/// The model of a node, children and all.
pub open spec fn node_model(n: Node) -> NodeModel
    decreases n,
{
    NodeModel {
        name: n.name@,
        file_type: n.file_type,
        children: Seq::new(
            n.children.len() as nat,
            |i: int|
                if 0 <= i < n.children.len() {
                    node_model(n.children[i])
                } else {
                    arbitrary()
                },
        ),
        backing_path: opt_view(n.backing_path),
        replace: n.replace,
        skip: n.skip,
    }
}

/// The model of a source entry, children and all.
pub open spec fn entry_model(e: SourceEntry) -> EntryModel
    decreases e,
{
    EntryModel {
        name: e.name@,
        path: e.path@,
        kind: e.kind,
        opaque_xattr: match e.opaque_xattr {
            Some(v) => Some(v@),
            None => None,
        },
        has_replace_file: e.has_replace_file,
        children: Seq::new(
            e.children.len() as nat,
            |i: int|
                if 0 <= i < e.children.len() {
                    entry_model(e.children[i])
                } else {
                    arbitrary()
                },
        ),
    }
}

impl View for Node {
    type V = NodeModel;

    open spec fn view(&self) -> NodeModel {
        node_model(*self)
    }
}

impl View for SourceEntry {
    type V = EntryModel;

    open spec fn view(&self) -> EntryModel {
        entry_model(*self)
    }
}

/// The models of a list of nodes.
pub open spec fn models(v: Seq<Node>) -> Seq<NodeModel> {
    Seq::new(v.len(), |i: int| v[i]@)
}

/// The models of a list of source entries.
pub open spec fn entry_models(v: Seq<SourceEntry>) -> Seq<EntryModel> {
    Seq::new(v.len(), |i: int| v[i]@)
}

/// A node's children, seen as models, are the models of its children.
pub proof fn lemma_children_models(n: Node)
    ensures
        n@.children == models(n.children@),
{
    assert(n@.children.len() == n.children@.len());
    assert forall|i: int| 0 <= i < n.children@.len() implies n@.children[i] == n.children@[i]@ by {}
    assert(n@.children =~= models(n.children@));
}

/// A source entry's children, seen as models, are the models of its children.
pub proof fn lemma_entry_children_models(e: SourceEntry)
    ensures
        e@.children == entry_models(e.children@),
{
    assert(e@.children =~= entry_models(e.children@));
}

/// Index of the first child called `name`, or the number of children where
/// there is none.
pub open spec fn child_pos(children: Seq<NodeModel>, name: Seq<char>) -> int
    decreases children.len(),
{
    if children.len() == 0 {
        0
    } else {
        let p = child_pos(children.drop_last(), name);
        if p < children.len() - 1 {
            p
        } else if children.last().name == name {
            children.len() - 1
        } else {
            children.len() as int
        }
    }
}

/// What `child_pos` finds: the first child of that name, or nothing.
pub proof fn lemma_child_pos(children: Seq<NodeModel>, name: Seq<char>)
    ensures
        0 <= child_pos(children, name) <= children.len(),
        child_pos(children, name) < children.len() ==> children[child_pos(
            children,
            name,
        )].name == name,
        forall|k: int| 0 <= k < child_pos(children, name) ==> (#[trigger] children[k]).name != name,
    decreases children.len(),
{
    if children.len() > 0 {
        lemma_child_pos(children.drop_last(), name);
        assert forall|k: int| 0 <= k < child_pos(children, name) implies (
        #[trigger] children[k]).name != name by {
            if k < children.len() - 1 {
                assert(children.drop_last()[k] == children[k]);
            }
        }
    }
}

/// No two children share a name.
pub open spec fn unique_names(children: Seq<NodeModel>) -> bool {
    forall|i: int, j: int|
        0 <= i < j < children.len() ==> (#[trigger] children[i]).name != (
        #[trigger] children[j]).name
}

/// A tree is well formed when, at every level, children have distinct names
/// and only a directory has children.
pub open spec fn well_formed(n: NodeModel) -> bool
    decreases n,
{
    &&& unique_names(n.children)
    &&& n.file_type != NodeFileType::Directory ==> n.children.len() == 0
    &&& forall|i: int| 0 <= i < n.children.len() ==> well_formed(#[trigger] n.children[i])
}

impl NodeFileType {
    /// The node type of a plain file, a directory or a symlink; nothing for
    /// any other kind of entry.
    pub fn from_file_type(kind: EntryKind) -> (r: Option<NodeFileType>)
        ensures
            r == Self::spec_from_file_type(kind),
    {
        match kind {
            EntryKind::File => Some(NodeFileType::RegularFile),
            EntryKind::Directory => Some(NodeFileType::Directory),
            EntryKind::Symlink => Some(NodeFileType::Symlink),
            _ => None,
        }
    }

    pub open spec fn spec_from_file_type(kind: EntryKind) -> Option<NodeFileType> {
        match kind {
            EntryKind::File => Some(NodeFileType::RegularFile),
            EntryKind::Directory => Some(NodeFileType::Directory),
            EntryKind::Symlink => Some(NodeFileType::Symlink),
            _ => None,
        }
    }

    /// The node type that an entry of this kind yields in a module: a
    /// character device with device number 0 is a whiteout.
    pub open spec fn of_entry(kind: EntryKind) -> Option<NodeFileType> {
        match kind {
            EntryKind::CharDevice { rdev } => if rdev == 0 {
                Some(NodeFileType::Whiteout)
            } else {
                None
            },
            _ => Self::spec_from_file_type(kind),
        }
    }

    /// Short label of the type.
    pub fn label(&self) -> (r: String)
        ensures
            r@ == (match *self {
                NodeFileType::Directory => "DIR"@,
                NodeFileType::RegularFile => "FILE"@,
                NodeFileType::Symlink => "LINK"@,
                NodeFileType::Whiteout => "WHT"@,
            }),
    {
        match self {
            NodeFileType::Directory => owned("DIR"),
            NodeFileType::RegularFile => owned("FILE"),
            NodeFileType::Symlink => owned("LINK"),
            NodeFileType::Whiteout => owned("WHT"),
        }
    }
}

/// Whether a directory with these marks replaces the live directory: the
/// opaque attribute is exactly `y`, or the sentinel file is there.
pub open spec fn spec_dir_is_replace(opaque_xattr: Option<Seq<u8>>, has_replace_file: bool) -> bool {
    (opaque_xattr matches Some(v) && v == seq![0x79u8]) || has_replace_file
}

/// The node that a module's entry becomes, before its children are read.
pub open spec fn node_of_entry(e: EntryModel) -> Option<NodeModel> {
    match e.kind {
        None => None,
        Some(kind) => match NodeFileType::of_entry(kind) {
            None => None,
            Some(file_type) => Some(
                NodeModel {
                    name: e.name,
                    file_type,
                    children: Seq::empty(),
                    backing_path: Some(e.path),
                    replace: file_type == NodeFileType::Directory && spec_dir_is_replace(
                        e.opaque_xattr,
                        e.has_replace_file,
                    ),
                    skip: false,
                },
            ),
        },
    }
}

/// A directory node takes in what a directory entry holds; any other pairing
/// leaves the node as it is.
pub open spec fn absorb(n: NodeModel, e: EntryModel) -> NodeModel
    decreases e, 1int,
{
    if n.file_type == NodeFileType::Directory && e.kind == Some(EntryKind::Directory) {
        NodeModel { children: collect_children(n.children, e.children, e.children.len() as int), ..n }
    } else {
        n
    }
}

/// The children after the first `k` entries were collected: an entry whose
/// name is taken goes into the node of that name, another one becomes a new
/// last child.
pub open spec fn collect_children(
    children: Seq<NodeModel>,
    entries: Seq<EntryModel>,
    k: int,
) -> Seq<NodeModel>
    decreases entries, k,
{
    if k <= 0 || k > entries.len() {
        children
    } else {
        let prev = collect_children(children, entries, k - 1);
        let e = entries[k - 1];
        let p = child_pos(prev, e.name);
        if 0 <= p < prev.len() {
            prev.update(p, absorb(prev[p], e))
        } else {
            match node_of_entry(e) {
                Some(n) => prev.push(absorb(n, e)),
                None => prev,
            }
        }
    }
}

/// Whether collecting `e` into `n` finds a file: anything but a directory
/// counts, and so does a directory that replaces or holds a file.
pub open spec fn absorb_has_file(n: NodeModel, e: EntryModel) -> bool
    decreases e, 1int,
{
    if n.file_type == NodeFileType::Directory {
        n.replace || (e.kind == Some(EntryKind::Directory) && collect_has_file(
            n.children,
            e.children,
            e.children.len() as int,
        ))
    } else {
        true
    }
}

/// Whether collecting the first `k` entries finds a file.
pub open spec fn collect_has_file(
    children: Seq<NodeModel>,
    entries: Seq<EntryModel>,
    k: int,
) -> bool
    decreases entries, k,
{
    if k <= 0 || k > entries.len() {
        false
    } else {
        let prev = collect_children(children, entries, k - 1);
        let e = entries[k - 1];
        let p = child_pos(prev, e.name);
        collect_has_file(children, entries, k - 1) || if 0 <= p < prev.len() {
            absorb_has_file(prev[p], e)
        } else {
            match node_of_entry(e) {
                Some(n) => absorb_has_file(n, e),
                None => false,
            }
        }
    }
}

/// Index of the first child called `name`.
pub fn find_child(children: &Vec<Node>, name: &String) -> (r: Option<usize>)
    ensures
        match r {
            Some(i) => i < children.len() && i == child_pos(models(children@), name@),
            None => child_pos(models(children@), name@) == children.len(),
        },
{
    let mut i: usize = 0;
    while i < children.len()
        invariant
            i <= children.len(),
            child_pos(models(children@).subrange(0, i as int), name@) == i,
        decreases children.len() - i,
    {
        proof {
            let next = models(children@).subrange(0, i + 1);
            assert(next.drop_last() =~= models(children@).subrange(0, i as int));
            assert(next.last() == children[i as int]@);
        }
        if children[i].name == *name {
            proof {
                lemma_pos_prefix(models(children@), name@, i + 1);
            }
            return Some(i);
        }
        i = i + 1;
    }
    assert(models(children@).subrange(0, children.len() as int) =~= models(children@));
    None
}

/// A match within a prefix is the match in the whole list.
pub proof fn lemma_pos_prefix(children: Seq<NodeModel>, name: Seq<char>, n: int)
    requires
        0 <= n <= children.len(),
        child_pos(children.subrange(0, n), name) < n,
    ensures
        child_pos(children, name) == child_pos(children.subrange(0, n), name),
    decreases children.len() - n,
{
    if n < children.len() {
        let next = children.subrange(0, n + 1);
        assert(next.drop_last() =~= children.subrange(0, n));
        lemma_pos_prefix(children, name, n + 1);
    } else {
        assert(children.subrange(0, n) =~= children);
    }
}

impl Node {
    /// Whether a directory with these marks replaces the live directory.
    pub fn dir_is_replace(opaque_xattr: &Option<Vec<u8>>, has_replace_file: bool) -> (r: bool)
        ensures
            r == spec_dir_is_replace(
                match *opaque_xattr {
                    Some(v) => Some(v@),
                    None => None,
                },
                has_replace_file,
            ),
    {
        match opaque_xattr {
            Some(v) => {
                if v.len() == 1 && v[0] == 0x79u8 {
                    assert(v@ =~= seq![0x79u8]);
                    true
                } else {
                    has_replace_file
                }
            },
            None => has_replace_file,
        }
    }

    /// A directory without a source and without children.
    pub fn new_root(name: &str) -> (r: Node)
        ensures
            r@ == (NodeModel {
                name: name@,
                file_type: NodeFileType::Directory,
                children: Seq::empty(),
                backing_path: None,
                replace: false,
                skip: false,
            }),
    {
        let r = Node {
            name: owned(name),
            file_type: NodeFileType::Directory,
            children: Vec::new(),
            backing_path: None,
            replace: false,
            skip: false,
        };
        assert(r@.children =~= Seq::empty());
        r
    }

    /// The node for one entry of a module: a file, a directory, a symlink,
    /// or a whiteout where the entry is a character device numbered 0.
    /// Other entries, and those whose metadata cannot be read, give none.
    pub fn new_module(name: &str, entry: &SourceEntry) -> (r: Option<Node>)
        ensures
            match r {
                Some(n) => node_of_entry(EntryModel { name: name@, ..entry@ }) == Some(n@),
                None => node_of_entry(EntryModel { name: name@, ..entry@ }) is None,
            },
    {
        let kind = match entry.kind {
            Some(k) => k,
            None => {
                return None;
            },
        };
        let file_type = match kind {
            EntryKind::CharDevice { rdev } => {
                if rdev == 0 {
                    Some(NodeFileType::Whiteout)
                } else {
                    None
                }
            },
            _ => NodeFileType::from_file_type(kind),
        };
        match file_type {
            Some(file_type) => {
                let replace = if file_type == NodeFileType::Directory {
                    Self::dir_is_replace(&entry.opaque_xattr, entry.has_replace_file)
                } else {
                    false
                };
                let n = Node {
                    name: owned(name),
                    file_type,
                    children: Vec::new(),
                    backing_path: Some(entry.path.clone()),
                    replace,
                    skip: false,
                };
                assert(n@.children =~= Seq::empty());
                Some(n)
            },
            None => None,
        }
    }
}


/// Two trees laid over each other, the first one winning. Two directories
/// merge: each child of `low` goes into the child of `high` with its name,
/// or becomes a new last child; a directory without a source takes the
/// source and the replace flag of the other. Any other pairing keeps `high`.
pub open spec fn merge_node(high: NodeModel, low: NodeModel) -> NodeModel
    decreases low, 1int,
{
    if high.file_type == NodeFileType::Directory && low.file_type == NodeFileType::Directory {
        NodeModel {
            name: high.name,
            file_type: NodeFileType::Directory,
            children: merge_children(high.children, low.children, low.children.len() as int),
            backing_path: if high.backing_path is None {
                low.backing_path
            } else {
                high.backing_path
            },
            replace: if high.backing_path is None {
                low.replace
            } else {
                high.replace
            },
            skip: high.skip,
        }
    } else {
        high
    }
}

/// The children of `high` after the first `k` children of `low` were merged
/// in.
pub open spec fn merge_children(
    children: Seq<NodeModel>,
    lows: Seq<NodeModel>,
    k: int,
) -> Seq<NodeModel>
    decreases lows, k,
{
    if k <= 0 || k > lows.len() {
        children
    } else {
        let prev = merge_children(children, lows, k - 1);
        let l = lows[k - 1];
        let p = child_pos(prev, l.name);
        if 0 <= p < prev.len() {
            prev.update(p, merge_node(prev[p], l))
        } else {
            prev.push(l)
        }
    }
}

/// Lays `low` over `high`, `high` winning.
pub fn merge_nodes(high: &mut Node, low: Node)
    ensures
        final(high)@ == merge_node(old(high)@, low@),
    decreases low,
{
    if !(high.file_type == NodeFileType::Directory && low.file_type == NodeFileType::Directory) {
        return ;
    }
    let ghost high0 = high@;
    let ghost low0 = low;
    let ghost all = low.children@;
    proof {
        lemma_children_models(*high);
        lemma_children_models(low);
    }
    let Node { children, backing_path, replace, .. } = low;
    let mut kids = children;
    if high.backing_path.is_none() {
        high.backing_path = backing_path;
        high.replace = replace;
    }
    let ghost n = all.len() as int;
    let ghost mut k: int = 0;
    assert(kids@ =~= all.subrange(0, n));
    while kids.len() > 0
        invariant
            0 <= k <= n,
            n == all.len(),
            all == low0.children@,
            low0 == low,
            kids@ == all.subrange(k, n),
            models(high.children@) == merge_children(high0.children, models(all), k),
            high.name@ == high0.name,
            high.file_type == high0.file_type,
            high.skip == high0.skip,
            opt_view(high.backing_path) == merge_node(high0, low0@).backing_path,
            high.replace == merge_node(high0, low0@).replace,
            high0.file_type == NodeFileType::Directory,
            low0.file_type == NodeFileType::Directory,
        decreases kids.len(),
    {
        let l = kids.remove(0);
        proof {
            assert(l == all[k]);
            assert(kids@ =~= all.subrange(k + 1, n));
            assert(models(all)[k] == l@);
        }
        let ghost before = models(high.children@);
        match find_child(&high.children, &l.name) {
            Some(p) => {
                let mut node = high.children.remove(p);
                let ghost node0 = node@;
                merge_nodes(&mut node, l);
                high.children.insert(p, node);
                assert(models(high.children@) =~= before.update(
                    p as int,
                    merge_node(node0, l@),
                ));
            },
            None => {
                high.children.push(l);
                assert(models(high.children@) =~= before.push(l@));
            },
        }
        proof {
            k = k + 1;
        }
    }
    proof {
        assert(k == n);
        lemma_children_models(*high);
        lemma_children_models(low0);
    }
}

impl Node {
    /// Takes in the entries of one module directory. A name that the node
    /// already has keeps its node, which takes in the entry's own entries
    /// only where both are directories; another entry becomes a new child.
    /// Returns whether a file was found: any entry but a directory, or a
    /// directory that replaces or holds one.
    pub fn collect_module_files(&mut self, entries: &Vec<SourceEntry>) -> (has_file: bool)
        ensures
            final(self)@ == (NodeModel {
                children: collect_children(
                    old(self)@.children,
                    entry_models(entries@),
                    entries.len() as int,
                ),
                ..old(self)@
            }),
            has_file == collect_has_file(
                old(self)@.children,
                entry_models(entries@),
                entries.len() as int,
            ),
        decreases entries,
    {
        let ghost start = self@;
        proof {
            lemma_children_models(*self);
        }
        let mut has_file = false;
        let mut i: usize = 0;
        while i < entries.len()
            invariant
                i <= entries.len(),
                models(self.children@) == collect_children(
                    start.children,
                    entry_models(entries@),
                    i as int,
                ),
                has_file == collect_has_file(start.children, entry_models(entries@), i as int),
                self.name@ == start.name,
                self.file_type == start.file_type,
                self.skip == start.skip,
                self.replace == start.replace,
                opt_view(self.backing_path) == start.backing_path,
            decreases entries.len() - i,
        {
            let e = &entries[i];
            let ghost before = models(self.children@);
            proof {
                assert(entry_models(entries@)[i as int] == e@);
                lemma_entry_children_models(*e);
            }
            match find_child(&self.children, &e.name) {
                Some(p) => {
                    let mut node = self.children.remove(p);
                    let ghost node0 = node@;
                    let found = node.take_in(e);
                    self.children.insert(p, node);
                    assert(models(self.children@) =~= before.update(p as int, absorb(node0, e@)));
                    has_file = has_file || found;
                },
                None => {
                    match Node::new_module(e.name.as_str(), e) {
                        Some(fresh) => {
                            let mut node = fresh;
                            let ghost node0 = node@;
                            assert((EntryModel { name: e.name@, ..e@ }) == e@);
                            let found = node.take_in(e);
                            self.children.push(node);
                            assert(models(self.children@) =~= before.push(absorb(node0, e@)));
                            has_file = has_file || found;
                        },
                        None => {
                            assert((EntryModel { name: e.name@, ..e@ }) == e@);
                        },
                    }
                },
            }
            i = i + 1;
        }
        proof {
            lemma_children_models(*self);
        }
        has_file
    }

    /// Takes in one entry that bears this node's name.
    fn take_in(&mut self, e: &SourceEntry) -> (found: bool)
        ensures
            final(self)@ == absorb(old(self)@, e@),
            found == absorb_has_file(old(self)@, e@),
        decreases e,
    {
        proof {
            lemma_entry_children_models(*e);
        }
        if self.file_type == NodeFileType::Directory {
            match e.kind {
                Some(EntryKind::Directory) => {
                    let inner = self.collect_module_files(&e.children);
                    inner || self.replace
                },
                _ => self.replace,
            }
        } else {
            true
        }
    }
}


/// Where a child goes into the order of names: before the first child in
/// the order whose name sorts after its own.
pub open spec fn order_pos(children: Seq<NodeModel>, order: Seq<int>, name: Seq<char>) -> int
    decreases order.len(),
{
    if order.len() == 0 {
        0
    } else {
        let p = order_pos(children, order.drop_last(), name);
        if p < order.len() - 1 {
            p
        } else if 0 <= order.last() < children.len() && lex_lt(
            name,
            children[order.last()].name,
        ) {
            order.len() - 1
        } else {
            order.len() as int
        }
    }
}

/// The positions of the first `k` children, in the order of their names.
pub open spec fn name_order(children: Seq<NodeModel>, k: int) -> Seq<int>
    decreases k,
{
    if k <= 0 || k > children.len() {
        Seq::empty()
    } else {
        let prev = name_order(children, k - 1);
        prev.insert(order_pos(children, prev, children[k - 1].name), k - 1)
    }
}

proof fn lemma_order_pos_prefix(
    children: Seq<NodeModel>,
    order: Seq<int>,
    name: Seq<char>,
    n: int,
)
    requires
        0 <= n <= order.len(),
        order_pos(children, order.subrange(0, n), name) < n,
    ensures
        order_pos(children, order, name) == order_pos(children, order.subrange(0, n), name),
    decreases order.len() - n,
{
    if n < order.len() {
        let next = order.subrange(0, n + 1);
        assert(next.drop_last() =~= order.subrange(0, n));
        lemma_order_pos_prefix(children, order, name, n + 1);
    } else {
        assert(order.subrange(0, n) =~= order);
    }
}

/// The marks of a node, as they are written behind its type.
pub open spec fn flag_text(n: NodeModel) -> Seq<char> {
    if n.replace && n.skip {
        " [REPLACE|SKIP]"@
    } else if n.replace {
        " [REPLACE]"@
    } else if n.skip {
        " [SKIP]"@
    } else {
        ""@
    }
}

/// The line of one node: what leads up to it, its name — a slash for the
/// nameless root — its type, its marks, and where it comes from.
pub open spec fn node_line(
    n: NodeModel,
    prefix: Seq<char>,
    is_last: bool,
    is_root: bool,
) -> Seq<char> {
    prefix + (if is_root {
        ""@
    } else if is_last {
        "\u{2514}\u{2500}\u{2500} "@
    } else {
        "\u{251c}\u{2500}\u{2500} "@
    }) + (if n.name.len() == 0 {
        "/"@
    } else {
        n.name
    }) + " ["@ + (match n.file_type {
        NodeFileType::Directory => "DIR"@,
        NodeFileType::RegularFile => "FILE"@,
        NodeFileType::Symlink => "LINK"@,
        NodeFileType::Whiteout => "WHT"@,
    }) + "]"@ + flag_text(n) + (match n.backing_path {
        Some(p) => " -> "@ + p,
        None => ""@,
    }) + "\n"@
}

/// What leads up to the lines below a node.
pub open spec fn child_prefix(prefix: Seq<char>, is_last: bool, is_root: bool) -> Seq<char> {
    prefix + (if is_root {
        ""@
    } else if is_last {
        "    "@
    } else {
        "\u{2502}   "@
    })
}

/// A tree drawn line by line: a node, then its children in the order of
/// their names, each one led up to by the branches that reach it.
pub open spec fn rendered(n: NodeModel, prefix: Seq<char>, is_last: bool, is_root: bool) -> Seq<
    char,
>
    decreases n, 1int,
{
    node_line(n, prefix, is_last, is_root) + rendered_children(
        n.children,
        name_order(n.children, n.children.len() as int),
        child_prefix(prefix, is_last, is_root),
        n.children.len() as int,
    )
}

/// The first `k` children of the order, drawn one after the other.
pub open spec fn rendered_children(
    children: Seq<NodeModel>,
    order: Seq<int>,
    prefix: Seq<char>,
    k: int,
) -> Seq<char>
    decreases children, k,
{
    if k <= 0 || k > order.len() {
        Seq::empty()
    } else {
        rendered_children(children, order, prefix, k - 1) + (if 0 <= order[k - 1]
            < children.len() {
            rendered(children[order[k - 1]], prefix, k == order.len(), false)
        } else {
            Seq::empty()
        })
    }
}

impl Node {
    /// The positions of the children in the order of their names.
    fn children_by_name(&self) -> (order: Vec<usize>)
        ensures
            order@.map_values(|i: usize| i as int) == name_order(
                self@.children,
                self.children.len() as int,
            ),
            order.len() == self.children.len(),
            forall|j: int| 0 <= j < order.len() ==> order[j] < self.children.len(),
    {
        let ghost kids = self@.children;
        proof {
            lemma_children_models(*self);
        }
        let mut order: Vec<usize> = Vec::new();
        let mut k: usize = 0;
        assert(order@.map_values(|i: usize| i as int) =~= name_order(kids, 0));
        while k < self.children.len()
            invariant
                k <= self.children.len(),
                kids == models(self.children@),
                order.len() == k,
                order@.map_values(|i: usize| i as int) == name_order(kids, k as int),
                forall|j: int| 0 <= j < order.len() ==> order[j] < k,
            decreases self.children.len() - k,
        {
            let ghost before = order@.map_values(|i: usize| i as int);
            let mut p: usize = 0;
            let mut found = false;
            assert(before.subrange(0, 0) =~= Seq::<int>::empty());
            while p < order.len() && !found
                invariant
                    p <= order.len(),
                    k < self.children.len(),
                    kids == models(self.children@),
                    before == order@.map_values(|i: usize| i as int),
                    forall|j: int| 0 <= j < order.len() ==> order[j] < k,
                    order_pos(kids, before.subrange(0, p as int), kids[k as int].name) == p,
                    found ==> p < order.len() && order_pos(kids, before, kids[k as int].name)
                        == p,
                decreases order.len() - p + (if found { 0int } else { 1int }),
            {
                proof {
                    let next = before.subrange(0, p + 1);
                    assert(next.drop_last() =~= before.subrange(0, p as int));
                    assert(next.last() == order[p as int] as int);
                    assert(kids[order[p as int] as int] == self.children[order[p as int] as int]@);
                    assert(kids[k as int] == self.children[k as int]@);
                }
                if str_lt(&self.children[k].name, &self.children[order[p]].name) {
                    found = true;
                    proof {
                        lemma_order_pos_prefix(kids, before, kids[k as int].name, p + 1);
                    }
                } else {
                    p = p + 1;
                }
            }
            proof {
                if !found {
                    assert(before.subrange(0, p as int) =~= before);
                }
            }
            order.insert(p, k);
            assert(order@.map_values(|i: usize| i as int) =~= before.insert(p as int, k as int));
            k = k + 1;
        }
        order
    }

    /// The line that draws this node.
    fn line(&self, prefix: &str, is_last: bool, is_root: bool) -> (r: String)
        ensures
            r@ == node_line(self@, prefix@, is_last, is_root),
    {
        let mut out = owned(prefix);
        out.append(
            if is_root {
                ""
            } else if is_last {
                "\u{2514}\u{2500}\u{2500} "
            } else {
                "\u{251c}\u{2500}\u{2500} "
            },
        );
        if self.name.as_str().is_empty() {
            out.append("/");
        } else {
            out.append(self.name.as_str());
        }
        out.append(" [");
        out.append(self.file_type.label().as_str());
        out.append("]");
        let mut tail = owned(
            if self.replace && self.skip {
                " [REPLACE|SKIP]"
            } else if self.replace {
                " [REPLACE]"
            } else if self.skip {
                " [SKIP]"
            } else {
                ""
            },
        );
        assert(tail@ == flag_text(self@));
        match &self.backing_path {
            Some(p) => {
                let mut from = owned(" -> ");
                from.append(p.as_str());
                tail.append(from.as_str());
            },
            None => {
                tail.append("");
            },
        }
        tail.append("\n");
        out.append(tail.as_str());
        assert(out@ =~= node_line(self@, prefix@, is_last, is_root));
        out
    }

    /// Draws the tree below this node into `out`.
    fn render_into(&self, out: &mut String, prefix: &str, is_last: bool, is_root: bool)
        ensures
            final(out)@ == old(out)@ + rendered(self@, prefix@, is_last, is_root),
        decreases self,
    {
        let ghost start = out@;
        proof {
            lemma_children_models(*self);
        }
        let text = self.line(prefix, is_last, is_root);
        out.append(text.as_str());
        let mut below = owned(prefix);
        below.append(
            if is_root {
                ""
            } else if is_last {
                "    "
            } else {
                "\u{2502}   "
            },
        );
        let order = self.children_by_name();
        let ghost kids = self@.children;
        let ghost ord = name_order(kids, kids.len() as int);
        let ghost line = node_line(self@, prefix@, is_last, is_root);
        let mut i: usize = 0;
        assert(out@ =~= start + line + rendered_children(kids, ord, below@, 0));
        while i < order.len()
            invariant
                i <= order.len(),
                order.len() == self.children.len(),
                kids == models(self.children@),
                ord == order@.map_values(|j: usize| j as int),
                forall|j: int| 0 <= j < order.len() ==> order[j] < self.children.len(),
                out@ == start + line + rendered_children(kids, ord, below@, i as int),
            decreases order.len() - i,
        {
            let child = &self.children[order[i]];
            proof {
                assert(ord[i as int] == order[i as int] as int);
                assert(kids[order[i as int] as int] == child@);
            }
            child.render_into(out, below.as_str(), i + 1 == order.len(), false);
            assert(out@ =~= start + line + rendered_children(kids, ord, below@, i + 1));
            i = i + 1;
        }
    }

    /// The tree drawn as text, one node per line, children in the order of
    /// their names.
    pub fn render(&self) -> (r: String)
        ensures
            r@ == rendered(self@, Seq::empty(), true, true),
    {
        let mut out = String::new();
        proof {
            reveal_strlit("");
            assert(""@ =~= Seq::<char>::empty());
        }
        self.render_into(&mut out, "", true, true);
        assert(out@ =~= rendered(self@, Seq::empty(), true, true));
        out
    }
}

} // verus!
