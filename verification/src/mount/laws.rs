//! What holds of merged trees, whatever the modules.

use crate::mount::node::{
    absorb, child_pos, collect_children, lemma_child_pos, merge_children, merge_node,
    node_of_entry, unique_names, well_formed, EntryKind, EntryModel, NodeFileType, NodeModel,
};
use crate::mount::magic::{
    attach, attach_if_present, creates_tmpfs, demands, directory_steps, leaf_action, live_pass,
    merged_trees, module_trees, place_child, projected_root, relocate, rest_steps, root_model,
    root_tree, settled_children, system_tree, trigger_pos, ExclusionModel, LiveModel,
    LivePartitionModel, NodeActionModel, SnapshotModel, StepModel,
};
use vstd::prelude::*;

verus! {

/// The child called `name`, where there is one.
pub open spec fn child_named(children: Seq<NodeModel>, name: Seq<char>) -> Option<NodeModel> {
    let p = child_pos(children, name);
    if 0 <= p < children.len() {
        Some(children[p])
    } else {
        None
    }
}

/// The node reached from `n` by the names of `path`, where there is one.
pub open spec fn lookup(n: NodeModel, path: Seq<Seq<char>>) -> Option<NodeModel>
    decreases path.len(),
{
    if path.len() == 0 {
        Some(n)
    } else {
        match child_named(n.children, path[0]) {
            Some(c) => lookup(c, path.drop_first()),
            None => None,
        }
    }
}

/// What a node is, its children aside.
pub ghost struct NodeFacts {
    pub name: Seq<char>,
    pub file_type: NodeFileType,
    pub backing_path: Option<Seq<char>>,
    pub replace: bool,
    pub skip: bool,
}

pub open spec fn facts(n: NodeModel) -> NodeFacts {
    NodeFacts {
        name: n.name,
        file_type: n.file_type,
        backing_path: n.backing_path,
        replace: n.replace,
        skip: n.skip,
    }
}

pub open spec fn facts_at(n: NodeModel, path: Seq<Seq<char>>) -> Option<NodeFacts> {
    match lookup(n, path) {
        Some(m) => Some(facts(m)),
        None => None,
    }
}

/// Two trees are the same tree when every path leads to the same kind of
/// node in both, or to none in both. The order of children does not count.
pub open spec fn same_tree(a: NodeModel, b: NodeModel) -> bool {
    forall|path: Seq<Seq<char>>| #[trigger] facts_at(a, path) == facts_at(b, path)
}

/// No path is claimed by both trees: wherever both have a node, both nodes
/// are directories, at most one of them has a source, and they agree on
/// what a directory without a source carries.
pub open spec fn overlap_free(a: NodeModel, b: NodeModel) -> bool
    decreases a,
{
    &&& a.name == b.name
    &&& a.file_type == NodeFileType::Directory
    &&& b.file_type == NodeFileType::Directory
    &&& !(a.backing_path is Some && b.backing_path is Some)
    &&& a.skip == b.skip
    &&& (a.backing_path is None && b.backing_path is None ==> a.replace == b.replace)
    &&& forall|i: int, j: int|
        0 <= i < a.children.len() && 0 <= j < b.children.len() && (#[trigger] a.children[i]).name
            == (#[trigger] b.children[j]).name ==> overlap_free(a.children[i], b.children[j])
}

/// How the children of the two sides combine under a name.
pub open spec fn combined(high: Option<NodeModel>, low: Option<NodeModel>) -> Option<NodeModel> {
    match (high, low) {
        (Some(x), Some(y)) => Some(merge_node(x, y)),
        (Some(x), None) => Some(x),
        (None, Some(y)) => Some(y),
        (None, None) => None,
    }
}

/// With distinct names, a child is found under its own name.
pub proof fn lemma_unique_pos(children: Seq<NodeModel>, i: int)
    requires
        unique_names(children),
        0 <= i < children.len(),
    ensures
        child_pos(children, children[i].name) == i,
        child_named(children, children[i].name) == Some(children[i]),
{
    lemma_child_pos(children, children[i].name);
    let p = child_pos(children, children[i].name);
    if p < i {
        assert(children[p].name != children[i].name);
    }
}

/// Merging keeps the name, and the type, of the winning side.
pub proof fn lemma_merge_keeps(high: NodeModel, low: NodeModel)
    ensures
        merge_node(high, low).name == high.name,
        merge_node(high, low).file_type == high.file_type,
        merge_node(high, low).skip == high.skip,
        high.backing_path is Some ==> merge_node(high, low).backing_path == high.backing_path
            && merge_node(high, low).replace == high.replace,
        high.file_type != NodeFileType::Directory ==> merge_node(high, low) == high,
{
}

/// What the children are after `k` children of the other side came in:
/// their names stay distinct, and under each name stands the combination
/// of what the two sides have under it.
pub proof fn lemma_merge_children(
    children: Seq<NodeModel>,
    lows: Seq<NodeModel>,
    k: int,
    name: Seq<char>,
)
    requires
        unique_names(children),
        unique_names(lows),
        0 <= k <= lows.len(),
    ensures
        unique_names(merge_children(children, lows, k)),
        child_named(merge_children(children, lows, k), name) == combined(
            child_named(children, name),
            child_named(lows.subrange(0, k), name),
        ),
    decreases k,
{
    if k <= 0 {
        assert(lows.subrange(0, 0) =~= Seq::<NodeModel>::empty());
    } else {
        let prev = merge_children(children, lows, k - 1);
        let l = lows[k - 1];
        let before = lows.subrange(0, k - 1);
        let upto = lows.subrange(0, k);
        assert(upto.drop_last() =~= before);
        assert(upto.last() == l);
        lemma_merge_children(children, lows, k - 1, name);
        lemma_merge_children(children, lows, k - 1, l.name);
        lemma_child_pos(prev, l.name);
        lemma_child_pos(prev, name);
        lemma_child_pos(before, l.name);
        lemma_child_pos(before, name);
        lemma_child_pos(upto, name);
        // the incoming child's name is new among those that came before it
        assert(child_named(before, l.name) is None) by {
            if child_named(before, l.name) is Some {
                let q = child_pos(before, l.name);
                assert(before[q] == lows[q]);
                assert(lows[q].name != lows[k - 1].name);
            }
        }
        let p = child_pos(prev, l.name);
        let cur = merge_children(children, lows, k);
        if 0 <= p < prev.len() {
            let merged = merge_node(prev[p], l);
            lemma_merge_keeps(prev[p], l);
            assert(cur == prev.update(p, merged));
            assert forall|i: int, j: int| 0 <= i < j < cur.len() implies (#[trigger] cur[i]).name
                != (#[trigger] cur[j]).name by {
                assert(cur[i].name == prev[i].name);
                assert(cur[j].name == prev[j].name);
            }
            lemma_child_pos(cur, name);
            lemma_same_names_same_pos(prev, cur, name);
            if name == l.name {
                assert(child_named(cur, name) == Some(merged));
                assert(child_named(upto, name) == Some(l));
            } else {
                assert(child_pos(cur, name) != p);
            }
        } else {
            assert(cur == prev.push(l));
            assert forall|i: int, j: int| 0 <= i < j < cur.len() implies (#[trigger] cur[i]).name
                != (#[trigger] cur[j]).name by {
                if j < prev.len() {
                    assert(prev[i].name != prev[j].name);
                } else {
                    assert(prev[i].name != l.name);
                }
            }
            assert(cur.drop_last() =~= prev);
            lemma_child_pos(cur, name);
            if name == l.name {
                assert(child_named(cur, name) == Some(l));
                assert(child_named(children, name) is None);
            }
        }
    }
}

/// Two lists with the same names, place by place, find a name at the same
/// place.
pub proof fn lemma_same_names_same_pos(a: Seq<NodeModel>, b: Seq<NodeModel>, name: Seq<char>)
    requires
        a.len() == b.len(),
        forall|i: int| 0 <= i < a.len() ==> (#[trigger] a[i]).name == b[i].name,
    ensures
        child_pos(a, name) == child_pos(b, name),
    decreases a.len(),
{
    if a.len() > 0 {
        assert(a.last().name == b.last().name) by {
            assert(a[a.len() - 1].name == b[a.len() - 1].name);
        }
        assert forall|i: int| 0 <= i < a.drop_last().len() implies (#[trigger] a.drop_last()[i]).name
            == b.drop_last()[i].name by {
            assert(a[i].name == b[i].name);
        }
        lemma_same_names_same_pos(a.drop_last(), b.drop_last(), name);
    }
}

/// Under each name, a merged directory holds the combination of what its
/// two sides hold under it.
pub proof fn lemma_merged_child(high: NodeModel, low: NodeModel, name: Seq<char>)
    requires
        well_formed(high),
        well_formed(low),
        high.file_type == NodeFileType::Directory,
        low.file_type == NodeFileType::Directory,
    ensures
        child_named(merge_node(high, low).children, name) == combined(
            child_named(high.children, name),
            child_named(low.children, name),
        ),
{
    lemma_merge_children(high.children, low.children, low.children.len() as int, name);
    assert(low.children.subrange(0, low.children.len() as int) =~= low.children);
}

/// Where no path is claimed by both trees, it does not matter which of
/// the two is merged into the other: every path leads to the same node.
pub proof fn lemma_merge_commutes_at(a: NodeModel, b: NodeModel, path: Seq<Seq<char>>)
    requires
        well_formed(a),
        well_formed(b),
        overlap_free(a, b),
    ensures
        facts_at(merge_node(a, b), path) == facts_at(merge_node(b, a), path),
    decreases path.len(),
{
    let ab = merge_node(a, b);
    let ba = merge_node(b, a);
    if path.len() > 0 {
        let name = path[0];
        let rest = path.drop_first();
        lemma_merged_child(a, b, name);
        lemma_merged_child(b, a, name);
        lemma_child_pos(a.children, name);
        lemma_child_pos(b.children, name);
        match (child_named(a.children, name), child_named(b.children, name)) {
            (Some(x), Some(y)) => {
                let i = child_pos(a.children, name);
                let j = child_pos(b.children, name);
                assert(a.children[i].name == b.children[j].name);
                assert(overlap_free(x, y));
                lemma_overlap_free_symmetric(x, y);
                lemma_merge_commutes_at(x, y, rest);
            },
            _ => {},
        }
    }
}

/// `overlap_free` does not depend on the order of its arguments.
pub proof fn lemma_overlap_free_symmetric(a: NodeModel, b: NodeModel)
    requires
        overlap_free(a, b),
    ensures
        overlap_free(b, a),
    decreases a,
{
    assert forall|j: int, i: int|
        0 <= j < b.children.len() && 0 <= i < a.children.len() && (#[trigger] b.children[j]).name
            == (#[trigger] a.children[i]).name implies overlap_free(
        b.children[j],
        a.children[i],
    ) by {
        assert(overlap_free(a.children[i], b.children[j]));
        lemma_overlap_free_symmetric(a.children[i], b.children[j]);
    }
}

/// Merging two modules' trees gives the same tree in either order, where
/// no path is claimed by both.
pub proof fn lemma_merge_commutes(a: NodeModel, b: NodeModel)
    requires
        well_formed(a),
        well_formed(b),
        overlap_free(a, b),
    ensures
        same_tree(merge_node(a, b), merge_node(b, a)),
{
    assert forall|path: Seq<Seq<char>>| #[trigger]
        facts_at(merge_node(a, b), path) == facts_at(merge_node(b, a), path) by {
        lemma_merge_commutes_at(a, b, path);
    }
}

/// Where the trees overlap, the first one wins: every node of the first
/// tree is still there after the merge, under its path, with its type; it
/// keeps its source and its replace flag where it has a source; and what
/// is no directory is kept entirely, the second tree adding nothing to it.
pub proof fn lemma_first_wins(a: NodeModel, b: NodeModel, path: Seq<Seq<char>>)
    requires
        well_formed(a),
        well_formed(b),
        lookup(a, path) is Some,
    ensures
        lookup(merge_node(a, b), path) is Some,
        ({
            let x = lookup(a, path)->0;
            let m = lookup(merge_node(a, b), path)->0;
            &&& m.name == x.name
            &&& m.file_type == x.file_type
            &&& m.skip == x.skip
            &&& x.backing_path is Some ==> m.backing_path == x.backing_path && m.replace
                == x.replace
            &&& x.file_type != NodeFileType::Directory ==> m == x
        }),
    decreases path.len(),
{
    lemma_merge_keeps(a, b);
    if path.len() > 0 {
        if a.file_type == NodeFileType::Directory && b.file_type == NodeFileType::Directory {
            let name = path[0];
            let rest = path.drop_first();
            lemma_merged_child(a, b, name);
            lemma_child_pos(a.children, name);
            lemma_child_pos(b.children, name);
            let x = child_named(a.children, name)->0;
            match child_named(b.children, name) {
                Some(y) => {
                    lemma_first_wins(x, y, rest);
                },
                None => {},
            }
        }
    }
}


/// Every child in the list is well formed.
pub open spec fn all_well_formed(children: Seq<NodeModel>) -> bool {
    forall|i: int| 0 <= i < children.len() ==> well_formed(#[trigger] children[i])
}

/// Merging well-formed trees gives a well-formed tree.
pub proof fn lemma_merge_well_formed(high: NodeModel, low: NodeModel)
    requires
        well_formed(high),
        well_formed(low),
    ensures
        well_formed(merge_node(high, low)),
    decreases low, 1int,
{
    if high.file_type == NodeFileType::Directory && low.file_type == NodeFileType::Directory {
        lemma_merge_children_well_formed(high.children, low.children, low.children.len() as int);
    }
}

pub proof fn lemma_merge_children_well_formed(
    children: Seq<NodeModel>,
    lows: Seq<NodeModel>,
    k: int,
)
    requires
        unique_names(children),
        unique_names(lows),
        all_well_formed(children),
        all_well_formed(lows),
        0 <= k <= lows.len(),
    ensures
        unique_names(merge_children(children, lows, k)),
        all_well_formed(merge_children(children, lows, k)),
    decreases lows, k,
{
    lemma_merge_children(children, lows, k, Seq::empty());
    if k > 0 {
        lemma_merge_children_well_formed(children, lows, k - 1);
        let prev = merge_children(children, lows, k - 1);
        let l = lows[k - 1];
        let p = child_pos(prev, l.name);
        let cur = merge_children(children, lows, k);
        lemma_child_pos(prev, l.name);
        if 0 <= p < prev.len() {
            lemma_merge_well_formed(prev[p], l);
            assert forall|i: int| 0 <= i < cur.len() implies well_formed(#[trigger] cur[i]) by {
                if i != p {
                    assert(cur[i] == prev[i]);
                }
            }
        } else {
            assert forall|i: int| 0 <= i < cur.len() implies well_formed(#[trigger] cur[i]) by {
                if i < prev.len() {
                    assert(cur[i] == prev[i]);
                }
            }
        }
    }
}

/// Taking a directory entry in leaves a well-formed node well formed.
pub proof fn lemma_absorb_well_formed(n: NodeModel, e: EntryModel)
    requires
        well_formed(n),
    ensures
        well_formed(absorb(n, e)),
        absorb(n, e).name == n.name,
    decreases e, 1int,
{
    if n.file_type == NodeFileType::Directory && e.kind == Some(EntryKind::Directory) {
        lemma_collect_well_formed(n.children, e.children, e.children.len() as int);
    }
}

/// Collecting entries leaves the children well formed, with distinct
/// names, whatever the entries are.
pub proof fn lemma_collect_well_formed(children: Seq<NodeModel>, entries: Seq<EntryModel>, k: int)
    requires
        unique_names(children),
        all_well_formed(children),
        0 <= k <= entries.len(),
    ensures
        unique_names(collect_children(children, entries, k)),
        all_well_formed(collect_children(children, entries, k)),
    decreases entries, k,
{
    if k > 0 {
        lemma_collect_well_formed(children, entries, k - 1);
        let prev = collect_children(children, entries, k - 1);
        let e = entries[k - 1];
        let p = child_pos(prev, e.name);
        let cur = collect_children(children, entries, k);
        lemma_child_pos(prev, e.name);
        if 0 <= p < prev.len() {
            lemma_absorb_well_formed(prev[p], e);
            assert forall|i: int| 0 <= i < cur.len() implies well_formed(#[trigger] cur[i]) by {
                if i != p {
                    assert(cur[i] == prev[i]);
                }
            }
            assert forall|i: int, j: int| 0 <= i < j < cur.len() implies (#[trigger] cur[i]).name
                != (#[trigger] cur[j]).name by {
                assert(cur[i].name == prev[i].name);
                assert(cur[j].name == prev[j].name);
            }
        } else {
            match node_of_entry(e) {
                Some(n) => {
                    lemma_absorb_well_formed(n, e);
                    assert forall|i: int| 0 <= i < cur.len() implies well_formed(
                        #[trigger] cur[i],
                    ) by {
                        if i < prev.len() {
                            assert(cur[i] == prev[i]);
                        }
                    }
                    assert forall|i: int, j: int| 0 <= i < j < cur.len() implies (
                    #[trigger] cur[i]).name != (#[trigger] cur[j]).name by {
                        if j < prev.len() {
                            assert(prev[i].name != prev[j].name);
                        } else {
                            assert(prev[i].name != e.name);
                        }
                    }
                },
                None => {},
            }
        }
    }
}

/// A character device numbered 0 in a module becomes a whiteout, and a
/// whiteout has a source and no children.
pub proof fn lemma_whiteout_of_entry(e: EntryModel)
    requires
        e.kind == Some(EntryKind::CharDevice { rdev: 0 }),
    ensures
        node_of_entry(e) matches Some(n) && n.file_type == NodeFileType::Whiteout && n.name
            == e.name && n.backing_path == Some(e.path) && n.children.len() == 0,
{
}

/// A whiteout that a module brings to a directory which has no child of
/// that name yet stands in the directory afterwards, as a whiteout.
pub proof fn lemma_whiteout_collected(
    children: Seq<NodeModel>,
    entries: Seq<EntryModel>,
    k: int,
    i: int,
)
    requires
        unique_names(children),
        0 <= i < k <= entries.len(),
        entries[i].kind == Some(EntryKind::CharDevice { rdev: 0 }),
        child_named(children, entries[i].name) is None,
        forall|j: int| 0 <= j < i ==> (#[trigger] entries[j]).name != entries[i].name,
    ensures
        child_named(collect_children(children, entries, k), entries[i].name) matches Some(n)
            && n.file_type == NodeFileType::Whiteout && n.backing_path == Some(entries[i].path),
    decreases k,
{
    let name = entries[i].name;
    let prev = collect_children(children, entries, k - 1);
    let cur = collect_children(children, entries, k);
    let e = entries[k - 1];
    let p = child_pos(prev, e.name);
    lemma_child_pos(prev, e.name);
    lemma_child_pos(prev, name);
    lemma_child_pos(cur, name);
    if k - 1 == i {
        lemma_absent_before(children, entries, i, name);
        lemma_whiteout_of_entry(e);
        let n = node_of_entry(e)->0;
        assert(absorb(n, e) == n);
        assert(cur == prev.push(n));
        assert(cur.drop_last() =~= prev);
    } else {
        lemma_whiteout_collected(children, entries, k - 1, i);
        let q = child_pos(prev, name);
        if 0 <= p < prev.len() {
            lemma_absorb_well_formed_name(prev[p], e);
            assert(cur == prev.update(p, absorb(prev[p], e)));
            lemma_same_names_same_pos(prev, cur, name);
            if p == q {
                assert(absorb(prev[p], e) == prev[p]);
            }
        } else {
            match node_of_entry(e) {
                Some(n) => {
                    assert(cur.drop_last() =~= prev);
                },
                None => {},
            }
        }
    }
}

/// Taking an entry in never renames a node.
pub proof fn lemma_absorb_well_formed_name(n: NodeModel, e: EntryModel)
    ensures
        absorb(n, e).name == n.name,
        n.file_type != NodeFileType::Directory ==> absorb(n, e) == n,
{
}

/// A name that neither the children nor the first `k` entries bear is
/// borne by no child after those entries were collected.
pub proof fn lemma_absent_before(
    children: Seq<NodeModel>,
    entries: Seq<EntryModel>,
    k: int,
    name: Seq<char>,
)
    requires
        0 <= k <= entries.len(),
        child_named(children, name) is None,
        forall|j: int| 0 <= j < k ==> (#[trigger] entries[j]).name != name,
    ensures
        child_named(collect_children(children, entries, k), name) is None,
    decreases k,
{
    if k > 0 {
        lemma_absent_before(children, entries, k - 1, name);
        let prev = collect_children(children, entries, k - 1);
        let cur = collect_children(children, entries, k);
        let e = entries[k - 1];
        let p = child_pos(prev, e.name);
        lemma_child_pos(prev, e.name);
        lemma_child_pos(prev, name);
        lemma_child_pos(cur, name);
        if 0 <= p < prev.len() {
            lemma_absorb_well_formed_name(prev[p], e);
            assert(cur == prev.update(p, absorb(prev[p], e)));
            lemma_same_names_same_pos(prev, cur, name);
        } else {
            match node_of_entry(e) {
                Some(n) => {
                    lemma_absorb_well_formed_name(n, e);
                    assert(cur.drop_last() =~= prev);
                },
                None => {},
            }
        }
    }
}


/// Taking a child out of a list with distinct names takes exactly its name
/// out.
pub proof fn lemma_remove_child(children: Seq<NodeModel>, p: int, name: Seq<char>)
    requires
        unique_names(children),
        0 <= p < children.len(),
    ensures
        unique_names(children.remove(p)),
        child_named(children.remove(p), name) == (if name == children[p].name {
            None
        } else {
            child_named(children, name)
        }),
{
    let rest = children.remove(p);
    assert forall|i: int, j: int| 0 <= i < j < rest.len() implies (#[trigger] rest[i]).name != (
    #[trigger] rest[j]).name by {
        let a = if i < p {
            i
        } else {
            i + 1
        };
        let b = if j < p {
            j
        } else {
            j + 1
        };
        assert(children[a].name != children[b].name);
    }
    lemma_child_pos(rest, name);
    lemma_child_pos(children, name);
    if child_named(rest, name) is Some {
        let q = child_pos(rest, name);
        let a = if q < p {
            q
        } else {
            q + 1
        };
        assert(children[a] == rest[q]);
        lemma_unique_pos(children, a);
        if a < p {
            assert(children[a].name != children[p].name);
        } else {
            assert(children[p].name != children[a].name);
        }
    } else if name != children[p].name && child_named(children, name) is Some {
        let a = child_pos(children, name);
        let q = if a < p {
            a
        } else {
            a - 1
        };
        assert(rest[q] == children[a]);
        assert(rest[q].name == name);
    }
}

/// The names of the live entries are distinct.
pub open spec fn distinct_live_names(live: Seq<LiveModel>) -> bool {
    forall|i: int, j: int|
        0 <= i < j < live.len() ==> (#[trigger] live[i]).name != (#[trigger] live[j]).name
}

/// Whether one of the first `k` live entries bears the name.
pub open spec fn listed_before(live: Seq<LiveModel>, k: int, name: Seq<char>) -> bool {
    exists|i: int| 0 <= i < k && i < live.len() && (#[trigger] live[i]).name == name
}

/// While the live entries are walked, a child is still waiting exactly
/// when no live entry had its name so far, and no live entry is mirrored
/// under a name that a child bears.
pub proof fn lemma_live_pass(
    children: Seq<NodeModel>,
    live: Seq<LiveModel>,
    k: int,
    mirror: bool,
    name: Seq<char>,
)
    requires
        unique_names(children),
        distinct_live_names(live),
        0 <= k <= live.len(),
    ensures
        unique_names(live_pass(children, live, k, mirror).1),
        child_named(live_pass(children, live, k, mirror).1, name) == (if listed_before(
            live,
            k,
            name,
        ) {
            None
        } else {
            child_named(children, name)
        }),
        child_named(children, name) is Some ==> !live_pass(children, live, k, mirror).0.contains(
            StepModel::Mirror(name),
        ),
    decreases k,
{
    if k > 0 {
        let (steps, rest) = live_pass(children, live, k - 1, mirror);
        let e = live[k - 1];
        lemma_live_pass(children, live, k - 1, mirror, name);
        lemma_live_pass(children, live, k - 1, mirror, e.name);
        let p = child_pos(rest, e.name);
        lemma_child_pos(rest, e.name);
        let cur = live_pass(children, live, k, mirror);
        assert(!listed_before(live, k - 1, e.name)) by {
            if listed_before(live, k - 1, e.name) {
                let i = choose|i: int|
                    0 <= i < k - 1 && i < live.len() && (#[trigger] live[i]).name == e.name;
                assert(live[i].name != live[k - 1].name);
            }
        }
        assert(listed_before(live, k, name) <==> (listed_before(live, k - 1, name) || name
            == e.name)) by {
            if listed_before(live, k, name) {
                let i = choose|i: int|
                    0 <= i < k && i < live.len() && (#[trigger] live[i]).name == name;
                if i < k - 1 {
                    assert(listed_before(live, k - 1, name));
                }
            }
            if listed_before(live, k - 1, name) {
                let i = choose|i: int|
                    0 <= i < k - 1 && i < live.len() && (#[trigger] live[i]).name == name;
                assert(0 <= i < k && live[i].name == name);
            }
            if name == e.name {
                assert(live[k - 1].name == name);
            }
        }
        if 0 <= p < rest.len() {
            lemma_remove_child(rest, p, name);
            if child_named(children, name) is Some {
                if cur.0.contains(StepModel::Mirror(name)) {
                    let i = choose|i: int| 0 <= i < cur.0.len() && cur.0[i] == StepModel::Mirror(
                        name,
                    );
                    if i < steps.len() {
                        assert(steps[i] == StepModel::Mirror(name));
                    }
                }
            }
        } else {
            if child_named(children, name) is Some {
                if cur.0.contains(StepModel::Mirror(name)) {
                    let i = choose|i: int| 0 <= i < cur.0.len() && cur.0[i] == StepModel::Mirror(
                        name,
                    );
                    if i < steps.len() {
                        assert(steps[i] == StepModel::Mirror(name));
                    } else {
                        assert(name == e.name);
                    }
                }
            }
        }
    } else {
        assert(!listed_before(live, 0, name));
    }
}

/// The steps for the remaining children mirror nothing.
pub proof fn lemma_rest_steps(children: Seq<NodeModel>, name: Seq<char>)
    ensures
        !rest_steps(children).contains(StepModel::Mirror(name)),
    decreases children.len(),
{
    if children.len() > 0 {
        lemma_rest_steps(children.drop_last(), name);
        let prev = rest_steps(children.drop_last());
        let cur = rest_steps(children);
        if cur.contains(StepModel::Mirror(name)) {
            let i = choose|i: int| 0 <= i < cur.len() && cur[i] == StepModel::Mirror(name);
            if i < prev.len() {
                assert(prev[i] == StepModel::Mirror(name));
            }
        }
    }
}

/// Setting children aside changes no name.
pub proof fn lemma_settled_names(n: NodeModel, has_tmpfs: bool, live: Seq<LiveModel>, name: Seq<char>)
    requires
        unique_names(n.children),
    ensures
        unique_names(settled_children(n, has_tmpfs, live)),
        child_named(settled_children(n, has_tmpfs, live), name) is Some <==> child_named(
            n.children,
            name,
        ) is Some,
{
    let kids = settled_children(n, has_tmpfs, live);
    assert(kids.len() == n.children.len());
    assert forall|i: int| 0 <= i < kids.len() implies (#[trigger] kids[i]).name == n.children[i].name by {}
    assert forall|i: int, j: int| 0 <= i < j < kids.len() implies (#[trigger] kids[i]).name != (
    #[trigger] kids[j]).name by {
        assert(n.children[i].name != n.children[j].name);
    }
    lemma_same_names_same_pos(kids, n.children, name);
}

/// A name that a child of the directory bears is never carried over from
/// the live directory. So where a module puts a whiteout, nothing is made
/// under that name in the rebuilt directory: the name is absent there.
pub proof fn lemma_owned_names_not_mirrored(
    n: NodeModel,
    has_tmpfs: bool,
    path_exists: bool,
    live: Seq<LiveModel>,
    name: Seq<char>,
)
    requires
        unique_names(n.children),
        distinct_live_names(live),
        child_named(n.children, name) is Some,
    ensures
        !directory_steps(n, has_tmpfs, path_exists, live).contains(StepModel::Mirror(name)),
{
    let kids = settled_children(n, has_tmpfs, live);
    let inside = has_tmpfs || creates_tmpfs(n, has_tmpfs, live);
    lemma_settled_names(n, has_tmpfs, live, name);
    let all = directory_steps(n, has_tmpfs, path_exists, live);
    if path_exists && !n.replace {
        let (steps, rest) = live_pass(kids, live, live.len() as int, inside);
        lemma_live_pass(kids, live, live.len() as int, inside, name);
        lemma_rest_steps(rest, name);
        if all.contains(StepModel::Mirror(name)) {
            let i = choose|i: int| 0 <= i < all.len() && all[i] == StepModel::Mirror(name);
            if i < steps.len() {
                assert(steps[i] == StepModel::Mirror(name));
            } else {
                assert(rest_steps(rest)[i - steps.len()] == StepModel::Mirror(name));
            }
        }
    } else {
        lemma_rest_steps(kids, name);
    }
}

/// A whiteout asks for nothing to be made.
pub proof fn lemma_whiteout_makes_nothing(
    n: NodeModel,
    path: Seq<char>,
    work_dir_path: Seq<char>,
    has_tmpfs: bool,
)
    requires
        n.file_type == NodeFileType::Whiteout,
    ensures
        leaf_action(n, path, work_dir_path, has_tmpfs) == Ok::<NodeActionModel, Seq<char>>(
            NodeActionModel::Removed,
        ),
{
}

/// A child that demands a tmpfs and has a source gets one made, outside of
/// any other: so a whiteout over a live path is never just passed by.
pub proof fn lemma_demand_is_met(n: NodeModel, live: Seq<LiveModel>, i: int)
    requires
        0 <= i < n.children.len(),
        demands(n.children[i], live),
        n.children[i].backing_path is Some,
    ensures
        creates_tmpfs(n, false, live),
{
    lemma_trigger_pos(n.children, live, i);
}

proof fn lemma_trigger_pos(children: Seq<NodeModel>, live: Seq<LiveModel>, i: int)
    requires
        0 <= i < children.len(),
        demands(children[i], live),
        children[i].backing_path is Some,
    ensures
        trigger_pos(children, live) <= i,
    decreases children.len(),
{
    if i < children.len() - 1 {
        assert(children.drop_last()[i] == children[i]);
        lemma_trigger_pos(children.drop_last(), live, i);
    } else {
        lemma_trigger_pos_bound(children.drop_last(), live);
    }
}

proof fn lemma_trigger_pos_bound(children: Seq<NodeModel>, live: Seq<LiveModel>)
    ensures
        0 <= trigger_pos(children, live) <= children.len(),
    decreases children.len(),
{
    if children.len() > 0 {
        lemma_trigger_pos_bound(children.drop_last(), live);
    }
}


/// A well-formed directory.
pub open spec fn sound_directory(n: NodeModel) -> bool {
    well_formed(n) && n.file_type == NodeFileType::Directory
}

/// Bringing a partition in below a well-formed directory leaves it a
/// well-formed directory.
pub proof fn lemma_attach_well_formed(parent: NodeModel, name: Seq<char>, entries: Seq<EntryModel>)
    requires
        sound_directory(parent),
    ensures
        sound_directory(attach(parent, name, entries)),
        attach(parent, name, entries).name == parent.name,
{
    let p = child_pos(parent.children, name);
    lemma_child_pos(parent.children, name);
    let found = if 0 <= p < parent.children.len() {
        parent.children[p]
    } else {
        root_model(name)
    };
    assert(well_formed(found));
    let ready = if found.file_type == NodeFileType::Symlink {
        NodeModel { file_type: NodeFileType::Directory, backing_path: None, ..found }
    } else {
        found
    };
    assert(well_formed(ready));
    if ready.file_type == NodeFileType::Directory {
        lemma_collect_well_formed(ready.children, entries, entries.len() as int);
    }
    let after = attach(parent, name, entries);
    let filled = if 0 <= p < parent.children.len() {
        after.children[p]
    } else {
        after.children[parent.children.len() as int]
    };
    assert(well_formed(filled));
    assert(filled.name == name);
    assert forall|i: int| 0 <= i < after.children.len() implies well_formed(
        #[trigger] after.children[i],
    ) by {
        if 0 <= p < parent.children.len() {
            if i != p {
                assert(after.children[i] == parent.children[i]);
            }
        } else if i < parent.children.len() {
            assert(after.children[i] == parent.children[i]);
        }
    }
    assert forall|i: int, j: int| 0 <= i < j < after.children.len() implies (
    #[trigger] after.children[i]).name != (#[trigger] after.children[j]).name by {
        if 0 <= p < parent.children.len() {
            assert(after.children[i].name == parent.children[i].name);
            assert(after.children[j].name == parent.children[j].name);
        } else if j < parent.children.len() {
            assert(parent.children[i].name != parent.children[j].name);
        } else {
            assert(parent.children[i].name != name);
        }
    }
}

/// The two trees of a module are well-formed directories, whatever the
/// module holds.
pub proof fn lemma_module_trees_well_formed(
    m: SnapshotModel,
    extra: Seq<Seq<char>>,
    exclusion_list: Option<Seq<Seq<char>>>,
    live: Seq<LivePartitionModel>,
)
    ensures
        sound_directory(module_trees(m, extra, exclusion_list, live).0),
        sound_directory(module_trees(m, extra, exclusion_list, live).1),
{
    lemma_root_tree_well_formed(m, extra, exclusion_list, live, extra.len() as int);
    lemma_system_tree_well_formed(m, exclusion_list);
}

proof fn lemma_attach_if_present(
    parent: NodeModel,
    m: SnapshotModel,
    exclusion_list: Option<Seq<Seq<char>>>,
    part: Seq<char>,
)
    requires
        sound_directory(parent),
    ensures
        sound_directory(attach_if_present(parent, m, exclusion_list, part)),
{
    match crate::mount::magic::partition_entries(m, part) {
        Some(entries) => {
            lemma_attach_well_formed(parent, part, entries);
        },
        None => {},
    }
}

proof fn lemma_system_tree_well_formed(m: SnapshotModel, exclusion_list: Option<Seq<Seq<char>>>)
    ensures
        sound_directory(system_tree(m, exclusion_list)),
{
    let base = match crate::mount::magic::partition_entries(m, "system"@) {
        Some(entries) => if crate::mount::magic::excluded(exclusion_list, "system"@) {
            root_model("system"@)
        } else {
            NodeModel {
                children: collect_children(Seq::empty(), entries, entries.len() as int),
                ..root_model("system"@)
            }
        },
        None => root_model("system"@),
    };
    match crate::mount::magic::partition_entries(m, "system"@) {
        Some(entries) => {
            lemma_collect_well_formed(Seq::empty(), entries, entries.len() as int);
        },
        None => {},
    }
    assert(sound_directory(base));
    lemma_attach_if_present(base, m, exclusion_list, "vendor"@);
    let a = attach_if_present(base, m, exclusion_list, "vendor"@);
    lemma_attach_if_present(a, m, exclusion_list, "system_ext"@);
    let b = attach_if_present(a, m, exclusion_list, "system_ext"@);
    lemma_attach_if_present(b, m, exclusion_list, "product"@);
    let c = attach_if_present(b, m, exclusion_list, "product"@);
    lemma_attach_if_present(c, m, exclusion_list, "odm"@);
}

proof fn lemma_root_tree_well_formed(
    m: SnapshotModel,
    extra: Seq<Seq<char>>,
    exclusion_list: Option<Seq<Seq<char>>>,
    live: Seq<LivePartitionModel>,
    k: int,
)
    ensures
        sound_directory(root_tree(m, extra, exclusion_list, live, k)),
    decreases k,
{
    if !(k <= 0 || k > extra.len()) {
        lemma_root_tree_well_formed(m, extra, exclusion_list, live, k - 1);
        let prev = root_tree(m, extra, exclusion_list, live, k - 1);
        match crate::mount::magic::partition_entries(m, extra[k - 1]) {
            Some(entries) => {
                lemma_attach_well_formed(prev, extra[k - 1], entries);
            },
            None => {},
        }
    }
}

/// The trees of any number of modules, laid over each other, are
/// well-formed directories.
pub proof fn lemma_merged_trees_well_formed(
    mods: Seq<SnapshotModel>,
    extra: Seq<Seq<char>>,
    exclusions: Seq<ExclusionModel>,
    live: Seq<LivePartitionModel>,
    k: int,
)
    ensures
        sound_directory(merged_trees(mods, extra, exclusions, live, k).0),
        sound_directory(merged_trees(mods, extra, exclusions, live, k).1),
    decreases k,
{
    if !(k <= 0 || k > mods.len()) {
        lemma_merged_trees_well_formed(mods, extra, exclusions, live, k - 1);
        let prev = merged_trees(mods, extra, exclusions, live, k - 1);
        let t = module_trees(
            mods[k - 1],
            extra,
            crate::mount::magic::exclusion_for(exclusions, mods[k - 1].path),
            live,
        );
        lemma_module_trees_well_formed(
            mods[k - 1],
            extra,
            crate::mount::magic::exclusion_for(exclusions, mods[k - 1].path),
            live,
        );
        lemma_merge_well_formed(prev.0, t.0);
        lemma_merge_well_formed(prev.1, t.1);
        lemma_merge_keeps(prev.0, t.0);
        lemma_merge_keeps(prev.1, t.1);
    }
}

/// Putting a well-formed node among well-formed children with distinct
/// names keeps them so.
pub proof fn lemma_place_child(children: Seq<NodeModel>, node: NodeModel)
    requires
        unique_names(children),
        all_well_formed(children),
        well_formed(node),
    ensures
        unique_names(place_child(children, node)),
        all_well_formed(place_child(children, node)),
{
    let p = child_pos(children, node.name);
    lemma_child_pos(children, node.name);
    let after = place_child(children, node);
    assert forall|i: int| 0 <= i < after.len() implies well_formed(#[trigger] after[i]) by {
        if 0 <= p < children.len() {
            if i != p {
                assert(after[i] == children[i]);
            }
        } else if i < children.len() {
            assert(after[i] == children[i]);
        }
    }
    assert forall|i: int, j: int| 0 <= i < j < after.len() implies (#[trigger] after[i]).name != (
    #[trigger] after[j]).name by {
        if 0 <= p < children.len() {
            assert(after[i].name == children[i].name);
            assert(after[j].name == children[j].name);
        } else if j < children.len() {
            assert(children[i].name != children[j].name);
        } else {
            assert(children[i].name != node.name);
        }
    }
}

proof fn lemma_relocate(
    trees: (NodeModel, NodeModel),
    live: Seq<LivePartitionModel>,
    part: Seq<char>,
    require_symlink: bool,
)
    requires
        sound_directory(trees.0),
        sound_directory(trees.1),
    ensures
        sound_directory(relocate(trees, live, part, require_symlink).0),
        sound_directory(relocate(trees, live, part, require_symlink).1),
{
    let p = child_pos(trees.1.children, part);
    lemma_child_pos(trees.1.children, part);
    if 0 <= p < trees.1.children.len() {
        lemma_place_child(trees.0.children, trees.1.children[p]);
        lemma_remove_child(trees.1.children, p, part);
        let rest = trees.1.children.remove(p);
        assert forall|i: int| 0 <= i < rest.len() implies well_formed(#[trigger] rest[i]) by {
            if i < p {
                assert(rest[i] == trees.1.children[i]);
            } else {
                assert(rest[i] == trees.1.children[i + 1]);
            }
        }
    }
}

/// The tree that the magic mount walks is a well-formed directory: at
/// every level the names are distinct, and only directories have children.
pub proof fn lemma_projected_root_well_formed(
    merged: (NodeModel, NodeModel),
    live: Seq<LivePartitionModel>,
)
    requires
        sound_directory(merged.0),
        sound_directory(merged.1),
    ensures
        projected_root(merged, live) matches Some(root) ==> sound_directory(root),
{
    let a = relocate(merged, live, "vendor"@, true);
    lemma_relocate(merged, live, "vendor"@, true);
    let b = relocate(a, live, "system_ext"@, true);
    lemma_relocate(a, live, "system_ext"@, true);
    let c = relocate(b, live, "product"@, true);
    lemma_relocate(b, live, "product"@, true);
    let d = relocate(c, live, "odm"@, false);
    lemma_relocate(c, live, "odm"@, false);
    lemma_place_child(d.0.children, d.1);
}

} // verus!
