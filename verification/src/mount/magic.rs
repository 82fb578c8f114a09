//! The magic mount: which binds, clones and tmpfs interposers project a
//! merged tree of module files onto the live filesystem.
//!
//! Nothing here touches the filesystem. The caller reads what the live
//! directory holds, asks for the next decision, and carries it out.

use crate::engine::inventory::{valid_module_id, validate_module_id};
use crate::mount::node::{
    child_pos, collect_children, entry_models, find_child, lemma_children_models, merge_node,
    merge_nodes, models, opt_view, EntryModel, Node, NodeFileType, NodeModel, SourceEntry,
};
use crate::paths::{join_path, spec_join};
use crate::text::{contains_string, first_pos, lemma_first_pos_prefix, owned, views};
use vstd::prelude::*;
use vstd::string::StringExecFns;

verus! {

/// What the live filesystem holds at a name, without following a symlink.
#[derive(PartialEq, Eq, Clone, Copy, Debug, Hash, Structural)]
pub enum LiveKind {
    File,
    Directory,
    Symlink,
    Other,
}

/// One entry of a live directory.
pub struct LiveEntry {
    pub name: String,
    pub kind: LiveKind,
    /// Whether the entry exists when symlinks are followed.
    pub target_exists: bool,
}

pub ghost struct LiveModel {
    pub name: Seq<char>,
    pub kind: LiveKind,
    pub target_exists: bool,
}

impl View for LiveEntry {
    type V = LiveModel;

    open spec fn view(&self) -> LiveModel {
        LiveModel { name: self.name@, kind: self.kind, target_exists: self.target_exists }
    }
}

pub open spec fn live_models(v: Seq<LiveEntry>) -> Seq<LiveModel> {
    Seq::new(v.len(), |i: int| v[i]@)
}

/// Index of the first live entry called `name`, or the number of entries
/// where there is none.
pub open spec fn live_pos(live: Seq<LiveModel>, name: Seq<char>) -> int
    decreases live.len(),
{
    if live.len() == 0 {
        0
    } else {
        let p = live_pos(live.drop_last(), name);
        if p < live.len() - 1 {
            p
        } else if live.last().name == name {
            live.len() - 1
        } else {
            live.len() as int
        }
    }
}

proof fn lemma_live_pos_prefix(live: Seq<LiveModel>, name: Seq<char>, n: int)
    requires
        0 <= n <= live.len(),
        live_pos(live.subrange(0, n), name) < n,
    ensures
        live_pos(live, name) == live_pos(live.subrange(0, n), name),
    decreases live.len() - n,
{
    if n < live.len() {
        let next = live.subrange(0, n + 1);
        assert(next.drop_last() =~= live.subrange(0, n));
        lemma_live_pos_prefix(live, name, n + 1);
    } else {
        assert(live.subrange(0, n) =~= live);
    }
}

/// Index of the first live entry called `name`.
pub fn find_live(live: &Vec<LiveEntry>, name: &String) -> (r: Option<usize>)
    ensures
        match r {
            Some(i) => i < live.len() && i == live_pos(live_models(live@), name@),
            None => live_pos(live_models(live@), name@) == live.len(),
        },
{
    let mut i: usize = 0;
    while i < live.len()
        invariant
            i <= live.len(),
            live_pos(live_models(live@).subrange(0, i as int), name@) == i,
        decreases live.len() - i,
    {
        proof {
            let next = live_models(live@).subrange(0, i + 1);
            assert(next.drop_last() =~= live_models(live@).subrange(0, i as int));
            assert(next.last() == live[i as int]@);
        }
        if live[i].name == *name {
            proof {
                lemma_live_pos_prefix(live_models(live@), name@, i + 1);
            }
            return Some(i);
        }
        i = i + 1;
    }
    assert(live_models(live@).subrange(0, live.len() as int) =~= live_models(live@));
    None
}

/// Whether a child cannot be bound in place, so that its directory has to
/// be rebuilt on a tmpfs: a symlink always; a whiteout where the live path
/// is there to be masked; a file or directory where the live entry is
/// missing or of another type.
pub open spec fn demands(child: NodeModel, live: Seq<LiveModel>) -> bool {
    let p = live_pos(live, child.name);
    match child.file_type {
        NodeFileType::Symlink => true,
        NodeFileType::Whiteout => 0 <= p < live.len() && live[p].target_exists,
        NodeFileType::RegularFile => !(0 <= p < live.len() && live[p].kind == LiveKind::File),
        NodeFileType::Directory => !(0 <= p < live.len() && live[p].kind == LiveKind::Directory),
    }
}

/// Index of the first child that demands a tmpfs and has a source to fill
/// it from, or the number of children where none does.
pub open spec fn trigger_pos(children: Seq<NodeModel>, live: Seq<LiveModel>) -> int
    decreases children.len(),
{
    if children.len() == 0 {
        0
    } else {
        let p = trigger_pos(children.drop_last(), live);
        if p < children.len() - 1 {
            p
        } else if demands(children.last(), live) && children.last().backing_path is Some {
            children.len() - 1
        } else {
            children.len() as int
        }
    }
}

/// The children before position `upto` that demand a tmpfs are set aside.
pub open spec fn marked(children: Seq<NodeModel>, live: Seq<LiveModel>, upto: int) -> Seq<
    NodeModel,
> {
    Seq::new(
        children.len(),
        |i: int|
            if i < upto && demands(children[i], live) {
                NodeModel { skip: true, ..children[i] }
            } else {
                children[i]
            },
    )
}

/// A directory that replaces the live one and has a source to do it from.
pub open spec fn claims_directory(n: NodeModel) -> bool {
    n.replace && n.backing_path is Some
}

/// Whether the directory gets a tmpfs of its own: never inside one; outside,
/// where it replaces the live directory or a child with a source demands it.
pub open spec fn creates_tmpfs(n: NodeModel, has_tmpfs: bool, live: Seq<LiveModel>) -> bool {
    !has_tmpfs && (claims_directory(n) || trigger_pos(n.children, live) < n.children.len())
}

/// The children as the walk takes them: outside a tmpfs, those that demand
/// one and have no source are set aside, up to the child that triggers one.
pub open spec fn settled_children(n: NodeModel, has_tmpfs: bool, live: Seq<LiveModel>) -> Seq<
    NodeModel,
> {
    if has_tmpfs || claims_directory(n) {
        n.children
    } else {
        marked(n.children, live, trigger_pos(n.children, live))
    }
}

/// One thing to do below a directory.
pub enum Step {
    /// Mount this child, below the directory's two paths.
    Descend(Node),
    /// Carry the live entry of this name over into the work directory.
    Mirror(String),
}

pub ghost enum StepModel {
    Descend(NodeModel),
    Mirror(Seq<char>),
}

impl View for Step {
    type V = StepModel;

    open spec fn view(&self) -> StepModel {
        match *self {
            Step::Descend(n) => StepModel::Descend(n@),
            Step::Mirror(name) => StepModel::Mirror(name@),
        }
    }
}

pub open spec fn step_models(v: Seq<Step>) -> Seq<StepModel> {
    Seq::new(v.len(), |i: int| v[i]@)
}

/// The steps for the first `k` live entries, and the children that are left
/// after them. A live entry that a child owns hands over to that child,
/// unless it is set aside; one that no child owns is mirrored where a tmpfs
/// is being filled.
pub open spec fn live_pass(
    children: Seq<NodeModel>,
    live: Seq<LiveModel>,
    k: int,
    mirror: bool,
) -> (Seq<StepModel>, Seq<NodeModel>)
    decreases k,
{
    if k <= 0 || k > live.len() {
        (Seq::empty(), children)
    } else {
        let (steps, rest) = live_pass(children, live, k - 1, mirror);
        let e = live[k - 1];
        let p = child_pos(rest, e.name);
        if 0 <= p < rest.len() {
            (
                if rest[p].skip {
                    steps
                } else {
                    steps.push(StepModel::Descend(rest[p]))
                },
                rest.remove(p),
            )
        } else {
            (
                if mirror {
                    steps.push(StepModel::Mirror(e.name))
                } else {
                    steps
                },
                rest,
            )
        }
    }
}

/// The steps for children that no live entry stands for: each one that is
/// not set aside, in order.
pub open spec fn rest_steps(children: Seq<NodeModel>) -> Seq<StepModel>
    decreases children.len(),
{
    if children.len() == 0 {
        Seq::empty()
    } else if children.last().skip {
        rest_steps(children.drop_last())
    } else {
        rest_steps(children.drop_last()).push(StepModel::Descend(children.last()))
    }
}

/// All steps below a directory: the live entries first, in the order of the
/// listing, unless the directory replaces the live one or the live path is
/// missing; then the remaining children.
pub open spec fn directory_steps(
    n: NodeModel,
    has_tmpfs: bool,
    path_exists: bool,
    live: Seq<LiveModel>,
) -> Seq<StepModel> {
    let kids = settled_children(n, has_tmpfs, live);
    let inside = has_tmpfs || creates_tmpfs(n, has_tmpfs, live);
    if path_exists && !n.replace {
        let (steps, rest) = live_pass(kids, live, live.len() as int, inside);
        steps + rest_steps(rest)
    } else {
        rest_steps(kids)
    }
}

/// Where the work directory takes mode, owner and label from: the live
/// directory where there is one, else the module's; from nowhere outside a
/// tmpfs.
pub open spec fn attribute_source(
    n: NodeModel,
    path: Seq<char>,
    inside: bool,
    path_exists: bool,
) -> Option<Seq<char>> {
    if !inside {
        None
    } else if path_exists {
        Some(path)
    } else {
        n.backing_path
    }
}

/// What to do for one directory of the tree.
pub struct DirectoryPlan {
    /// The live directory.
    pub path: String,
    /// Its mirror in the work area.
    pub work_dir_path: String,
    /// A tmpfs is made for this directory: the work directory is bound onto
    /// itself before the steps, and afterwards made read-only, moved onto
    /// the live path and made private.
    pub create_tmpfs: bool,
    /// The steps run inside a tmpfs, this one or one further up.
    pub has_tmpfs: bool,
    /// Where the work directory takes mode, owner and label from.
    pub attrs_from: Option<String>,
    pub steps: Vec<Step>,
    /// The live path is to be handed to the unmount queue at the end.
    pub schedule_umount: bool,
}

/// What to do for one node of the tree.
pub enum NodeAction {
    /// Bind the module's file onto `target`, then make it read-only;
    /// `create_first` asks for an empty file at `target` before the bind.
    BindFile { source: String, target: String, create_first: bool },
    /// Recreate the module's symlink at `target`, with its label.
    CloneSymlink { source: String, target: String },
    /// A directory: list the live directory and ask `handle_directory`.
    EnterDirectory,
    /// A whiteout: nothing is made, so the name is absent.
    Removed,
}

pub ghost enum NodeActionModel {
    BindFile { source: Seq<char>, target: Seq<char>, create_first: bool },
    CloneSymlink { source: Seq<char>, target: Seq<char> },
    EnterDirectory,
    Removed,
}

impl View for NodeAction {
    type V = NodeActionModel;

    open spec fn view(&self) -> NodeActionModel {
        match *self {
            NodeAction::BindFile { source, target, create_first } => NodeActionModel::BindFile {
                source: source@,
                target: target@,
                create_first,
            },
            NodeAction::CloneSymlink { source, target } => NodeActionModel::CloneSymlink {
                source: source@,
                target: target@,
            },
            NodeAction::EnterDirectory => NodeActionModel::EnterDirectory,
            NodeAction::Removed => NodeActionModel::Removed,
        }
    }
}

/// Why a node cannot be mounted.
#[derive(Debug)]
pub enum MagicError {
    /// A regular file that no module backs, at this path.
    RootFile(String),
    /// A symlink that no module backs, at this path.
    RootSymlink(String),
}

impl MagicError {
    pub fn message(&self) -> (r: String)
        ensures
            r@ == (match *self {
                MagicError::RootFile(p) => "cannot mount root file "@ + p@ + "!"@,
                MagicError::RootSymlink(p) => "cannot mount root symlink "@ + p@ + "!"@,
            }),
    {
        match self {
            MagicError::RootFile(p) => {
                let mut r = owned("cannot mount root file ");
                r.append(p.as_str());
                r.append("!");
                r
            },
            MagicError::RootSymlink(p) => {
                let mut r = owned("cannot mount root symlink ");
                r.append(p.as_str());
                r.append("!");
                r
            },
        }
    }
}

/// One node of the merged tree, on its way onto the live filesystem.
pub struct MagicMount {
    pub node: Node,
    /// The node's place on the live filesystem.
    pub path: String,
    /// The node's place in the work area.
    pub work_dir_path: String,
    /// Whether a directory further up is being rebuilt on a tmpfs.
    pub has_tmpfs: bool,
    /// Whether mounts are handed to the unmount queue.
    pub umount: bool,
}

/// What a node that is no directory asks for.
pub open spec fn leaf_action(
    n: NodeModel,
    path: Seq<char>,
    work_dir_path: Seq<char>,
    has_tmpfs: bool,
) -> Result<NodeActionModel, Seq<char>> {
    match n.file_type {
        NodeFileType::RegularFile => match n.backing_path {
            Some(source) => Ok(
                NodeActionModel::BindFile {
                    source,
                    target: if has_tmpfs {
                        work_dir_path
                    } else {
                        path
                    },
                    create_first: has_tmpfs,
                },
            ),
            None => Err(path),
        },
        NodeFileType::Symlink => match n.backing_path {
            Some(source) => Ok(NodeActionModel::CloneSymlink { source, target: work_dir_path }),
            None => Err(path),
        },
        NodeFileType::Directory => Ok(NodeActionModel::EnterDirectory),
        NodeFileType::Whiteout => Ok(NodeActionModel::Removed),
    }
}

impl MagicMount {
    /// The node placed below `path` and `work_dir_path`, under its name.
    pub fn new(node: Node, path: &str, work_dir_path: &str, has_tmpfs: bool, umount: bool) -> (r:
        Self)
        ensures
            r.node == node,
            r.path@ == spec_join(path@, node.name@),
            r.work_dir_path@ == spec_join(work_dir_path@, node.name@),
            r.has_tmpfs == has_tmpfs,
            r.umount == umount,
    {
        let p = join_path(path, node.name.as_str());
        let w = join_path(work_dir_path, node.name.as_str());
        MagicMount { node, path: p, work_dir_path: w, has_tmpfs, umount }
    }

    /// What this node asks for, by its type.
    pub fn do_magic_mount(&self) -> (r: Result<NodeAction, MagicError>)
        ensures
            match r {
                Ok(a) => leaf_action(self.node@, self.path@, self.work_dir_path@, self.has_tmpfs)
                    == Ok::<NodeActionModel, Seq<char>>(a@),
                Err(e) => leaf_action(self.node@, self.path@, self.work_dir_path@, self.has_tmpfs)
                    == Err::<NodeActionModel, Seq<char>>(self.path@) && (match e {
                    MagicError::RootFile(p) => p@ == self.path@ && self.node.file_type
                        == NodeFileType::RegularFile,
                    MagicError::RootSymlink(p) => p@ == self.path@ && self.node.file_type
                        == NodeFileType::Symlink,
                }),
            },
    {
        match self.node.file_type {
            NodeFileType::RegularFile => self.handle_regular_file(),
            NodeFileType::Symlink => self.handle_symlink(),
            NodeFileType::Directory => Ok(NodeAction::EnterDirectory),
            NodeFileType::Whiteout => Ok(NodeAction::Removed),
        }
    }

    /// A regular file is bound from its module: onto its place in the work
    /// area inside a tmpfs, onto the live path otherwise.
    pub fn handle_regular_file(&self) -> (r: Result<NodeAction, MagicError>)
        ensures
            match r {
                Ok(a) => self.node.backing_path is Some && a@ == (NodeActionModel::BindFile {
                    source: self.node.backing_path->0@,
                    target: if self.has_tmpfs {
                        self.work_dir_path@
                    } else {
                        self.path@
                    },
                    create_first: self.has_tmpfs,
                }),
                Err(e) => self.node.backing_path is None && (e matches MagicError::RootFile(p)
                    && p@ == self.path@),
            },
    {
        match &self.node.backing_path {
            Some(source) => {
                let target = if self.has_tmpfs {
                    self.work_dir_path.clone()
                } else {
                    self.path.clone()
                };
                Ok(
                    NodeAction::BindFile {
                        source: source.clone(),
                        target,
                        create_first: self.has_tmpfs,
                    },
                )
            },
            None => Err(MagicError::RootFile(self.path.clone())),
        }
    }

    /// A symlink is recreated at its place in the work area.
    pub fn handle_symlink(&self) -> (r: Result<NodeAction, MagicError>)
        ensures
            match r {
                Ok(a) => self.node.backing_path is Some && a@ == (NodeActionModel::CloneSymlink {
                    source: self.node.backing_path->0@,
                    target: self.work_dir_path@,
                }),
                Err(e) => self.node.backing_path is None && (e matches MagicError::RootSymlink(p)
                    && p@ == self.path@),
            },
    {
        match &self.node.backing_path {
            Some(source) => Ok(
                NodeAction::CloneSymlink {
                    source: source.clone(),
                    target: self.work_dir_path.clone(),
                },
            ),
            None => Err(MagicError::RootSymlink(self.path.clone())),
        }
    }
}


proof fn lemma_trigger_pos_prefix(children: Seq<NodeModel>, live: Seq<LiveModel>, n: int)
    requires
        0 <= n <= children.len(),
        trigger_pos(children.subrange(0, n), live) < n,
    ensures
        trigger_pos(children, live) == trigger_pos(children.subrange(0, n), live),
    decreases children.len() - n,
{
    if n < children.len() {
        let next = children.subrange(0, n + 1);
        assert(next.drop_last() =~= children.subrange(0, n));
        lemma_trigger_pos_prefix(children, live, n + 1);
    } else {
        assert(children.subrange(0, n) =~= children);
    }
}

/// Whether `child` cannot be bound in place, given the live listing.
pub fn child_demands(child: &Node, live: &Vec<LiveEntry>) -> (r: bool)
    ensures
        r == demands(child@, live_models(live@)),
{
    let found = find_live(live, &child.name);
    match child.file_type {
        NodeFileType::Symlink => true,
        NodeFileType::Whiteout => match found {
            Some(p) => live[p].target_exists,
            None => false,
        },
        NodeFileType::RegularFile => match found {
            Some(p) => !(live[p].kind == LiveKind::File),
            None => true,
        },
        NodeFileType::Directory => match found {
            Some(p) => !(live[p].kind == LiveKind::Directory),
            None => true,
        },
    }
}

impl MagicMount {
    /// Decides how a directory is mounted, from what the live directory
    /// holds: whether it gets a tmpfs, which children are set aside, and
    /// what is done below it, in order.
    pub fn handle_directory(self, path_exists: bool, live: &Vec<LiveEntry>) -> (plan:
        DirectoryPlan)
        ensures
            plan.path@ == self.path@,
            plan.work_dir_path@ == self.work_dir_path@,
            plan.create_tmpfs == creates_tmpfs(self.node@, self.has_tmpfs, live_models(live@)),
            plan.has_tmpfs == (self.has_tmpfs || plan.create_tmpfs),
            opt_view(plan.attrs_from) == attribute_source(
                self.node@,
                self.path@,
                plan.has_tmpfs,
                path_exists,
            ),
            step_models(plan.steps@) == directory_steps(
                self.node@,
                self.has_tmpfs,
                path_exists,
                live_models(live@),
            ),
            plan.schedule_umount == (plan.create_tmpfs && self.umount),
    {
        let ghost n0 = self.node@;
        let ghost lm = live_models(live@);
        proof {
            lemma_children_models(self.node);
        }
        let MagicMount { node, path, work_dir_path, has_tmpfs, umount } = self;
        let Node { children, backing_path, replace, .. } = node;
        let mut kids = children;
        let claims = replace && backing_path.is_some();
        let mut found = false;
        if !has_tmpfs && !claims {
            let mut i: usize = 0;
            assert(n0.children.subrange(0, 0) =~= Seq::<NodeModel>::empty());
            assert(models(kids@) =~= marked(n0.children, lm, 0));
            while i < kids.len() && !found
                invariant
                    i <= kids.len(),
                    kids.len() == n0.children.len(),
                    models(kids@) == marked(n0.children, lm, i as int),
                    trigger_pos(n0.children.subrange(0, i as int), lm) == i,
                    found ==> i < kids.len() && trigger_pos(n0.children, lm) == i,
                    lm == live_models(live@),
                decreases kids.len() - i + (if found { 0int } else { 1int }),
            {
                let ghost before = models(kids@);
                proof {
                    let next = n0.children.subrange(0, i + 1);
                    assert(next.drop_last() =~= n0.children.subrange(0, i as int));
                    assert(next.last() == n0.children[i as int]);
                    assert(before[i as int] == n0.children[i as int]);
                    assert(kids[i as int]@ == n0.children[i as int]);
                }
                let need = child_demands(&kids[i], live);
                if need && kids[i].backing_path.is_some() {
                    found = true;
                    proof {
                        lemma_trigger_pos_prefix(n0.children, lm, i + 1);
                    }
                } else {
                    if need {
                        let mut c = kids.remove(i);
                        let ghost c0 = c@;
                        proof {
                            lemma_children_models(c);
                        }
                        c.skip = true;
                        proof {
                            lemma_children_models(c);
                            assert(c@ == (NodeModel { skip: true, ..c0 }));
                        }
                        kids.insert(i, c);
                        assert(models(kids@) =~= before.update(
                            i as int,
                            NodeModel { skip: true, ..c0 },
                        ));
                    }
                    assert(models(kids@) =~= marked(n0.children, lm, i + 1));
                    i = i + 1;
                }
            }
            proof {
                if !found {
                    assert(n0.children.subrange(0, i as int) =~= n0.children);
                }
            }
        }
        let create_tmpfs = !has_tmpfs && (claims || found);
        let inside = has_tmpfs || create_tmpfs;
        let ghost settled = settled_children(n0, has_tmpfs, lm);
        assert(models(kids@) == settled);
        let mut steps: Vec<Step> = Vec::new();
        assert(step_models(steps@) =~= Seq::<StepModel>::empty());
        if path_exists && !replace {
            let mut j: usize = 0;
            while j < live.len()
                invariant
                    j <= live.len(),
                    lm == live_models(live@),
                    (step_models(steps@), models(kids@)) == live_pass(settled, lm, j as int, inside),
                decreases live.len() - j,
            {
                let ghost steps0 = step_models(steps@);
                let ghost kids0 = models(kids@);
                assert(lm[j as int] == live[j as int]@);
                match find_child(&kids, &live[j].name) {
                    Some(p) => {
                        let c = kids.remove(p);
                        assert(models(kids@) =~= kids0.remove(p as int));
                        if !c.skip {
                            steps.push(Step::Descend(c));
                            assert(step_models(steps@) =~= steps0.push(
                                StepModel::Descend(kids0[p as int]),
                            ));
                        }
                    },
                    None => {
                        if inside {
                            steps.push(Step::Mirror(live[j].name.clone()));
                            assert(step_models(steps@) =~= steps0.push(
                                StepModel::Mirror(lm[j as int].name),
                            ));
                        }
                    },
                }
                j = j + 1;
            }
        }
        let ghost rest = models(kids@);
        let ghost base = step_models(steps@);
        let ghost n = rest.len() as int;
        let ghost mut k: int = 0;
        assert(rest.subrange(0, 0) =~= Seq::<NodeModel>::empty());
        assert(rest.subrange(0, n) =~= rest);
        assert(base + rest_steps(Seq::<NodeModel>::empty()) =~= base);
        while kids.len() > 0
            invariant
                0 <= k <= n,
                n == rest.len(),
                models(kids@) == rest.subrange(k, n),
                step_models(steps@) == base + rest_steps(rest.subrange(0, k)),
            decreases kids.len(),
        {
            let ghost steps0 = step_models(steps@);
            let ghost kids0 = models(kids@);
            assert(kids0.len() == kids.len());
            assert(rest.subrange(k, n).len() == n - k);
            assert(kids0[0] == kids[0]@);
            let c = kids.remove(0);
            proof {
                assert(k < n);
                assert(kids0[0] == rest[k]);
                assert(c@ == rest[k]);
                assert(models(kids@) =~= kids0.remove(0));
                assert(models(kids@) =~= rest.subrange(k + 1, n));
                let next = rest.subrange(0, k + 1);
                assert(next.drop_last() =~= rest.subrange(0, k));
                assert(next.last() == rest[k]);
            }
            if !c.skip {
                steps.push(Step::Descend(c));
                assert(step_models(steps@) =~= steps0.push(StepModel::Descend(rest[k])));
                assert(step_models(steps@) =~= base + rest_steps(rest.subrange(0, k + 1)));
            }
            proof {
                k = k + 1;
            }
        }
        let attrs_from = if inside {
            if path_exists {
                Some(path.clone())
            } else {
                backing_path
            }
        } else {
            None
        };
        DirectoryPlan {
            path,
            work_dir_path,
            create_tmpfs,
            has_tmpfs: inside,
            attrs_from,
            steps,
            schedule_umount: create_tmpfs && umount,
        }
    }
}


/// One partition directory of a module, with what it holds.
pub struct PartitionSnapshot {
    pub name: String,
    pub entries: Vec<SourceEntry>,
}

/// A module as it lies on disk: its marker files and its partition
/// directories.
pub struct ModuleSnapshot {
    /// The module's directory.
    pub path: String,
    /// The last component of the directory, where it has one.
    pub name: Option<String>,
    pub disabled: bool,
    pub removed: bool,
    pub skip_mount: bool,
    /// The partition directories of the module that are directories.
    pub partitions: Vec<PartitionSnapshot>,
}

pub ghost struct PartitionModel {
    pub name: Seq<char>,
    pub entries: Seq<EntryModel>,
}

pub ghost struct SnapshotModel {
    pub path: Seq<char>,
    pub name: Option<Seq<char>>,
    pub disabled: bool,
    pub removed: bool,
    pub skip_mount: bool,
    pub partitions: Seq<PartitionModel>,
}

impl View for PartitionSnapshot {
    type V = PartitionModel;

    open spec fn view(&self) -> PartitionModel {
        PartitionModel { name: self.name@, entries: entry_models(self.entries@) }
    }
}

pub open spec fn partition_models(v: Seq<PartitionSnapshot>) -> Seq<PartitionModel> {
    Seq::new(v.len(), |i: int| v[i]@)
}

impl View for ModuleSnapshot {
    type V = SnapshotModel;

    open spec fn view(&self) -> SnapshotModel {
        SnapshotModel {
            path: self.path@,
            name: opt_view(self.name),
            disabled: self.disabled,
            removed: self.removed,
            skip_mount: self.skip_mount,
            partitions: partition_models(self.partitions@),
        }
    }
}

pub open spec fn snapshot_models(v: Seq<ModuleSnapshot>) -> Seq<SnapshotModel> {
    Seq::new(v.len(), |i: int| v[i]@)
}

/// What the live system shows for one partition name.
pub struct LivePartition {
    pub name: String,
    /// `/` + name is a directory.
    pub root_is_dir: bool,
    /// `/system/` + name exists.
    pub system_exists: bool,
    /// `/system/` + name is a symlink.
    pub system_is_symlink: bool,
}

pub ghost struct LivePartitionModel {
    pub name: Seq<char>,
    pub root_is_dir: bool,
    pub system_exists: bool,
    pub system_is_symlink: bool,
}

impl View for LivePartition {
    type V = LivePartitionModel;

    open spec fn view(&self) -> LivePartitionModel {
        LivePartitionModel {
            name: self.name@,
            root_is_dir: self.root_is_dir,
            system_exists: self.system_exists,
            system_is_symlink: self.system_is_symlink,
        }
    }
}

pub open spec fn live_partition_models(v: Seq<LivePartition>) -> Seq<LivePartitionModel> {
    Seq::new(v.len(), |i: int| v[i]@)
}

pub open spec fn partition_names(v: Seq<PartitionModel>) -> Seq<Seq<char>> {
    Seq::new(v.len(), |i: int| v[i].name)
}

pub open spec fn live_partition_names(v: Seq<LivePartitionModel>) -> Seq<Seq<char>> {
    Seq::new(v.len(), |i: int| v[i].name)
}

/// What a module holds for a partition, where it has a directory for it.
pub open spec fn partition_entries(m: SnapshotModel, name: Seq<char>) -> Option<Seq<EntryModel>> {
    let p = first_pos(partition_names(m.partitions), name);
    if 0 <= p < m.partitions.len() {
        Some(m.partitions[p].entries)
    } else {
        None
    }
}

/// What the live system shows for a partition; a partition that was not
/// looked at counts as absent.
pub open spec fn live_partition(live: Seq<LivePartitionModel>, name: Seq<char>) -> LivePartitionModel {
    let p = first_pos(live_partition_names(live), name);
    if 0 <= p < live.len() {
        live[p]
    } else {
        LivePartitionModel { name, root_is_dir: false, system_exists: false, system_is_symlink: false }
    }
}

/// An empty directory without a source.
pub open spec fn root_model(name: Seq<char>) -> NodeModel {
    NodeModel {
        name,
        file_type: NodeFileType::Directory,
        children: Seq::empty(),
        backing_path: None,
        replace: false,
        skip: false,
    }
}

/// A partition comes in below `parent`: the child of its name, or a new
/// empty directory, takes in the entries. A symlink of that name gives way
/// to a directory without a source; a file or whiteout of that name stays
/// as it is and takes in nothing.
pub open spec fn attach(parent: NodeModel, name: Seq<char>, entries: Seq<EntryModel>) -> NodeModel {
    let p = child_pos(parent.children, name);
    let found = if 0 <= p < parent.children.len() {
        parent.children[p]
    } else {
        root_model(name)
    };
    let ready = if found.file_type == NodeFileType::Symlink {
        NodeModel { file_type: NodeFileType::Directory, backing_path: None, ..found }
    } else {
        found
    };
    let filled = if ready.file_type == NodeFileType::Directory {
        NodeModel {
            children: collect_children(ready.children, entries, entries.len() as int),
            ..ready
        }
    } else {
        ready
    };
    NodeModel {
        children: if 0 <= p < parent.children.len() {
            parent.children.update(p, filled)
        } else {
            parent.children.push(filled)
        },
        ..parent
    }
}

/// Whether a partition is left out for this module.
pub open spec fn excluded(exclusion_list: Option<Seq<Seq<char>>>, part: Seq<char>) -> bool {
    exclusion_list matches Some(list) && list.contains(part)
}

/// The partitions that live below `/system` unless the device has them at
/// the root.
pub open spec fn root_partitions() -> Seq<Seq<char>> {
    seq!["vendor"@, "system_ext"@, "product"@, "odm"@]
}

/// `parent` after the module's directory for `part` came in, if the module
/// has one and the partition is not left out.
pub open spec fn attach_if_present(
    parent: NodeModel,
    m: SnapshotModel,
    exclusion_list: Option<Seq<Seq<char>>>,
    part: Seq<char>,
) -> NodeModel {
    match partition_entries(m, part) {
        Some(entries) => if excluded(exclusion_list, part) {
            parent
        } else {
            attach(parent, part, entries)
        },
        None => parent,
    }
}

/// The `system` tree of a module: its own `system` directory, then the
/// four partitions that may live below it.
pub open spec fn system_tree(m: SnapshotModel, exclusion_list: Option<Seq<Seq<char>>>) -> NodeModel {
    let base = match partition_entries(m, "system"@) {
        Some(entries) => if excluded(exclusion_list, "system"@) {
            root_model("system"@)
        } else {
            NodeModel {
                children: collect_children(Seq::empty(), entries, entries.len() as int),
                ..root_model("system"@)
            }
        },
        None => root_model("system"@),
    };
    let a = attach_if_present(base, m, exclusion_list, "vendor"@);
    let b = attach_if_present(a, m, exclusion_list, "system_ext"@);
    let c = attach_if_present(b, m, exclusion_list, "product"@);
    attach_if_present(c, m, exclusion_list, "odm"@)
}

/// Whether an extra partition of a module goes to the root tree: it is
/// none of the partitions handled with `system`, it is not left out, the
/// device has it as a directory at the root, and below `/system` it is
/// absent or a symlink.
pub open spec fn goes_to_root(
    exclusion_list: Option<Seq<Seq<char>>>,
    live: Seq<LivePartitionModel>,
    part: Seq<char>,
) -> bool {
    let l = live_partition(live, part);
    &&& !root_partitions().contains(part)
    &&& part != "system"@
    &&& !excluded(exclusion_list, part)
    &&& l.root_is_dir
    &&& (!l.system_exists || l.system_is_symlink)
}

/// The root tree of a module after the first `k` extra partitions.
pub open spec fn root_tree(
    m: SnapshotModel,
    extra: Seq<Seq<char>>,
    exclusion_list: Option<Seq<Seq<char>>>,
    live: Seq<LivePartitionModel>,
    k: int,
) -> NodeModel
    decreases k,
{
    if k <= 0 || k > extra.len() {
        root_model(Seq::empty())
    } else {
        let prev = root_tree(m, extra, exclusion_list, live, k - 1);
        let part = extra[k - 1];
        match partition_entries(m, part) {
            Some(entries) => if goes_to_root(exclusion_list, live, part) {
                attach(prev, part, entries)
            } else {
                prev
            },
            None => prev,
        }
    }
}

/// Whether a module is passed over: a marker file says so, or its
/// directory name is no module identifier.
pub open spec fn passed_over(m: SnapshotModel) -> bool {
    m.disabled || m.removed || m.skip_mount || (m.name matches Some(n) && !valid_module_id(n))
}

/// The two trees of one module: what goes to the root, and what goes
/// below `/system`.
pub open spec fn module_trees(
    m: SnapshotModel,
    extra: Seq<Seq<char>>,
    exclusion_list: Option<Seq<Seq<char>>>,
    live: Seq<LivePartitionModel>,
) -> (NodeModel, NodeModel) {
    if passed_over(m) {
        (root_model(Seq::empty()), root_model("system"@))
    } else {
        (
            root_tree(m, extra, exclusion_list, live, extra.len() as int),
            system_tree(m, exclusion_list),
        )
    }
}

/// Index of the module's directory for the partition.
pub fn find_partition(parts: &Vec<PartitionSnapshot>, name: &String) -> (r: Option<usize>)
    ensures
        match r {
            Some(i) => i < parts.len() && i == first_pos(
                partition_names(partition_models(parts@)),
                name@,
            ),
            None => first_pos(partition_names(partition_models(parts@)), name@) == parts.len(),
        },
{
    let ghost names = partition_names(partition_models(parts@));
    let mut i: usize = 0;
    while i < parts.len()
        invariant
            i <= parts.len(),
            names == partition_names(partition_models(parts@)),
            first_pos(names.subrange(0, i as int), name@) == i,
        decreases parts.len() - i,
    {
        proof {
            let next = names.subrange(0, i + 1);
            assert(next.drop_last() =~= names.subrange(0, i as int));
            assert(next.last() == parts[i as int].name@);
        }
        if parts[i].name == *name {
            proof {
                lemma_first_pos_prefix(names, name@, i + 1);
            }
            return Some(i);
        }
        i = i + 1;
    }
    assert(names.subrange(0, parts.len() as int) =~= names);
    None
}

/// What the live system shows for a partition.
pub fn find_live_partition(live: &Vec<LivePartition>, name: &String) -> (r: (bool, bool, bool))
    ensures
        r.0 == live_partition(live_partition_models(live@), name@).root_is_dir,
        r.1 == live_partition(live_partition_models(live@), name@).system_exists,
        r.2 == live_partition(live_partition_models(live@), name@).system_is_symlink,
{
    let ghost names = live_partition_names(live_partition_models(live@));
    let mut i: usize = 0;
    while i < live.len()
        invariant
            i <= live.len(),
            names == live_partition_names(live_partition_models(live@)),
            first_pos(names.subrange(0, i as int), name@) == i,
        decreases live.len() - i,
    {
        proof {
            let next = names.subrange(0, i + 1);
            assert(next.drop_last() =~= names.subrange(0, i as int));
            assert(next.last() == live[i as int].name@);
        }
        if live[i].name == *name {
            proof {
                lemma_first_pos_prefix(names, name@, i + 1);
                assert(live_partition_models(live@)[i as int] == live[i as int]@);
            }
            return (live[i].root_is_dir, live[i].system_exists, live[i].system_is_symlink);
        }
        i = i + 1;
    }
    assert(names.subrange(0, live.len() as int) =~= names);
    (false, false, false)
}

/// Brings a partition directory in below `parent`.
pub fn attach_partition(parent: &mut Node, name: &String, entries: &Vec<SourceEntry>)
    ensures
        final(parent)@ == attach(old(parent)@, name@, entry_models(entries@)),
{
    proof {
        lemma_children_models(*parent);
    }
    let ghost before = models(parent.children@);
    match find_child(&parent.children, name) {
        Some(p) => {
            let mut node = parent.children.remove(p);
            proof {
                lemma_children_models(node);
            }
            if node.file_type == NodeFileType::Symlink {
                node.file_type = NodeFileType::Directory;
                node.backing_path = None;
            }
            proof {
                lemma_children_models(node);
            }
            if node.file_type == NodeFileType::Directory {
                node.collect_module_files(entries);
            }
            let ghost filled = node@;
            parent.children.insert(p, node);
            proof {
                assert(models(parent.children@) =~= before.update(p as int, filled));
                lemma_children_models(*parent);
            }
        },
        None => {
            let mut node = Node::new_root(name.as_str());
            node.collect_module_files(entries);
            let ghost filled = node@;
            parent.children.push(node);
            proof {
                assert(models(parent.children@) =~= before.push(filled));
                lemma_children_models(*parent);
            }
        },
    }
}


pub open spec fn exclusion_view(exclusion_list: Option<&Vec<String>>) -> Option<Seq<Seq<char>>> {
    match exclusion_list {
        Some(list) => Some(views(list@)),
        None => None,
    }
}

/// Whether the partition is left out.
pub fn is_excluded(exclusion_list: Option<&Vec<String>>, part: &String) -> (r: bool)
    ensures
        r == excluded(exclusion_view(exclusion_list), part@),
{
    match exclusion_list {
        Some(list) => contains_string(list, part),
        None => false,
    }
}

/// Brings the module's directory for `part` in below `parent`, if the
/// module has one and the partition is not left out.
pub fn attach_from_module(
    parent: &mut Node,
    module: &ModuleSnapshot,
    exclusion_list: Option<&Vec<String>>,
    part: &String,
)
    ensures
        final(parent)@ == attach_if_present(
            old(parent)@,
            module@,
            exclusion_view(exclusion_list),
            part@,
        ),
{
    match find_partition(&module.partitions, part) {
        Some(p) => {
            assert(partition_models(module.partitions@)[p as int] == module.partitions[p as int]@);
            if !is_excluded(exclusion_list, part) {
                attach_partition(parent, part, &module.partitions[p].entries);
            }
        },
        None => {},
    }
}

/// Builds the two trees of one module: what it projects at the root, and
/// what it projects below `/system`.
pub fn process_module(
    module: &ModuleSnapshot,
    extra_partitions: &Vec<String>,
    exclusion_list: Option<&Vec<String>>,
    live: &Vec<LivePartition>,
) -> (r: (Node, Node))
    ensures
        (r.0@, r.1@) == module_trees(
            module@,
            views(extra_partitions@),
            exclusion_view(exclusion_list),
            live_partition_models(live@),
        ),
{
    let mut root = Node::new_root("");
    let mut system = Node::new_root("system");
    proof {
        reveal_strlit("");
        assert(""@ =~= Seq::<char>::empty());
    }
    if module.disabled || module.removed || module.skip_mount {
        return (root, system);
    }
    match &module.name {
        Some(n) => {
            if !validate_module_id(n.as_str()) {
                return (root, system);
            }
        },
        None => {},
    }
    let ghost m = module@;
    let ghost ex = exclusion_view(exclusion_list);
    let ghost lv = live_partition_models(live@);
    let ghost extra = views(extra_partitions@);
    let system_name = owned("system");
    let vendor = owned("vendor");
    let system_ext = owned("system_ext");
    let product = owned("product");
    let odm = owned("odm");
    match find_partition(&module.partitions, &system_name) {
        Some(p) => {
            assert(partition_models(module.partitions@)[p as int] == module.partitions[p as int]@);
            if !is_excluded(exclusion_list, &system_name) {
                system.collect_module_files(&module.partitions[p].entries);
            }
        },
        None => {},
    }
    attach_from_module(&mut system, module, exclusion_list, &vendor);
    attach_from_module(&mut system, module, exclusion_list, &system_ext);
    attach_from_module(&mut system, module, exclusion_list, &product);
    attach_from_module(&mut system, module, exclusion_list, &odm);
    let mut k: usize = 0;
    while k < extra_partitions.len()
        invariant
            k <= extra_partitions.len(),
            m == module@,
            ex == exclusion_view(exclusion_list),
            lv == live_partition_models(live@),
            extra == views(extra_partitions@),
            root@ == root_tree(m, extra, ex, lv, k as int),
            system_name@ == "system"@,
            vendor@ == "vendor"@,
            system_ext@ == "system_ext"@,
            product@ == "product"@,
            odm@ == "odm"@,
        decreases extra_partitions.len() - k,
    {
        let part = &extra_partitions[k];
        assert(extra[k as int] == part@);
        let with_system = *part == vendor || *part == system_ext || *part == product || *part == odm;
        proof {
            let rp = root_partitions();
            assert(rp[0] == "vendor"@ && rp[1] == "system_ext"@ && rp[2] == "product"@ && rp[3]
                == "odm"@);
            if with_system {
                assert(rp.contains(part@));
            }
        }
        if !with_system && !(*part == system_name) && !is_excluded(exclusion_list, part) {
            let (root_is_dir, system_exists, system_is_symlink) = find_live_partition(live, part);
            if root_is_dir && (!system_exists || system_is_symlink) {
                match find_partition(&module.partitions, part) {
                    Some(p) => {
                        assert(partition_models(module.partitions@)[p as int]
                            == module.partitions[p as int]@);
                        attach_partition(&mut root, part, &module.partitions[p].entries);
                    },
                    None => {},
                }
            }
        }
        k = k + 1;
    }
    (root, system)
}


/// The partitions that are left out for one module.
pub struct Exclusion {
    /// The module's directory.
    pub path: String,
    pub partitions: Vec<String>,
}

pub ghost struct ExclusionModel {
    pub path: Seq<char>,
    pub partitions: Seq<Seq<char>>,
}

impl View for Exclusion {
    type V = ExclusionModel;

    open spec fn view(&self) -> ExclusionModel {
        ExclusionModel { path: self.path@, partitions: views(self.partitions@) }
    }
}

pub open spec fn exclusion_models(v: Seq<Exclusion>) -> Seq<ExclusionModel> {
    Seq::new(v.len(), |i: int| v[i]@)
}

pub open spec fn exclusion_paths(v: Seq<ExclusionModel>) -> Seq<Seq<char>> {
    Seq::new(v.len(), |i: int| v[i].path)
}

/// The partitions left out for the module at `path`, where any are named.
pub open spec fn exclusion_for(exclusions: Seq<ExclusionModel>, path: Seq<char>) -> Option<
    Seq<Seq<char>>,
> {
    let p = first_pos(exclusion_paths(exclusions), path);
    if 0 <= p < exclusions.len() {
        Some(exclusions[p].partitions)
    } else {
        None
    }
}

/// The trees of the first `k` modules laid over each other, earlier
/// modules winning.
pub open spec fn merged_trees(
    mods: Seq<SnapshotModel>,
    extra: Seq<Seq<char>>,
    exclusions: Seq<ExclusionModel>,
    live: Seq<LivePartitionModel>,
    k: int,
) -> (NodeModel, NodeModel)
    decreases k,
{
    if k <= 0 || k > mods.len() {
        (root_model(Seq::empty()), root_model("system"@))
    } else {
        let prev = merged_trees(mods, extra, exclusions, live, k - 1);
        let t = module_trees(
            mods[k - 1],
            extra,
            exclusion_for(exclusions, mods[k - 1].path),
            live,
        );
        (merge_node(prev.0, t.0), merge_node(prev.1, t.1))
    }
}

/// The children with `node` among them: in place of the child of its name,
/// or as a new last child.
pub open spec fn place_child(children: Seq<NodeModel>, node: NodeModel) -> Seq<NodeModel> {
    let p = child_pos(children, node.name);
    if 0 <= p < children.len() {
        children.update(p, node)
    } else {
        children.push(node)
    }
}

/// Whether a partition that was gathered below `/system` belongs at the
/// root: the device has it as a directory there, and, where that is asked
/// for, `/system/` + name is a symlink.
pub open spec fn lives_at_root(
    live: Seq<LivePartitionModel>,
    part: Seq<char>,
    require_symlink: bool,
) -> bool {
    let l = live_partition(live, part);
    l.root_is_dir && (!require_symlink || l.system_is_symlink)
}

/// Moves a partition from the `system` tree to the root tree where it
/// belongs there.
pub open spec fn relocate(
    trees: (NodeModel, NodeModel),
    live: Seq<LivePartitionModel>,
    part: Seq<char>,
    require_symlink: bool,
) -> (NodeModel, NodeModel) {
    let p = child_pos(trees.1.children, part);
    if lives_at_root(live, part, require_symlink) && 0 <= p < trees.1.children.len() {
        (
            NodeModel { children: place_child(trees.0.children, trees.1.children[p]), ..trees.0 },
            NodeModel { children: trees.1.children.remove(p), ..trees.1 },
        )
    } else {
        trees
    }
}

/// The one tree that the magic mount walks: the merged root tree, with the
/// partitions that live at the root moved over, and the `system` tree as
/// its child. Nothing where no module holds anything.
pub open spec fn projected_root(merged: (NodeModel, NodeModel), live: Seq<LivePartitionModel>) -> Option<
    NodeModel,
> {
    if merged.0.children.len() == 0 && merged.1.children.len() == 0 {
        None
    } else {
        let a = relocate(merged, live, "vendor"@, true);
        let b = relocate(a, live, "system_ext"@, true);
        let c = relocate(b, live, "product"@, true);
        let d = relocate(c, live, "odm"@, false);
        Some(NodeModel { children: place_child(d.0.children, d.1), ..d.0 })
    }
}

/// The partitions left out for the module at `path`.
pub fn find_exclusion<'a>(exclusions: &'a Vec<Exclusion>, path: &String) -> (r: Option<
    &'a Vec<String>,
>)
    ensures
        exclusion_view(r) == exclusion_for(exclusion_models(exclusions@), path@),
{
    let ghost paths = exclusion_paths(exclusion_models(exclusions@));
    let mut i: usize = 0;
    while i < exclusions.len()
        invariant
            i <= exclusions.len(),
            paths == exclusion_paths(exclusion_models(exclusions@)),
            first_pos(paths.subrange(0, i as int), path@) == i,
        decreases exclusions.len() - i,
    {
        proof {
            let next = paths.subrange(0, i + 1);
            assert(next.drop_last() =~= paths.subrange(0, i as int));
            assert(next.last() == exclusions[i as int].path@);
        }
        if exclusions[i].path == *path {
            proof {
                lemma_first_pos_prefix(paths, path@, i + 1);
                assert(exclusion_models(exclusions@)[i as int] == exclusions[i as int]@);
            }
            return Some(&exclusions[i].partitions);
        }
        i = i + 1;
    }
    assert(paths.subrange(0, exclusions.len() as int) =~= paths);
    None
}

/// Puts `node` among the children, in place of the child of its name or as
/// a new last child.
pub fn put_child(parent: &mut Node, node: Node)
    ensures
        final(parent)@ == (NodeModel {
            children: place_child(old(parent)@.children, node@),
            ..old(parent)@
        }),
{
    proof {
        lemma_children_models(*parent);
    }
    let ghost before = models(parent.children@);
    let ghost nm = node@;
    match find_child(&parent.children, &node.name) {
        Some(p) => {
            parent.children.set(p, node);
            assert(models(parent.children@) =~= before.update(p as int, nm));
        },
        None => {
            parent.children.push(node);
            assert(models(parent.children@) =~= before.push(nm));
        },
    }
    proof {
        lemma_children_models(*parent);
    }
}

/// Moves the partition from `system` to `root` where it lives at the root.
pub fn relocate_partition(
    root: &mut Node,
    system: &mut Node,
    live: &Vec<LivePartition>,
    part: &String,
    require_symlink: bool,
)
    ensures
        (final(root)@, final(system)@) == relocate(
            (old(root)@, old(system)@),
            live_partition_models(live@),
            part@,
            require_symlink,
        ),
{
    let (root_is_dir, _system_exists, system_is_symlink) = find_live_partition(live, part);
    if root_is_dir && (!require_symlink || system_is_symlink) {
        proof {
            lemma_children_models(*system);
        }
        let ghost before = models(system.children@);
        match find_child(&system.children, part) {
            Some(p) => {
                let node = system.children.remove(p);
                proof {
                    assert(models(system.children@) =~= before.remove(p as int));
                    lemma_children_models(*system);
                }
                put_child(root, node);
            },
            None => {},
        }
    }
}

/// Folds the modules into the one tree that the magic mount walks, earlier
/// modules winning; nothing where no module holds anything.
pub fn collect_module_files(
    modules: &Vec<ModuleSnapshot>,
    extra_partitions: &Vec<String>,
    exclusions: &Vec<Exclusion>,
    live: &Vec<LivePartition>,
) -> (r: Option<Node>)
    ensures
        match r {
            Some(n) => projected_root(
                merged_trees(
                    snapshot_models(modules@),
                    views(extra_partitions@),
                    exclusion_models(exclusions@),
                    live_partition_models(live@),
                    modules.len() as int,
                ),
                live_partition_models(live@),
            ) == Some(n@),
            None => projected_root(
                merged_trees(
                    snapshot_models(modules@),
                    views(extra_partitions@),
                    exclusion_models(exclusions@),
                    live_partition_models(live@),
                    modules.len() as int,
                ),
                live_partition_models(live@),
            ) is None,
        },
{
    let mut root = Node::new_root("");
    let mut system = Node::new_root("system");
    proof {
        reveal_strlit("");
        assert(""@ =~= Seq::<char>::empty());
    }
    let ghost mods = snapshot_models(modules@);
    let ghost extra = views(extra_partitions@);
    let ghost ex = exclusion_models(exclusions@);
    let ghost lv = live_partition_models(live@);
    let mut i: usize = 0;
    while i < modules.len()
        invariant
            i <= modules.len(),
            mods == snapshot_models(modules@),
            extra == views(extra_partitions@),
            ex == exclusion_models(exclusions@),
            lv == live_partition_models(live@),
            (root@, system@) == merged_trees(mods, extra, ex, lv, i as int),
        decreases modules.len() - i,
    {
        let module = &modules[i];
        assert(mods[i as int] == module@);
        let exclusion = find_exclusion(exclusions, &module.path);
        let (r, s) = process_module(module, extra_partitions, exclusion, live);
        merge_nodes(&mut root, r);
        merge_nodes(&mut system, s);
        i = i + 1;
    }
    if root.children.len() == 0 && system.children.len() == 0 {
        proof {
            lemma_children_models(root);
            lemma_children_models(system);
        }
        return None;
    }
    proof {
        lemma_children_models(root);
        lemma_children_models(system);
    }
    let vendor = owned("vendor");
    let system_ext = owned("system_ext");
    let product = owned("product");
    let odm = owned("odm");
    relocate_partition(&mut root, &mut system, live, &vendor, true);
    relocate_partition(&mut root, &mut system, live, &system_ext, true);
    relocate_partition(&mut root, &mut system, live, &product, true);
    relocate_partition(&mut root, &mut system, live, &odm, false);
    put_child(&mut root, system);
    Some(root)
}

} // verus!
