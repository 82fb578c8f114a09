//! The planner: from the modules and what the storage holds for them to the
//! overlay mounts to make and the modules left to the magic mount.
//!
//! The planner reads nothing itself. The caller probes the storage and the
//! live partitions and hands over what it found.

use crate::conf::config::Config;
use crate::defs::{builtin_partition_names, builtin_partitions, SYSTEM_RW_DIR};
use crate::engine::inventory::{module_models, Module, ModuleModel};
use crate::mount::overlay::{
    capped, joined_bytes, lemma_capped, truncate_lowerdirs, MAX_LOWERDIRS, MAX_LOWERDIR_BYTES,
};
use crate::paths::{join_path, spec_join};
use crate::text::{
    append_new, contains_string, extend_new, first_pos, lemma_first_pos_prefix, lemma_lex_asym,
    lemma_lex_le_trans, lemma_selected, lex_le, lex_lt, owned, selected, sorted_unique, str_lt,
    strictly_sorted, views,
};
use vstd::prelude::*;

verus! {

/// One overlay mount: the lower directories stacked over `target`.
#[derive(Debug)]
pub struct OverlayOperation {
    /// The directory mounted over, symlinks resolved.
    pub target: String,
    /// The layers, the first one on top.
    pub lowerdirs: Vec<String>,
    /// The writable layer, where there is one.
    pub upperdir: Option<String>,
    /// The scratch directory that goes with the writable layer.
    pub workdir: Option<String>,
    /// The name under which the mount shows up.
    pub source: String,
    /// The partition the mount is made for.
    pub partition_name: String,
    /// Whether layers were cut from the tail to fit the limits.
    pub truncated: bool,
}

pub ghost struct OpModel {
    pub target: Seq<char>,
    pub lowerdirs: Seq<Seq<char>>,
    pub upperdir: Option<Seq<char>>,
    pub workdir: Option<Seq<char>>,
    pub source: Seq<char>,
    pub partition_name: Seq<char>,
    pub truncated: bool,
}

pub open spec fn opt_chars(s: Option<String>) -> Option<Seq<char>> {
    match s {
        Some(p) => Some(p@),
        None => None,
    }
}

impl View for OverlayOperation {
    type V = OpModel;

    open spec fn view(&self) -> OpModel {
        OpModel {
            target: self.target@,
            lowerdirs: views(self.lowerdirs@),
            upperdir: opt_chars(self.upperdir),
            workdir: opt_chars(self.workdir),
            source: self.source@,
            partition_name: self.partition_name@,
            truncated: self.truncated,
        }
    }
}

pub open spec fn op_models(v: Seq<OverlayOperation>) -> Seq<OpModel> {
    Seq::new(v.len(), |i: int| v[i]@)
}

/// What one overlay mount has to satisfy: between 1 and 128 layers, none
/// twice, at most 3000 bytes when joined, and a writable layer only
/// together with its scratch directory.
pub open spec fn op_well_formed(op: OpModel) -> bool {
    &&& 1 <= op.lowerdirs.len() <= MAX_LOWERDIRS
    &&& joined_bytes(op.lowerdirs) <= MAX_LOWERDIR_BYTES
    &&& op.lowerdirs.no_duplicates()
    &&& (op.upperdir is Some <==> op.workdir is Some)
}

/// The mounts come in the order of their targets.
pub open spec fn sorted_by_target(ops: Seq<OpModel>) -> bool {
    forall|i: int, j: int|
        0 <= i < j < ops.len() ==> lex_le((#[trigger] ops[i]).target, (#[trigger] ops[j]).target)
}

#[derive(Debug)]
pub struct MountPlan {
    pub overlay_ops: Vec<OverlayOperation>,
    pub magic_module_paths: Vec<String>,
    pub overlay_module_ids: Vec<String>,
    pub magic_module_ids: Vec<String>,
}

impl Default for MountPlan {
    fn default() -> (r: Self)
        ensures
            r.overlay_ops@.len() == 0,
            r.magic_module_paths@.len() == 0,
            r.overlay_module_ids@.len() == 0,
            r.magic_module_ids@.len() == 0,
    {
        MountPlan {
            overlay_ops: Vec::new(),
            magic_module_paths: Vec::new(),
            overlay_module_ids: Vec::new(),
            magic_module_ids: Vec::new(),
        }
    }
}

/// What the storage holds for one module.
pub struct ModuleContent {
    /// Whether the module's content directory is there.
    pub in_storage: bool,
    /// The partition directories of the module that hold at least one
    /// entry.
    pub populated: Vec<String>,
}

pub ghost struct ContentModel {
    pub in_storage: bool,
    pub populated: Seq<Seq<char>>,
}

impl View for ModuleContent {
    type V = ContentModel;

    open spec fn view(&self) -> ContentModel {
        ContentModel { in_storage: self.in_storage, populated: views(self.populated@) }
    }
}

pub open spec fn content_models(v: Seq<ModuleContent>) -> Seq<ContentModel> {
    Seq::new(v.len(), |i: int| v[i]@)
}

/// What the live system shows for one partition.
pub struct TargetProbe {
    pub partition: String,
    /// The canonical form of `/` + partition; `None` where the path is
    /// missing or cannot be resolved.
    pub resolved: Option<String>,
    /// Whether the resolved path is a directory.
    pub is_dir: bool,
    /// Whether the staging area holds an upper directory for the partition.
    pub upper_exists: bool,
    /// Whether the staging area holds a work directory for the partition.
    pub work_exists: bool,
}

pub ghost struct ProbeModel {
    pub partition: Seq<char>,
    pub resolved: Option<Seq<char>>,
    pub is_dir: bool,
    pub upper_exists: bool,
    pub work_exists: bool,
}

impl View for TargetProbe {
    type V = ProbeModel;

    open spec fn view(&self) -> ProbeModel {
        ProbeModel {
            partition: self.partition@,
            resolved: opt_chars(self.resolved),
            is_dir: self.is_dir,
            upper_exists: self.upper_exists,
            work_exists: self.work_exists,
        }
    }
}

pub open spec fn probe_models(v: Seq<TargetProbe>) -> Seq<ProbeModel> {
    Seq::new(v.len(), |i: int| v[i]@)
}

pub open spec fn probe_names(v: Seq<ProbeModel>) -> Seq<Seq<char>> {
    Seq::new(v.len(), |i: int| v[i].partition)
}

/// The partitions that a plan covers: the built-in ones, then the
/// configured ones that are not among them, each once.
pub open spec fn spec_target_partitions(user: Seq<Seq<char>>) -> Seq<Seq<char>> {
    append_new(builtin_partitions(), user, user.len() as int)
}

/// A module that asks for the magic mount.
pub open spec fn is_magic(m: ModuleModel) -> bool {
    m.mode == "magic"@
}

/// Whether one of the partitions is populated.
pub open spec fn populated_any(c: ContentModel, parts: Seq<Seq<char>>) -> bool {
    exists|i: int| 0 <= i < parts.len() && c.populated.contains(#[trigger] parts[i])
}

/// A module that the magic mount takes: it asks for it and holds content.
pub open spec fn magic_participant(m: ModuleModel, c: ContentModel, parts: Seq<Seq<char>>) -> bool {
    is_magic(m) && populated_any(c, parts)
}

/// A module that takes part in the overlay mounts: it does not ask for the
/// magic mount, its content is in the storage, and it holds content.
pub open spec fn overlay_participant(
    m: ModuleModel,
    c: ContentModel,
    parts: Seq<Seq<char>>,
) -> bool {
    !is_magic(m) && c.in_storage && populated_any(c, parts)
}

/// Whether the module has a layer for the partition.
pub open spec fn contributes(m: ModuleModel, c: ContentModel, part: Seq<char>) -> bool {
    !is_magic(m) && c.in_storage && c.populated.contains(part)
}

/// Where a module's layer for a partition lies in the storage.
pub open spec fn layer_path(root: Seq<char>, id: Seq<char>, part: Seq<char>) -> Seq<char> {
    spec_join(spec_join(root, id), part)
}

/// The layers of a partition from the first `k` modules, in their order,
/// none twice.
pub open spec fn layers_for(
    mods: Seq<ModuleModel>,
    contents: Seq<ContentModel>,
    root: Seq<char>,
    part: Seq<char>,
    k: int,
) -> Seq<Seq<char>>
    decreases k,
{
    if k <= 0 || k > mods.len() || k > contents.len() {
        Seq::empty()
    } else {
        let prev = layers_for(mods, contents, root, part, k - 1);
        let layer = layer_path(root, mods[k - 1].id, part);
        if contributes(mods[k - 1], contents[k - 1], part) && !prev.contains(layer) {
            prev.push(layer)
        } else {
            prev
        }
    }
}

/// Where the writable layer of a partition lies in the staging area.
pub open spec fn staging_path(part: Seq<char>, leaf: Seq<char>) -> Seq<char> {
    spec_join(spec_join(SYSTEM_RW_DIR@, part), leaf)
}

/// The overlay mount of a partition, where one is made: the partition has
/// layers, its target resolves to a directory, and at least one layer fits
/// the limits. Layers beyond the limits are cut from the tail, and the
/// mount says so. The writable layer is named where the staging area holds
/// both of its directories.
pub open spec fn op_for(
    part: Seq<char>,
    layers: Seq<Seq<char>>,
    probes: Seq<ProbeModel>,
    source: Seq<char>,
) -> Option<OpModel> {
    let p = first_pos(probe_names(probes), part);
    if layers.len() == 0 || !(0 <= p < probes.len()) {
        None
    } else if probes[p].resolved is None || !probes[p].is_dir || capped(layers).len() == 0 {
        None
    } else {
        let staged = probes[p].upper_exists && probes[p].work_exists;
        Some(
            OpModel {
                target: probes[p].resolved->0,
                lowerdirs: capped(layers),
                upperdir: if staged {
                    Some(staging_path(part, "upperdir"@))
                } else {
                    None
                },
                workdir: if staged {
                    Some(staging_path(part, "workdir"@))
                } else {
                    None
                },
                source,
                partition_name: part,
                truncated: capped(layers).len() < layers.len(),
            },
        )
    }
}

/// The mounts of the first `k` partitions, in the order of the partitions.
pub open spec fn raw_ops(
    parts: Seq<Seq<char>>,
    mods: Seq<ModuleModel>,
    contents: Seq<ContentModel>,
    root: Seq<char>,
    probes: Seq<ProbeModel>,
    source: Seq<char>,
    k: int,
) -> Seq<OpModel>
    decreases k,
{
    if k <= 0 || k > parts.len() {
        Seq::empty()
    } else {
        let prev = raw_ops(parts, mods, contents, root, probes, source, k - 1);
        match op_for(
            parts[k - 1],
            layers_for(mods, contents, root, parts[k - 1], mods.len() as int),
            probes,
            source,
        ) {
            Some(op) => prev.push(op),
            None => prev,
        }
    }
}

/// Where a mount goes into a sorted list: before the first mount whose
/// target sorts after its own.
pub open spec fn insert_pos(ops: Seq<OpModel>, target: Seq<char>) -> int
    decreases ops.len(),
{
    if ops.len() == 0 {
        0
    } else {
        let p = insert_pos(ops.drop_last(), target);
        if p < ops.len() - 1 {
            p
        } else if lex_lt(target, ops.last().target) {
            ops.len() - 1
        } else {
            ops.len() as int
        }
    }
}

/// The first `k` mounts, put in the order of their targets; mounts with
/// the same target keep their order.
pub open spec fn sort_ops(ops: Seq<OpModel>, k: int) -> Seq<OpModel>
    decreases k,
{
    if k <= 0 || k > ops.len() {
        Seq::empty()
    } else {
        let prev = sort_ops(ops, k - 1);
        prev.insert(insert_pos(prev, ops[k - 1].target), ops[k - 1])
    }
}

pub proof fn lemma_insert_pos(ops: Seq<OpModel>, target: Seq<char>)
    ensures
        0 <= insert_pos(ops, target) <= ops.len(),
        insert_pos(ops, target) < ops.len() ==> lex_lt(target, ops[insert_pos(ops, target)].target),
        forall|k: int|
            0 <= k < insert_pos(ops, target) ==> !lex_lt(target, (#[trigger] ops[k]).target),
    decreases ops.len(),
{
    if ops.len() > 0 {
        lemma_insert_pos(ops.drop_last(), target);
        assert forall|k: int| 0 <= k < insert_pos(ops, target) implies !lex_lt(
            target,
            (#[trigger] ops[k]).target,
        ) by {
            if k < ops.len() - 1 {
                assert(ops.drop_last()[k] == ops[k]);
            }
        }
    }
}

proof fn lemma_insert_pos_prefix(ops: Seq<OpModel>, target: Seq<char>, n: int)
    requires
        0 <= n <= ops.len(),
        insert_pos(ops.subrange(0, n), target) < n,
    ensures
        insert_pos(ops, target) == insert_pos(ops.subrange(0, n), target),
    decreases ops.len() - n,
{
    if n < ops.len() {
        let next = ops.subrange(0, n + 1);
        assert(next.drop_last() =~= ops.subrange(0, n));
        lemma_insert_pos_prefix(ops, target, n + 1);
    } else {
        assert(ops.subrange(0, n) =~= ops);
    }
}

/// Sorting keeps every mount, adds none, and leaves them in the order of
/// their targets.
pub proof fn lemma_sort_ops(ops: Seq<OpModel>, k: int)
    requires
        0 <= k <= ops.len(),
    ensures
        sorted_by_target(sort_ops(ops, k)),
        sort_ops(ops, k).to_multiset() == ops.subrange(0, k).to_multiset(),
        sort_ops(ops, k).len() == k,
    decreases k,
{
    broadcast use vstd::seq_lib::group_to_multiset_ensures;

    if k <= 0 {
        assert(ops.subrange(0, 0) =~= Seq::<OpModel>::empty());
        assert(sort_ops(ops, k) =~= Seq::<OpModel>::empty());
    } else {
        lemma_sort_ops(ops, k - 1);
        let prev = sort_ops(ops, k - 1);
        let op = ops[k - 1];
        let p = insert_pos(prev, op.target);
        lemma_insert_pos(prev, op.target);
        let cur = prev.insert(p, op);
        assert(ops.subrange(0, k) =~= ops.subrange(0, k - 1).push(op));
        assert forall|i: int, j: int| 0 <= i < j < cur.len() implies lex_le(
            (#[trigger] cur[i]).target,
            (#[trigger] cur[j]).target,
        ) by {
            if j < p {
                assert(lex_le(prev[i].target, prev[j].target));
            } else if j == p {
                assert(!lex_lt(op.target, prev[i].target));
            } else if i < p {
                assert(lex_le(prev[i].target, prev[j - 1].target));
            } else if i == p {
                assert(lex_lt(op.target, prev[p].target));
                lemma_lex_asym(op.target, prev[p].target);
                if j - 1 > p {
                    assert(lex_le(prev[p].target, prev[j - 1].target));
                    lemma_lex_le_trans(op.target, prev[p].target, prev[j - 1].target);
                }
            } else {
                assert(lex_le(prev[i - 1].target, prev[j - 1].target));
            }
        }
    }
}

/// A sorted list holds exactly the mounts that went in.
pub proof fn lemma_sort_ops_members(ops: Seq<OpModel>, k: int, op: OpModel)
    requires
        0 <= k <= ops.len(),
    ensures
        sort_ops(ops, k).contains(op) <==> ops.subrange(0, k).contains(op),
{
    broadcast use vstd::seq_lib::group_to_multiset_ensures;

    lemma_sort_ops(ops, k);
    let a = sort_ops(ops, k);
    let b = ops.subrange(0, k);
    assert(a.contains(op) <==> a.to_multiset().count(op) > 0);
    assert(b.contains(op) <==> b.to_multiset().count(op) > 0);
}


/// The layers of a partition hold nothing twice.
pub proof fn lemma_layers_distinct(
    mods: Seq<ModuleModel>,
    contents: Seq<ContentModel>,
    root: Seq<char>,
    part: Seq<char>,
    k: int,
)
    ensures
        layers_for(mods, contents, root, part, k).no_duplicates(),
    decreases k,
{
    if !(k <= 0 || k > mods.len() || k > contents.len()) {
        lemma_layers_distinct(mods, contents, root, part, k - 1);
    }
}

/// Every mount that is planned for a partition is well formed, and its
/// target is what the partition resolves to.
pub proof fn lemma_op_for(
    part: Seq<char>,
    layers: Seq<Seq<char>>,
    probes: Seq<ProbeModel>,
    source: Seq<char>,
)
    requires
        layers.no_duplicates(),
    ensures
        op_for(part, layers, probes, source) matches Some(op) ==> op_well_formed(op)
            && op.partition_name == part && exists|p: int|
            0 <= p < probes.len() && (#[trigger] probes[p]).partition == part && probes[p].is_dir
                && probes[p].resolved == Some(op.target),
{
    lemma_capped(layers);
    crate::text::lemma_first_pos(probe_names(probes), part);
    if op_for(part, layers, probes, source) is Some {
        let p = first_pos(probe_names(probes), part);
        assert(probe_names(probes)[p] == probes[p].partition);
    }
}

/// Every mount of the unsorted plan is well formed.
pub proof fn lemma_raw_ops(
    parts: Seq<Seq<char>>,
    mods: Seq<ModuleModel>,
    contents: Seq<ContentModel>,
    root: Seq<char>,
    probes: Seq<ProbeModel>,
    source: Seq<char>,
    k: int,
)
    ensures
        forall|i: int|
            0 <= i < raw_ops(parts, mods, contents, root, probes, source, k).len()
                ==> op_well_formed(
                #[trigger] raw_ops(parts, mods, contents, root, probes, source, k)[i],
            ),
    decreases k,
{
    if !(k <= 0 || k > parts.len()) {
        lemma_raw_ops(parts, mods, contents, root, probes, source, k - 1);
        let layers = layers_for(mods, contents, root, parts[k - 1], mods.len() as int);
        lemma_layers_distinct(mods, contents, root, parts[k - 1], mods.len() as int);
        lemma_op_for(parts[k - 1], layers, probes, source);
        let prev = raw_ops(parts, mods, contents, root, probes, source, k - 1);
        let cur = raw_ops(parts, mods, contents, root, probes, source, k);
        assert forall|i: int| 0 <= i < cur.len() implies op_well_formed(#[trigger] cur[i]) by {
            if i < prev.len() {
                assert(cur[i] == prev[i]);
            }
        }
    }
}

/// The partitions that a plan covers.
pub fn target_partitions(config: &Config) -> (r: Vec<String>)
    ensures
        views(r@) == spec_target_partitions(views(config.partitions@)),
{
    let mut r = builtin_partition_names();
    extend_new(&mut r, &config.partitions);
    r
}

/// Whether the module holds content for one of the partitions.
pub fn has_meaningful_content(content: &ModuleContent, partitions: &Vec<String>) -> (r: bool)
    ensures
        r == populated_any(content@, views(partitions@)),
{
    let mut i: usize = 0;
    while i < partitions.len()
        invariant
            i <= partitions.len(),
            forall|k: int|
                0 <= k < i ==> !views(content.populated@).contains(
                    #[trigger] views(partitions@)[k],
                ),
        decreases partitions.len() - i,
    {
        assert(views(partitions@)[i as int] == partitions[i as int]@);
        if contains_string(&content.populated, &partitions[i]) {
            return true;
        }
        i = i + 1;
    }
    false
}

/// The layers that the modules hold for one partition.
fn collect_layers(
    modules: &Vec<Module>,
    contents: &Vec<ModuleContent>,
    storage_root: &str,
    part: &String,
) -> (r: Vec<String>)
    requires
        modules.len() == contents.len(),
    ensures
        views(r@) == layers_for(
            module_models(modules@),
            content_models(contents@),
            storage_root@,
            part@,
            modules.len() as int,
        ),
{
    let magic = owned("magic");
    let mut r: Vec<String> = Vec::new();
    let mut i: usize = 0;
    assert(views(r@) =~= Seq::<Seq<char>>::empty());
    while i < modules.len()
        invariant
            i <= modules.len(),
            modules.len() == contents.len(),
            magic@ == "magic"@,
            views(r@) == layers_for(
                module_models(modules@),
                content_models(contents@),
                storage_root@,
                part@,
                i as int,
            ),
        decreases modules.len() - i,
    {
        let m = &modules[i];
        let c = &contents[i];
        assert(module_models(modules@)[i as int] == m@);
        assert(content_models(contents@)[i as int] == c@);
        if !(m.mode == magic) && c.in_storage && contains_string(&c.populated, part) {
            let base = join_path(storage_root, m.id.as_str());
            let layer = join_path(base.as_str(), part.as_str());
            if !contains_string(&r, &layer) {
                let ghost before = views(r@);
                r.push(layer);
                assert(views(r@) =~= before.push(layer_path(storage_root@, m.id@, part@)));
            }
        }
        i = i + 1;
    }
    r
}

/// Index of the first probe for the partition.
pub fn find_probe(probes: &Vec<TargetProbe>, part: &String) -> (r: Option<usize>)
    ensures
        match r {
            Some(i) => i < probes.len() && i == first_pos(
                probe_names(probe_models(probes@)),
                part@,
            ),
            None => first_pos(probe_names(probe_models(probes@)), part@) == probes.len(),
        },
{
    let ghost names = probe_names(probe_models(probes@));
    let mut i: usize = 0;
    while i < probes.len()
        invariant
            i <= probes.len(),
            names == probe_names(probe_models(probes@)),
            first_pos(names.subrange(0, i as int), part@) == i,
        decreases probes.len() - i,
    {
        proof {
            let next = names.subrange(0, i + 1);
            assert(next.drop_last() =~= names.subrange(0, i as int));
            assert(next.last() == probes[i as int].partition@);
        }
        if probes[i].partition == *part {
            proof {
                lemma_first_pos_prefix(names, part@, i + 1);
            }
            return Some(i);
        }
        i = i + 1;
    }
    assert(names.subrange(0, probes.len() as int) =~= names);
    None
}

/// The overlay mount for one partition, where one is made.
pub fn plan_partition(
    part: &String,
    layers: &Vec<String>,
    probes: &Vec<TargetProbe>,
    source: &String,
) -> (r: Option<OverlayOperation>)
    ensures
        match r {
            Some(op) => op_for(part@, views(layers@), probe_models(probes@), source@) == Some(op@),
            None => op_for(part@, views(layers@), probe_models(probes@), source@) is None,
        },
{
    if layers.len() == 0 {
        return None;
    }
    let p = match find_probe(probes, part) {
        Some(p) => p,
        None => {
            return None;
        },
    };
    let probe = &probes[p];
    assert(probe_models(probes@)[p as int] == probe@);
    let target = match &probe.resolved {
        Some(t) => t.clone(),
        None => {
            return None;
        },
    };
    if !probe.is_dir {
        return None;
    }
    let (lowerdirs, truncated) = truncate_lowerdirs(layers);
    if lowerdirs.len() == 0 {
        return None;
    }
    let staged = probe.upper_exists && probe.work_exists;
    let (upperdir, workdir) = if staged {
        let base = join_path(SYSTEM_RW_DIR, part.as_str());
        (Some(join_path(base.as_str(), "upperdir")), Some(join_path(base.as_str(), "workdir")))
    } else {
        (None, None)
    };
    Some(
        OverlayOperation {
            target,
            lowerdirs,
            upperdir,
            workdir,
            source: source.clone(),
            partition_name: part.clone(),
            truncated,
        },
    )
}

/// Puts the mounts in the order of their targets; mounts with the same
/// target keep their order.
pub fn sort_operations(raw: Vec<OverlayOperation>) -> (r: Vec<OverlayOperation>)
    ensures
        op_models(r@) == sort_ops(op_models(raw@), raw.len() as int),
        sorted_by_target(op_models(r@)),
        op_models(r@).to_multiset() == op_models(raw@).to_multiset(),
{
    let ghost all = op_models(raw@);
    let ghost n = all.len() as int;
    let ghost mut k: int = 0;
    let mut rest = raw;
    let mut out: Vec<OverlayOperation> = Vec::new();
    assert(op_models(out@) =~= sort_ops(all, 0));
    assert(op_models(rest@) =~= all.subrange(0, n));
    while rest.len() > 0
        invariant
            0 <= k <= n,
            n == all.len(),
            op_models(rest@) == all.subrange(k, n),
            op_models(out@) == sort_ops(all, k),
        decreases rest.len(),
    {
        let ghost rest0 = op_models(rest@);
        let ghost out0 = op_models(out@);
        assert(rest0.len() == rest.len());
        assert(all.subrange(k, n).len() == n - k);
        assert(rest0[0] == rest[0]@);
        let op = rest.remove(0);
        assert(op@ == all[k]);
        assert(op_models(rest@) =~= rest0.remove(0));
        assert(op_models(rest@) =~= all.subrange(k + 1, n));
        let mut p: usize = 0;
        assert(out0.subrange(0, 0) =~= Seq::<OpModel>::empty());
        let mut found = false;
        while p < out.len() && !found
            invariant
                p <= out.len(),
                out0 == op_models(out@),
                insert_pos(out0.subrange(0, p as int), op.target@) == p,
                found ==> p < out.len() && insert_pos(out0, op.target@) == p,
            decreases out.len() - p + (if found { 0int } else { 1int }),
        {
            proof {
                let next = out0.subrange(0, p + 1);
                assert(next.drop_last() =~= out0.subrange(0, p as int));
                assert(next.last() == out[p as int]@);
            }
            if str_lt(&op.target, &out[p].target) {
                found = true;
                proof {
                    lemma_insert_pos_prefix(out0, op.target@, p + 1);
                }
            } else {
                p = p + 1;
            }
        }
        proof {
            if !found {
                assert(out0.subrange(0, p as int) =~= out0);
            }
        }
        let ghost opm = op@;
        out.insert(p, op);
        assert(op_models(out@) =~= out0.insert(p as int, opm));
        proof {
            k = k + 1;
        }
    }
    proof {
        lemma_sort_ops(all, n);
        assert(all.subrange(0, n) =~= all);
    }
    out
}


/// Why no plan could be made.
#[derive(Debug, PartialEq, Eq, Clone, Copy, Structural)]
pub enum PlanError {
    /// The storage was not probed for every module: the two lists differ in
    /// length.
    ProbeMismatch,
}

/// Whether, for each module, the magic mount takes it.
pub open spec fn magic_flags(
    mods: Seq<ModuleModel>,
    contents: Seq<ContentModel>,
    parts: Seq<Seq<char>>,
) -> Seq<bool> {
    Seq::new(mods.len(), |i: int| magic_participant(mods[i], contents[i], parts))
}

/// Whether, for each module, it takes part in the overlay mounts.
pub open spec fn overlay_flags(
    mods: Seq<ModuleModel>,
    contents: Seq<ContentModel>,
    parts: Seq<Seq<char>>,
) -> Seq<bool> {
    Seq::new(mods.len(), |i: int| overlay_participant(mods[i], contents[i], parts))
}

pub open spec fn module_ids(mods: Seq<ModuleModel>) -> Seq<Seq<char>> {
    Seq::new(mods.len(), |i: int| mods[i].id)
}

pub open spec fn module_sources(mods: Seq<ModuleModel>) -> Seq<Seq<char>> {
    Seq::new(mods.len(), |i: int| mods[i].source_path)
}

/// What a plan is, given what it was made from.
pub open spec fn planned(
    plan: MountPlan,
    parts: Seq<Seq<char>>,
    mods: Seq<ModuleModel>,
    contents: Seq<ContentModel>,
    root: Seq<char>,
    probes: Seq<ProbeModel>,
    source: Seq<char>,
) -> bool {
    let raw = raw_ops(parts, mods, contents, root, probes, source, parts.len() as int);
    &&& op_models(plan.overlay_ops@) == sort_ops(raw, raw.len() as int)
    &&& sorted_by_target(op_models(plan.overlay_ops@))
    &&& forall|i: int|
        0 <= i < plan.overlay_ops@.len() ==> op_well_formed(
            #[trigger] op_models(plan.overlay_ops@)[i],
        )
    &&& strictly_sorted(views(plan.magic_module_paths@))
    &&& strictly_sorted(views(plan.overlay_module_ids@))
    &&& strictly_sorted(views(plan.magic_module_ids@))
    &&& forall|t: Seq<char>|
        views(plan.magic_module_paths@).contains(t) <==> exists|i: int|
            0 <= i < mods.len() && magic_participant(mods[i], contents[i], parts) && (
            #[trigger] mods[i]).source_path == t
    &&& forall|t: Seq<char>|
        views(plan.magic_module_ids@).contains(t) <==> exists|i: int|
            0 <= i < mods.len() && magic_participant(mods[i], contents[i], parts) && (
            #[trigger] mods[i]).id == t
    &&& forall|t: Seq<char>|
        views(plan.overlay_module_ids@).contains(t) <==> exists|i: int|
            0 <= i < mods.len() && overlay_participant(mods[i], contents[i], parts) && (
            #[trigger] mods[i]).id == t
}

proof fn lemma_selected_ids(mods: Seq<ModuleModel>, flags: Seq<bool>, t: Seq<char>)
    requires
        flags.len() == mods.len(),
    ensures
        selected(module_ids(mods), flags, mods.len() as int).contains(t) <==> exists|i: int|
            0 <= i < mods.len() && flags[i] && (#[trigger] mods[i]).id == t,
{
    let keys = module_ids(mods);
    lemma_selected(keys, flags, mods.len() as int, t);
    if selected(keys, flags, mods.len() as int).contains(t) {
        let i = choose|i: int| 0 <= i < mods.len() && flags[i] && #[trigger] keys[i] == t;
        assert(mods[i].id == t);
    }
    if exists|i: int| 0 <= i < mods.len() && flags[i] && (#[trigger] mods[i]).id == t {
        let i = choose|i: int| 0 <= i < mods.len() && flags[i] && (#[trigger] mods[i]).id == t;
        assert(keys[i] == t);
    }
}

proof fn lemma_selected_sources(mods: Seq<ModuleModel>, flags: Seq<bool>, t: Seq<char>)
    requires
        flags.len() == mods.len(),
    ensures
        selected(module_sources(mods), flags, mods.len() as int).contains(t) <==> exists|i: int|
            0 <= i < mods.len() && flags[i] && (#[trigger] mods[i]).source_path == t,
{
    let keys = module_sources(mods);
    lemma_selected(keys, flags, mods.len() as int, t);
    if selected(keys, flags, mods.len() as int).contains(t) {
        let i = choose|i: int| 0 <= i < mods.len() && flags[i] && #[trigger] keys[i] == t;
        assert(mods[i].source_path == t);
    }
    if exists|i: int| 0 <= i < mods.len() && flags[i] && (#[trigger] mods[i]).source_path == t {
        let i = choose|i: int|
            0 <= i < mods.len() && flags[i] && (#[trigger] mods[i]).source_path == t;
        assert(keys[i] == t);
    }
}

/// Makes the mount plan. Modules that ask for the magic mount and hold
/// content go to the magic mount. Of the others, each one whose content is
/// in the storage lends its populated partition directories as layers, in
/// the order of the modules. Each partition with layers whose target
/// resolves to a directory gets one overlay mount; the mounts come sorted by
/// target. The three lists of names are sorted and hold nothing twice.
///
/// Fails only where `contents` does not line up with `modules`.
pub fn generate(
    config: &Config,
    modules: &Vec<Module>,
    storage_root: &str,
    contents: &Vec<ModuleContent>,
    probes: &Vec<TargetProbe>,
) -> (r: Result<MountPlan, PlanError>)
    ensures
        r is Err <==> contents.len() != modules.len(),
        r matches Ok(plan) ==> planned(
            plan,
            spec_target_partitions(views(config.partitions@)),
            module_models(modules@),
            content_models(contents@),
            storage_root@,
            probe_models(probes@),
            config.mountsource@,
        ),
{
    if contents.len() != modules.len() {
        return Err(PlanError::ProbeMismatch);
    }
    let parts = target_partitions(config);
    let magic = owned("magic");
    let ghost pv = views(parts@);
    let ghost mods = module_models(modules@);
    let ghost cs = content_models(contents@);
    let ghost pm = probe_models(probes@);
    let ghost mflags = magic_flags(mods, cs, pv);
    let ghost oflags = overlay_flags(mods, cs, pv);
    let mut magic_paths: Vec<String> = Vec::new();
    let mut magic_ids: Vec<String> = Vec::new();
    let mut overlay_ids: Vec<String> = Vec::new();
    let mut i: usize = 0;
    assert(views(magic_paths@) =~= Seq::<Seq<char>>::empty());
    while i < modules.len()
        invariant
            i <= modules.len(),
            modules.len() == contents.len(),
            magic@ == "magic"@,
            pv == views(parts@),
            mods == module_models(modules@),
            cs == content_models(contents@),
            mflags == magic_flags(mods, cs, pv),
            oflags == overlay_flags(mods, cs, pv),
            views(magic_paths@) == selected(module_sources(mods), mflags, i as int),
            views(magic_ids@) == selected(module_ids(mods), mflags, i as int),
            views(overlay_ids@) == selected(module_ids(mods), oflags, i as int),
        decreases modules.len() - i,
    {
        let m = &modules[i];
        let c = &contents[i];
        assert(mods[i as int] == m@);
        assert(cs[i as int] == c@);
        let any = has_meaningful_content(c, &parts);
        if m.mode == magic {
            if any {
                let ghost paths0 = views(magic_paths@);
                let ghost ids0 = views(magic_ids@);
                magic_paths.push(m.source_path.clone());
                magic_ids.push(m.id.clone());
                assert(views(magic_paths@) =~= paths0.push(m.source_path@));
                assert(views(magic_ids@) =~= ids0.push(m.id@));
            }
        } else if c.in_storage && any {
            let ghost overlay0 = views(overlay_ids@);
            overlay_ids.push(m.id.clone());
            assert(views(overlay_ids@) =~= overlay0.push(m.id@));
        }
        i = i + 1;
    }
    let mut raw: Vec<OverlayOperation> = Vec::new();
    let mut j: usize = 0;
    assert(op_models(raw@) =~= Seq::<OpModel>::empty());
    while j < parts.len()
        invariant
            j <= parts.len(),
            modules.len() == contents.len(),
            pv == views(parts@),
            mods == module_models(modules@),
            cs == content_models(contents@),
            pm == probe_models(probes@),
            op_models(raw@) == raw_ops(
                pv,
                mods,
                cs,
                storage_root@,
                pm,
                config.mountsource@,
                j as int,
            ),
        decreases parts.len() - j,
    {
        assert(pv[j as int] == parts[j as int]@);
        let layers = collect_layers(modules, contents, storage_root, &parts[j]);
        match plan_partition(&parts[j], &layers, probes, &config.mountsource) {
            Some(op) => {
                let ghost r0 = op_models(raw@);
                let ghost opm = op@;
                raw.push(op);
                assert(op_models(raw@) =~= r0.push(opm));
            },
            None => {},
        }
        j = j + 1;
    }
    let ghost rawm = op_models(raw@);
    let overlay_ops = sort_operations(raw);
    let plan = MountPlan {
        overlay_ops,
        magic_module_paths: sorted_unique(&magic_paths),
        overlay_module_ids: sorted_unique(&overlay_ids),
        magic_module_ids: sorted_unique(&magic_ids),
    };
    proof {
        lemma_raw_ops(pv, mods, cs, storage_root@, pm, config.mountsource@, pv.len() as int);
        let sorted = op_models(plan.overlay_ops@);
        lemma_sort_ops(rawm, rawm.len() as int);
        assert(rawm.subrange(0, rawm.len() as int) =~= rawm);
        assert forall|i: int| 0 <= i < plan.overlay_ops@.len() implies op_well_formed(
            #[trigger] sorted[i],
        ) by {
            lemma_sort_ops_members(rawm, rawm.len() as int, sorted[i]);
            assert(sorted.contains(sorted[i]));
            let k = choose|k: int| 0 <= k < rawm.len() && rawm[k] == sorted[i];
            assert(op_well_formed(rawm[k]));
        }
        assert forall|t: Seq<char>|
            views(plan.magic_module_paths@).contains(t) <==> exists|i: int|
                0 <= i < mods.len() && magic_participant(mods[i], cs[i], pv) && (
                #[trigger] mods[i]).source_path == t by {
            lemma_selected_sources(mods, mflags, t);
        }
        assert forall|t: Seq<char>|
            views(plan.magic_module_ids@).contains(t) <==> exists|i: int|
                0 <= i < mods.len() && magic_participant(mods[i], cs[i], pv) && (
                #[trigger] mods[i]).id == t by {
            lemma_selected_ids(mods, mflags, t);
        }
        assert forall|t: Seq<char>|
            views(plan.overlay_module_ids@).contains(t) <==> exists|i: int|
                0 <= i < mods.len() && overlay_participant(mods[i], cs[i], pv) && (
                #[trigger] mods[i]).id == t by {
            lemma_selected_ids(mods, oflags, t);
        }
    }
    Ok(plan)
}

} // verus!
