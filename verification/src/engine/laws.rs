//! What holds of every plan, whatever the modules and the device.

use crate::engine::executor::plan_consistent;
use crate::engine::inventory::ModuleModel;
use crate::engine::planner::{
    is_magic, layers_for, lemma_layers_distinct, lemma_op_for, lemma_sort_ops,
    lemma_sort_ops_members, magic_participant, op_for, op_models, op_well_formed,
    overlay_participant, planned, populated_any, raw_ops, sorted_by_target,
    ContentModel, MountPlan, OpModel, ProbeModel,
};
use crate::mount::overlay::{joined_bytes, MAX_LOWERDIRS, MAX_LOWERDIR_BYTES};
use crate::paths::spec_file_name;
use crate::text::{lemma_strictly_sorted_unique, views};
use vstd::prelude::*;

verus! {

/// Every overlay mount of a plan has between 1 and 128 layers, which take
/// at most 3000 bytes when joined, and the mounts come sorted by target.
pub proof fn lemma_plan_within_limits(
    plan: MountPlan,
    parts: Seq<Seq<char>>,
    mods: Seq<ModuleModel>,
    contents: Seq<ContentModel>,
    root: Seq<char>,
    probes: Seq<ProbeModel>,
    source: Seq<char>,
    i: int,
)
    requires
        planned(plan, parts, mods, contents, root, probes, source),
        0 <= i < plan.overlay_ops@.len(),
    ensures
        1 <= op_models(plan.overlay_ops@)[i].lowerdirs.len() <= MAX_LOWERDIRS,
        joined_bytes(op_models(plan.overlay_ops@)[i].lowerdirs) <= MAX_LOWERDIR_BYTES,
        sorted_by_target(op_models(plan.overlay_ops@)),
{
    assert(op_well_formed(op_models(plan.overlay_ops@)[i]));
}

/// Two plans made from the same modules, the same storage and the same
/// device are the same plan: the same mounts in the same order, and the
/// same three lists of names.
pub proof fn lemma_plan_deterministic(
    first: MountPlan,
    second: MountPlan,
    parts: Seq<Seq<char>>,
    mods: Seq<ModuleModel>,
    contents: Seq<ContentModel>,
    root: Seq<char>,
    probes: Seq<ProbeModel>,
    source: Seq<char>,
)
    requires
        planned(first, parts, mods, contents, root, probes, source),
        planned(second, parts, mods, contents, root, probes, source),
    ensures
        op_models(first.overlay_ops@) == op_models(second.overlay_ops@),
        views(first.magic_module_paths@) == views(second.magic_module_paths@),
        views(first.overlay_module_ids@) == views(second.overlay_module_ids@),
        views(first.magic_module_ids@) == views(second.magic_module_ids@),
{
    lemma_strictly_sorted_unique(
        views(first.magic_module_paths@),
        views(second.magic_module_paths@),
    );
    lemma_strictly_sorted_unique(
        views(first.overlay_module_ids@),
        views(second.overlay_module_ids@),
    );
    lemma_strictly_sorted_unique(
        views(first.magic_module_ids@),
        views(second.magic_module_ids@),
    );
}

/// The mount was made for a partition that resolves to its target: some
/// probe of the partition shows a directory at that path.
pub open spec fn resolves_to_target(op: OpModel, probes: Seq<ProbeModel>) -> bool {
    exists|p: int|
        0 <= p < probes.len() && (#[trigger] probes[p]).partition == op.partition_name
            && probes[p].is_dir && probes[p].resolved == Some(op.target)
}

proof fn lemma_raw_targets(
    parts: Seq<Seq<char>>,
    mods: Seq<ModuleModel>,
    contents: Seq<ContentModel>,
    root: Seq<char>,
    probes: Seq<ProbeModel>,
    source: Seq<char>,
    k: int,
)
    ensures
        forall|i: int|
            0 <= i < raw_ops(parts, mods, contents, root, probes, source, k).len()
                ==> resolves_to_target(
                #[trigger] raw_ops(parts, mods, contents, root, probes, source, k)[i],
                probes,
            ),
    decreases k,
{
    if !(k <= 0 || k > parts.len()) {
        lemma_raw_targets(parts, mods, contents, root, probes, source, k - 1);
        let layers = layers_for(mods, contents, root, parts[k - 1], mods.len() as int);
        lemma_layers_distinct(mods, contents, root, parts[k - 1], mods.len() as int);
        lemma_op_for(parts[k - 1], layers, probes, source);
        let prev = raw_ops(parts, mods, contents, root, probes, source, k - 1);
        let cur = raw_ops(parts, mods, contents, root, probes, source, k);
        assert forall|i: int| 0 <= i < cur.len() implies resolves_to_target(
            #[trigger] cur[i],
            probes,
        ) by {
            if i < prev.len() {
                assert(cur[i] == prev[i]);
            } else {
                let op = op_for(parts[k - 1], layers, probes, source)->0;
                assert(cur[i] == op);
                let p = choose|p: int|
                    0 <= p < probes.len() && (#[trigger] probes[p]).partition == parts[k - 1]
                        && probes[p].is_dir && probes[p].resolved == Some(op.target);
                assert(probes[p].partition == op.partition_name);
            }
        }
    }
}

/// The target of every mount of a plan is what its partition resolves to
/// on the device, not the partition's plain name.
pub proof fn lemma_plan_targets(
    plan: MountPlan,
    parts: Seq<Seq<char>>,
    mods: Seq<ModuleModel>,
    contents: Seq<ContentModel>,
    root: Seq<char>,
    probes: Seq<ProbeModel>,
    source: Seq<char>,
    i: int,
)
    requires
        planned(plan, parts, mods, contents, root, probes, source),
        0 <= i < plan.overlay_ops@.len(),
    ensures
        resolves_to_target(op_models(plan.overlay_ops@)[i], probes),
{
    let raw = raw_ops(parts, mods, contents, root, probes, source, parts.len() as int);
    let sorted = op_models(plan.overlay_ops@);
    lemma_raw_targets(parts, mods, contents, root, probes, source, parts.len() as int);
    lemma_sort_ops(raw, raw.len() as int);
    lemma_sort_ops_members(raw, raw.len() as int, sorted[i]);
    assert(raw.subrange(0, raw.len() as int) =~= raw);
    assert(sorted.contains(sorted[i]));
    let k = choose|k: int| 0 <= k < raw.len() && raw[k] == sorted[i];
    assert(resolves_to_target(raw[k], probes));
}

/// A module that holds nothing for any planned partition is in no list of
/// the plan: neither among the overlay modules nor among the magic ones,
/// unless another module shares its name or its directory.
pub proof fn lemma_empty_module_excluded(
    plan: MountPlan,
    parts: Seq<Seq<char>>,
    mods: Seq<ModuleModel>,
    contents: Seq<ContentModel>,
    root: Seq<char>,
    probes: Seq<ProbeModel>,
    source: Seq<char>,
    i: int,
)
    requires
        planned(plan, parts, mods, contents, root, probes, source),
        0 <= i < mods.len(),
        !populated_any(contents[i], parts),
        forall|j: int|
            0 <= j < mods.len() && j != i ==> (#[trigger] mods[j]).id != mods[i].id
                && mods[j].source_path != mods[i].source_path,
    ensures
        !views(plan.overlay_module_ids@).contains(mods[i].id),
        !views(plan.magic_module_ids@).contains(mods[i].id),
        !views(plan.magic_module_paths@).contains(mods[i].source_path),
{
    if views(plan.overlay_module_ids@).contains(mods[i].id) {
        let j = choose|j: int|
            0 <= j < mods.len() && overlay_participant(mods[j], contents[j], parts) && (
            #[trigger] mods[j]).id == mods[i].id;
        assert(j == i);
    }
    if views(plan.magic_module_ids@).contains(mods[i].id) {
        let j = choose|j: int|
            0 <= j < mods.len() && magic_participant(mods[j], contents[j], parts) && (
            #[trigger] mods[j]).id == mods[i].id;
        assert(j == i);
    }
    if views(plan.magic_module_paths@).contains(mods[i].source_path) {
        let j = choose|j: int|
            0 <= j < mods.len() && magic_participant(mods[j], contents[j], parts) && (
            #[trigger] mods[j]).source_path == mods[i].source_path;
        assert(j == i);
    }
}

/// The modules are told apart by their names, and each one's directory
/// bears its name.
pub open spec fn inventory_consistent(mods: Seq<ModuleModel>) -> bool {
    &&& forall|i: int|
        0 <= i < mods.len() ==> spec_file_name((#[trigger] mods[i]).source_path) == Some(
            mods[i].id,
        )
    &&& forall|i: int, j: int|
        0 <= i < j < mods.len() ==> (#[trigger] mods[i]).id != (#[trigger] mods[j]).id
}

/// A plan made from a consistent inventory keeps its two kinds of modules
/// apart, so that after any run no module is counted on both sides.
pub proof fn lemma_plan_consistent(
    plan: MountPlan,
    parts: Seq<Seq<char>>,
    mods: Seq<ModuleModel>,
    contents: Seq<ContentModel>,
    root: Seq<char>,
    probes: Seq<ProbeModel>,
    source: Seq<char>,
)
    requires
        planned(plan, parts, mods, contents, root, probes, source),
        inventory_consistent(mods),
    ensures
        plan_consistent(plan),
{
    assert forall|q: Seq<char>, t: Seq<char>|
        #[trigger] views(plan.magic_module_paths@).contains(q) && spec_file_name(q) == Some(
            t,
        ) implies !(#[trigger] views(plan.overlay_module_ids@).contains(t)) by {
        let i = choose|i: int|
            0 <= i < mods.len() && magic_participant(mods[i], contents[i], parts) && (
            #[trigger] mods[i]).source_path == q;
        assert(mods[i].id == t);
        if views(plan.overlay_module_ids@).contains(t) {
            let j = choose|j: int|
                0 <= j < mods.len() && overlay_participant(mods[j], contents[j], parts) && (
                #[trigger] mods[j]).id == t;
            assert(is_magic(mods[i]) && !is_magic(mods[j]));
            if i < j {
                assert(mods[i].id != mods[j].id);
            } else if j < i {
                assert(mods[j].id != mods[i].id);
            }
        }
    }
}

} // verus!
