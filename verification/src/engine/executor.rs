//! What a run of the plan leaves behind: which modules ended up mounted by
//! overlay, and which by the magic mount.
//!
//! Mounting is the caller's work. It reports which overlay mounts failed
//! and whether the magic mount went through; the bookkeeping is done here.

use crate::engine::planner::{op_models, MountPlan, OpModel};
use crate::paths::{file_name_of, parent_of, spec_file_name, spec_parent};
use crate::text::{contains_string, sorted_unique, strictly_sorted, views};
use vstd::prelude::*;

verus! {

pub struct ExecutionResult {
    pub overlay_module_ids: Vec<String>,
    pub magic_module_ids: Vec<String>,
}

/// The module that a layer belongs to: the name of the directory that
/// holds the layer.
pub open spec fn spec_extract_id(path: Seq<char>) -> Option<Seq<char>> {
    match spec_parent(path) {
        Some(p) => spec_file_name(p),
        None => None,
    }
}

/// The module that a layer belongs to.
pub fn extract_id(path: &str) -> (r: Option<String>)
    ensures
        match r {
            Some(id) => spec_extract_id(path@) == Some(id@),
            None => spec_extract_id(path@) is None,
        },
{
    match parent_of(path) {
        Some(p) => file_name_of(p.as_str()),
        None => None,
    }
}

/// The module directory that a layer lies in.
pub fn extract_module_root(partition_path: &str) -> (r: Option<String>)
    ensures
        match r {
            Some(p) => spec_parent(partition_path@) == Some(p@),
            None => spec_parent(partition_path@) is None,
        },
{
    parent_of(partition_path)
}

/// Whether the overlay mount number `k` is reported as failed.
pub open spec fn op_failed(failed: Seq<bool>, k: int) -> bool {
    0 <= k < failed.len() && failed[k]
}

/// Layer `j` of mount `k` is a layer of a failed mount.
pub open spec fn failed_layer(ops: Seq<OpModel>, failed: Seq<bool>, k: int, j: int) -> bool {
    0 <= k < ops.len() && op_failed(failed, k) && 0 <= j < ops[k].lowerdirs.len()
}

/// A module directory that falls back to the magic mount: the directory of
/// a layer of a failed mount.
pub open spec fn fallback_root(ops: Seq<OpModel>, failed: Seq<bool>, r: Seq<char>) -> bool {
    exists|k: int, j: int| #[trigger]
        failed_layer(ops, failed, k, j) && spec_parent(ops[k].lowerdirs[j]) == Some(r)
}

/// A module that falls back to the magic mount: the owner of a layer of a
/// failed mount.
pub open spec fn fallback_id(ops: Seq<OpModel>, failed: Seq<bool>, t: Seq<char>) -> bool {
    exists|k: int, j: int| #[trigger]
        failed_layer(ops, failed, k, j) && spec_extract_id(ops[k].lowerdirs[j]) == Some(t)
}

/// The same, counting only the mounts before `k`, and of mount `k` the
/// layers before `j`.
pub open spec fn fallback_root_upto(
    ops: Seq<OpModel>,
    failed: Seq<bool>,
    k: int,
    j: int,
    r: Seq<char>,
) -> bool {
    exists|a: int, b: int| #[trigger]
        failed_layer(ops, failed, a, b) && (a < k || (a == k && b < j)) && spec_parent(
            ops[a].lowerdirs[b],
        ) == Some(r)
}

pub open spec fn fallback_id_upto(
    ops: Seq<OpModel>,
    failed: Seq<bool>,
    k: int,
    j: int,
    t: Seq<char>,
) -> bool {
    exists|a: int, b: int| #[trigger]
        failed_layer(ops, failed, a, b) && (a < k || (a == k && b < j)) && spec_extract_id(
            ops[a].lowerdirs[b],
        ) == Some(t)
}

/// A list with one more element holds what it held, and the new element.
pub proof fn lemma_push_contains(before: Seq<Seq<char>>, x: Seq<char>, t: Seq<char>)
    ensures
        before.push(x).contains(t) <==> (before.contains(t) || t == x),
{
    let after = before.push(x);
    if after.contains(t) {
        let i = choose|i: int| 0 <= i < after.len() && after[i] == t;
        if i < before.len() {
            assert(before[i] == t);
        }
    }
    if before.contains(t) {
        let i = choose|i: int| 0 <= i < before.len() && before[i] == t;
        assert(after[i] == t);
    }
    if t == x {
        assert(after[before.len() as int] == t);
    }
}

/// What the failed mounts hand over to the magic mount.
struct Fallback {
    /// The module directories of the failed mounts' layers.
    pub roots: Vec<String>,
    /// The modules that own those layers.
    pub ids: Vec<String>,
}

/// Gathers, from the mounts reported as failed, the module directories and
/// the module names of their layers.
fn collect_fallback(plan: &MountPlan, failed: &Vec<bool>) -> (r: Fallback)
    ensures
        forall|t: Seq<char>|
            views(r.roots@).contains(t) <==> fallback_root(op_models(plan.overlay_ops@), failed@, t),
        forall|t: Seq<char>|
            views(r.ids@).contains(t) <==> fallback_id(op_models(plan.overlay_ops@), failed@, t),
{
    let ghost ops = op_models(plan.overlay_ops@);
    let mut roots: Vec<String> = Vec::new();
    let mut ids: Vec<String> = Vec::new();
    let mut k: usize = 0;
    while k < plan.overlay_ops.len()
        invariant
            k <= plan.overlay_ops.len(),
            ops == op_models(plan.overlay_ops@),
            forall|t: Seq<char>|
                views(roots@).contains(t) <==> fallback_root_upto(ops, failed@, k as int, 0, t),
            forall|t: Seq<char>|
                views(ids@).contains(t) <==> fallback_id_upto(ops, failed@, k as int, 0, t),
        decreases plan.overlay_ops.len() - k,
    {
        let op = &plan.overlay_ops[k];
        assert(ops[k as int] == op@);
        let is_failed = k < failed.len() && failed[k];
        let mut j: usize = 0;
        if is_failed {
            while j < op.lowerdirs.len()
                invariant
                    j <= op.lowerdirs.len(),
                    k < plan.overlay_ops.len(),
                    ops == op_models(plan.overlay_ops@),
                    ops[k as int] == op@,
                    op_failed(failed@, k as int),
                    forall|t: Seq<char>|
                        views(roots@).contains(t) <==> fallback_root_upto(
                            ops,
                            failed@,
                            k as int,
                            j as int,
                            t,
                        ),
                    forall|t: Seq<char>|
                        views(ids@).contains(t) <==> fallback_id_upto(
                            ops,
                            failed@,
                            k as int,
                            j as int,
                            t,
                        ),
                decreases op.lowerdirs.len() - j,
            {
                let layer = &op.lowerdirs[j];
                let ghost lv = layer@;
                assert(ops[k as int].lowerdirs[j as int] == lv);
                assert(failed_layer(ops, failed@, k as int, j as int));
                let ghost roots0 = views(roots@);
                let ghost ids0 = views(ids@);
                let root = extract_module_root(layer.as_str());
                let id = extract_id(layer.as_str());
                match root {
                    Some(p) => {
                        roots.push(p);
                        assert(views(roots@) =~= roots0.push(spec_parent(lv)->0));
                        match id {
                            Some(i) => {
                                ids.push(i);
                                assert(views(ids@) =~= ids0.push(spec_extract_id(lv)->0));
                            },
                            None => {},
                        }
                    },
                    None => {},
                }
                proof {
                    assert forall|t: Seq<char>|
                        views(roots@).contains(t) <==> fallback_root_upto(
                            ops,
                            failed@,
                            k as int,
                            j + 1,
                            t,
                        ) by {
                        if spec_parent(lv) is Some {
                            lemma_push_contains(roots0, spec_parent(lv)->0, t);
                        }
                        if fallback_root_upto(ops, failed@, k as int, j + 1, t) {
                            let (a, b) = choose|a: int, b: int| #[trigger]
                                failed_layer(ops, failed@, a, b) && (a < k || (a == k && b < j
                                    + 1)) && spec_parent(ops[a].lowerdirs[b]) == Some(t);
                            if !(a == k && b == j) {
                                assert(failed_layer(ops, failed@, a, b) && (a < k || (a == k && b
                                    < j)));
                            }
                        }
                        if fallback_root_upto(ops, failed@, k as int, j as int, t) {
                            let (a, b) = choose|a: int, b: int| #[trigger]
                                failed_layer(ops, failed@, a, b) && (a < k || (a == k && b < j))
                                    && spec_parent(ops[a].lowerdirs[b]) == Some(t);
                            assert(failed_layer(ops, failed@, a, b) && (a < k || (a == k && b < j
                                + 1)));
                        }
                    }
                    assert forall|t: Seq<char>|
                        views(ids@).contains(t) <==> fallback_id_upto(
                            ops,
                            failed@,
                            k as int,
                            j + 1,
                            t,
                        ) by {
                        if spec_extract_id(lv) is Some {
                            lemma_push_contains(ids0, spec_extract_id(lv)->0, t);
                        }
                        if fallback_id_upto(ops, failed@, k as int, j + 1, t) {
                            let (a, b) = choose|a: int, b: int| #[trigger]
                                failed_layer(ops, failed@, a, b) && (a < k || (a == k && b < j
                                    + 1)) && spec_extract_id(ops[a].lowerdirs[b]) == Some(t);
                            if !(a == k && b == j) {
                                assert(failed_layer(ops, failed@, a, b) && (a < k || (a == k && b
                                    < j)));
                            }
                        }
                        if fallback_id_upto(ops, failed@, k as int, j as int, t) {
                            let (a, b) = choose|a: int, b: int| #[trigger]
                                failed_layer(ops, failed@, a, b) && (a < k || (a == k && b < j))
                                    && spec_extract_id(ops[a].lowerdirs[b]) == Some(t);
                            assert(failed_layer(ops, failed@, a, b) && (a < k || (a == k && b < j
                                + 1)));
                        }
                    }
                }
                j = j + 1;
            }
        }
        proof {
            assert forall|t: Seq<char>|
                fallback_root_upto(ops, failed@, k + 1, 0, t) <==> fallback_root_upto(
                    ops,
                    failed@,
                    k as int,
                    j as int,
                    t,
                ) by {
                if fallback_root_upto(ops, failed@, k + 1, 0, t) {
                    let (a, b) = choose|a: int, b: int| #[trigger]
                        failed_layer(ops, failed@, a, b) && (a < k + 1 || (a == k + 1 && b < 0))
                            && spec_parent(ops[a].lowerdirs[b]) == Some(t);
                    assert(failed_layer(ops, failed@, a, b) && (a < k || (a == k && b < j)));
                }
                if fallback_root_upto(ops, failed@, k as int, j as int, t) {
                    let (a, b) = choose|a: int, b: int| #[trigger]
                        failed_layer(ops, failed@, a, b) && (a < k || (a == k && b < j))
                            && spec_parent(ops[a].lowerdirs[b]) == Some(t);
                    assert(failed_layer(ops, failed@, a, b) && (a < k + 1 || (a == k + 1 && b
                        < 0)));
                }
            }
            assert forall|t: Seq<char>|
                fallback_id_upto(ops, failed@, k + 1, 0, t) <==> fallback_id_upto(
                    ops,
                    failed@,
                    k as int,
                    j as int,
                    t,
                ) by {
                if fallback_id_upto(ops, failed@, k + 1, 0, t) {
                    let (a, b) = choose|a: int, b: int| #[trigger]
                        failed_layer(ops, failed@, a, b) && (a < k + 1 || (a == k + 1 && b < 0))
                            && spec_extract_id(ops[a].lowerdirs[b]) == Some(t);
                    assert(failed_layer(ops, failed@, a, b) && (a < k || (a == k && b < j)));
                }
                if fallback_id_upto(ops, failed@, k as int, j as int, t) {
                    let (a, b) = choose|a: int, b: int| #[trigger]
                        failed_layer(ops, failed@, a, b) && (a < k || (a == k && b < j))
                            && spec_extract_id(ops[a].lowerdirs[b]) == Some(t);
                    assert(failed_layer(ops, failed@, a, b) && (a < k + 1 || (a == k + 1 && b
                        < 0)));
                }
            }
        }
        k = k + 1;
    }
    proof {
        let n = plan.overlay_ops.len() as int;
        assert forall|t: Seq<char>|
            fallback_root_upto(ops, failed@, n, 0, t) <==> fallback_root(ops, failed@, t) by {
            if fallback_root(ops, failed@, t) {
                let (a, b) = choose|a: int, b: int| #[trigger]
                    failed_layer(ops, failed@, a, b) && spec_parent(ops[a].lowerdirs[b]) == Some(
                        t,
                    );
                assert(failed_layer(ops, failed@, a, b) && (a < n || (a == n && b < 0)));
            }
        }
        assert forall|t: Seq<char>|
            fallback_id_upto(ops, failed@, n, 0, t) <==> fallback_id(ops, failed@, t) by {
            if fallback_id(ops, failed@, t) {
                let (a, b) = choose|a: int, b: int| #[trigger]
                    failed_layer(ops, failed@, a, b) && spec_extract_id(ops[a].lowerdirs[b])
                        == Some(t);
                assert(failed_layer(ops, failed@, a, b) && (a < n || (a == n && b < 0)));
            }
        }
    }
    Fallback { roots, ids }
}


/// The elements of `v` that `drop` does not hold.
fn retain_absent(v: &Vec<String>, drop: &Vec<String>) -> (r: Vec<String>)
    ensures
        forall|t: Seq<char>|
            views(r@).contains(t) <==> (views(v@).contains(t) && !views(drop@).contains(t)),
{
    let mut r: Vec<String> = Vec::new();
    let mut i: usize = 0;
    while i < v.len()
        invariant
            i <= v.len(),
            forall|t: Seq<char>|
                views(r@).contains(t) <==> (views(v@).subrange(0, i as int).contains(t) && !views(
                    drop@,
                ).contains(t)),
        decreases v.len() - i,
    {
        let ghost r0 = views(r@);
        let ghost head = views(v@).subrange(0, i as int);
        let ghost x = v[i as int]@;
        let keep = !contains_string(drop, &v[i]);
        if keep {
            r.push(v[i].clone());
            assert(views(r@) =~= r0.push(x));
        }
        proof {
            assert(views(v@).subrange(0, i + 1) =~= head.push(x));
            assert forall|t: Seq<char>|
                views(r@).contains(t) <==> (views(v@).subrange(0, i + 1).contains(t) && !views(
                    drop@,
                ).contains(t)) by {
                lemma_push_contains(head, x, t);
                lemma_push_contains(r0, x, t);
            }
        }
        i = i + 1;
    }
    assert(views(v@).subrange(0, v.len() as int) =~= views(v@));
    r
}

/// The elements of `a`, then those of `b`.
fn concat_strings(a: &Vec<String>, b: &Vec<String>) -> (r: Vec<String>)
    ensures
        forall|t: Seq<char>|
            views(r@).contains(t) <==> (views(a@).contains(t) || views(b@).contains(t)),
{
    let mut r: Vec<String> = Vec::new();
    let mut i: usize = 0;
    while i < a.len()
        invariant
            i <= a.len(),
            forall|t: Seq<char>|
                views(r@).contains(t) <==> views(a@).subrange(0, i as int).contains(t),
        decreases a.len() - i,
    {
        let ghost r0 = views(r@);
        let ghost head = views(a@).subrange(0, i as int);
        let ghost x = a[i as int]@;
        r.push(a[i].clone());
        proof {
            assert(views(r@) =~= r0.push(x));
            assert(views(a@).subrange(0, i + 1) =~= head.push(x));
            assert forall|t: Seq<char>|
                views(r@).contains(t) <==> views(a@).subrange(0, i + 1).contains(t) by {
                lemma_push_contains(head, x, t);
                lemma_push_contains(r0, x, t);
            }
        }
        i = i + 1;
    }
    assert(views(a@).subrange(0, a.len() as int) =~= views(a@));
    let mut j: usize = 0;
    while j < b.len()
        invariant
            j <= b.len(),
            forall|t: Seq<char>|
                views(r@).contains(t) <==> (views(a@).contains(t) || views(b@).subrange(
                    0,
                    j as int,
                ).contains(t)),
        decreases b.len() - j,
    {
        let ghost r0 = views(r@);
        let ghost head = views(b@).subrange(0, j as int);
        let ghost x = b[j as int]@;
        r.push(b[j].clone());
        proof {
            assert(views(r@) =~= r0.push(x));
            assert(views(b@).subrange(0, j + 1) =~= head.push(x));
            assert forall|t: Seq<char>|
                views(r@).contains(t) <==> (views(a@).contains(t) || views(b@).subrange(
                    0,
                    j + 1,
                ).contains(t)) by {
                lemma_push_contains(head, x, t);
                lemma_push_contains(r0, x, t);
            }
        }
        j = j + 1;
    }
    assert(views(b@).subrange(0, b.len() as int) =~= views(b@));
    r
}

/// A module directory that the magic mount has to take: one that the plan
/// names, or one that a failed overlay mount hands over.
pub open spec fn queued(plan: MountPlan, failed: Seq<bool>, q: Seq<char>) -> bool {
    views(plan.magic_module_paths@).contains(q) || fallback_root(
        op_models(plan.overlay_ops@),
        failed,
        q,
    )
}

/// A module that stays with the overlay mounts: the plan names it, and no
/// failed mount holds a layer of it.
pub open spec fn stays_overlay(plan: MountPlan, failed: Seq<bool>, t: Seq<char>) -> bool {
    views(plan.overlay_module_ids@).contains(t) && !fallback_id(
        op_models(plan.overlay_ops@),
        failed,
        t,
    )
}

/// A module that the magic mount takes: the name of a queued directory.
pub open spec fn goes_magic(plan: MountPlan, failed: Seq<bool>, t: Seq<char>) -> bool {
    exists|q: Seq<char>| #[trigger] queued(plan, failed, q) && spec_file_name(q) == Some(t)
}

/// What is left to do once the overlay mounts were tried.
pub struct Reconciled {
    /// The module directories for the magic mount, sorted, each once.
    pub magic_queue: Vec<String>,
    /// The modules that stay with the overlay mounts, sorted, each once.
    pub overlay_module_ids: Vec<String>,
}

/// Moves the modules of failed overlay mounts over to the magic mount.
pub fn reconcile(plan: &MountPlan, failed: &Vec<bool>) -> (r: Reconciled)
    ensures
        strictly_sorted(views(r.magic_queue@)),
        strictly_sorted(views(r.overlay_module_ids@)),
        forall|q: Seq<char>|
            #[trigger] views(r.magic_queue@).contains(q) <==> queued(*plan, failed@, q),
        forall|t: Seq<char>|
            #[trigger] views(r.overlay_module_ids@).contains(t) <==> stays_overlay(
                *plan,
                failed@,
                t,
            ),
{
    let fallback = collect_fallback(plan, failed);
    let kept = retain_absent(&plan.overlay_module_ids, &fallback.ids);
    let overlay_module_ids = sorted_unique(&kept);
    let all = concat_strings(&plan.magic_module_paths, &fallback.roots);
    let magic_queue = sorted_unique(&all);
    Reconciled { magic_queue, overlay_module_ids }
}

/// The names of the queued module directories.
fn queue_names(queue: &Vec<String>) -> (r: Vec<String>)
    ensures
        forall|t: Seq<char>|
            views(r@).contains(t) <==> exists|i: int|
                0 <= i < queue.len() && spec_file_name(#[trigger] views(queue@)[i]) == Some(t),
{
    let mut r: Vec<String> = Vec::new();
    let mut i: usize = 0;
    while i < queue.len()
        invariant
            i <= queue.len(),
            forall|t: Seq<char>|
                views(r@).contains(t) <==> exists|k: int|
                    0 <= k < i && spec_file_name(#[trigger] views(queue@)[k]) == Some(t),
        decreases queue.len() - i,
    {
        let ghost r0 = views(r@);
        let ghost x = views(queue@)[i as int];
        assert(x == queue[i as int]@);
        match file_name_of(queue[i].as_str()) {
            Some(name) => {
                r.push(name);
                assert(views(r@) =~= r0.push(spec_file_name(x)->0));
            },
            None => {},
        }
        proof {
            assert forall|t: Seq<char>|
                views(r@).contains(t) <==> exists|k: int|
                    0 <= k < i + 1 && spec_file_name(#[trigger] views(queue@)[k]) == Some(t) by {
                if spec_file_name(x) is Some {
                    lemma_push_contains(r0, spec_file_name(x)->0, t);
                }
                if exists|k: int|
                    0 <= k < i + 1 && spec_file_name(#[trigger] views(queue@)[k]) == Some(t) {
                    let k = choose|k: int|
                        0 <= k < i + 1 && spec_file_name(#[trigger] views(queue@)[k]) == Some(t);
                    if k < i {
                        assert(r0.contains(t));
                    }
                }
                if r0.contains(t) {
                    let k = choose|k: int|
                        0 <= k < i && spec_file_name(#[trigger] views(queue@)[k]) == Some(t);
                    assert(0 <= k < i + 1);
                }
                if spec_file_name(x) == Some(t) {
                    assert(spec_file_name(views(queue@)[i as int]) == Some(t));
                }
            }
        }
        i = i + 1;
    }
    r
}

/// No name is in both lists.
pub open spec fn disjoint(a: Seq<Seq<char>>, b: Seq<Seq<char>>) -> bool {
    forall|t: Seq<char>| !(a.contains(t) && b.contains(t))
}

/// A plan keeps its two kinds of modules apart: no directory that it gives
/// to the magic mount bears the name of a module that it mounts by overlay.
pub open spec fn plan_consistent(plan: MountPlan) -> bool {
    forall|q: Seq<char>, t: Seq<char>|
        #[trigger] views(plan.magic_module_paths@).contains(q) && spec_file_name(q) == Some(t)
            ==> !(#[trigger] views(plan.overlay_module_ids@).contains(t))
}

/// The outcome of a run. `failed` says, mount by mount, which overlay
/// mounts failed; `magic_ok` says whether the magic mount of the queued
/// directories went through. A module of a failed mount leaves the overlay
/// list; the magic list holds the names of the queued directories, or
/// nothing where the magic mount failed. Both lists are sorted and hold
/// nothing twice, and for a consistent plan they share no module.
pub fn execute(plan: &MountPlan, failed: &Vec<bool>, magic_ok: bool) -> (r: ExecutionResult)
    ensures
        strictly_sorted(views(r.overlay_module_ids@)),
        strictly_sorted(views(r.magic_module_ids@)),
        forall|t: Seq<char>|
            #[trigger] views(r.overlay_module_ids@).contains(t) <==> stays_overlay(
                *plan,
                failed@,
                t,
            ),
        forall|t: Seq<char>|
            #[trigger] views(r.magic_module_ids@).contains(t) <==> (magic_ok && goes_magic(
                *plan,
                failed@,
                t,
            )),
        plan_consistent(*plan) ==> disjoint(
            views(r.overlay_module_ids@),
            views(r.magic_module_ids@),
        ),
{
    let rec = reconcile(plan, failed);
    let names = if magic_ok {
        queue_names(&rec.magic_queue)
    } else {
        Vec::new()
    };
    let overlay_module_ids = rec.overlay_module_ids;
    let magic_module_ids = sorted_unique(&names);
    proof {
        let ops = op_models(plan.overlay_ops@);
        assert forall|t: Seq<char>|
            #[trigger] views(magic_module_ids@).contains(t) <==> (magic_ok && goes_magic(
                *plan,
                failed@,
                t,
            )) by {
            if views(names@).contains(t) {
                let i = choose|i: int|
                    0 <= i < rec.magic_queue.len() && spec_file_name(
                        #[trigger] views(rec.magic_queue@)[i],
                    ) == Some(t);
                let q = views(rec.magic_queue@)[i];
                assert(views(rec.magic_queue@).contains(q));
                assert(queued(*plan, failed@, q));
            }
            if magic_ok && goes_magic(*plan, failed@, t) {
                let q = choose|q: Seq<char>| #[trigger]
                    queued(*plan, failed@, q) && spec_file_name(q) == Some(t);
                assert(views(rec.magic_queue@).contains(q));
                let i = choose|i: int|
                    0 <= i < rec.magic_queue.len() && views(rec.magic_queue@)[i] == q;
                assert(spec_file_name(views(rec.magic_queue@)[i]) == Some(t));
            }
        }
        if plan_consistent(*plan) {
            assert forall|t: Seq<char>|
                !(views(overlay_module_ids@).contains(t) && views(magic_module_ids@).contains(
                    t,
                )) by {
                if views(overlay_module_ids@).contains(t) && views(magic_module_ids@).contains(t) {
                    assert(stays_overlay(*plan, failed@, t));
                    assert(goes_magic(*plan, failed@, t));
                    let q = choose|q: Seq<char>| #[trigger]
                        queued(*plan, failed@, q) && spec_file_name(q) == Some(t);
                    if views(plan.magic_module_paths@).contains(q) {
                        assert(!views(plan.overlay_module_ids@).contains(t));
                    } else {
                        let (k, j) = choose|k: int, j: int| #[trigger]
                            failed_layer(ops, failed@, k, j) && spec_parent(ops[k].lowerdirs[j])
                                == Some(q);
                        assert(spec_extract_id(ops[k].lowerdirs[j]) == Some(t));
                        assert(fallback_id(ops, failed@, t));
                    }
                }
            }
        }
    }
    ExecutionResult { overlay_module_ids, magic_module_ids }
}

} // verus!
