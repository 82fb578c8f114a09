//! Conflicts between modules: which files several of them provide, and
//! which module is reported as the one that counts.

use crate::conf::config::WinnowingTable;
use crate::text::{owned, views};
use vstd::prelude::*;
use vstd::string::StringExecFns;

verus! {

/// A file that more than one module provides.
pub struct ConflictDetail {
    pub partition: String,
    /// The file's path within the partition.
    pub relative_path: String,
    /// The modules that provide it, in the order they were found.
    pub contending_modules: Vec<String>,
}

/// A conflict with the module that was picked for it.
#[derive(Debug)]
pub struct ChaffConflict {
    /// The file's projected path: `/`, the partition, `/`, the relative
    /// path.
    pub path: String,
    pub contenders: Vec<String>,
    pub selected: String,
    /// Whether the table of preferences made the choice.
    pub is_forced: bool,
}

/// The projected path of a contested file.
pub open spec fn projected_path(partition: Seq<char>, relative: Seq<char>) -> Seq<char> {
    seq!['/'] + partition + seq!['/'] + relative
}

/// Whether the table decides a conflict: it names a module for the path,
/// and that module is among the contenders.
pub open spec fn forced(
    table: Map<Seq<char>, Seq<char>>,
    path: Seq<char>,
    contenders: Seq<Seq<char>>,
) -> bool {
    table.contains_key(path) && contenders.contains(table[path])
}

/// The module picked for a conflict: the one the table prefers, where it
/// is a contender; else the last contender; `unknown` where there is none.
pub open spec fn selection(
    table: Map<Seq<char>, Seq<char>>,
    path: Seq<char>,
    contenders: Seq<Seq<char>>,
) -> Seq<char> {
    if forced(table, path, contenders) {
        table[path]
    } else if contenders.len() > 0 {
        contenders.last()
    } else {
        "unknown"@
    }
}

/// Picks, for one conflict, the module that counts.
pub fn sift_conflict(conflict: ConflictDetail, table: &WinnowingTable) -> (r: ChaffConflict)
    ensures
        r.path@ == projected_path(conflict.partition@, conflict.relative_path@),
        views(r.contenders@) == views(conflict.contending_modules@),
        r.is_forced == forced(table@, r.path@, views(conflict.contending_modules@)),
        r.selected@ == selection(table@, r.path@, views(conflict.contending_modules@)),
{
    proof {
        reveal_strlit("/");
        assert("/"@ =~= seq!['/']);
    }
    let mut path = owned("/");
    path.append(conflict.partition.as_str());
    path.append("/");
    path.append(conflict.relative_path.as_str());
    let preferred = table.get_preferred_module(path.as_str());
    let (selected, is_forced) = match preferred {
        Some(m) => {
            if crate::text::contains_string(&conflict.contending_modules, &m) {
                (m, true)
            } else {
                (last_or_unknown(&conflict.contending_modules), false)
            }
        },
        None => (last_or_unknown(&conflict.contending_modules), false),
    };
    ChaffConflict { path, contenders: conflict.contending_modules, selected, is_forced }
}

/// The last contender, or `unknown` where there is none.
fn last_or_unknown(contenders: &Vec<String>) -> (r: String)
    ensures
        r@ == (if contenders.len() > 0 {
            views(contenders@).last()
        } else {
            "unknown"@
        }),
{
    if contenders.len() > 0 {
        contenders[contenders.len() - 1].clone()
    } else {
        owned("unknown")
    }
}

/// Picks, for each conflict, the module that counts.
pub fn sift_conflicts(conflicts: Vec<ConflictDetail>, table: &WinnowingTable) -> (r: Vec<
    ChaffConflict,
>)
    ensures
        r.len() == conflicts.len(),
        forall|i: int|
            0 <= i < r.len() ==> {
                let c = conflicts[i];
                let out = #[trigger] r[i];
                &&& out.path@ == projected_path(c.partition@, c.relative_path@)
                &&& views(out.contenders@) == views(c.contending_modules@)
                &&& out.is_forced == forced(table@, out.path@, views(c.contending_modules@))
                &&& out.selected@ == selection(table@, out.path@, views(c.contending_modules@))
            },
{
    let ghost all = conflicts@;
    let ghost n = all.len() as int;
    let ghost mut k: int = 0;
    let mut rest = conflicts;
    let mut r: Vec<ChaffConflict> = Vec::new();
    assert(rest@ =~= all.subrange(0, n));
    while rest.len() > 0
        invariant
            0 <= k <= n,
            n == all.len(),
            rest@ == all.subrange(k, n),
            r.len() == k,
            forall|i: int|
                0 <= i < k ==> {
                    let c = all[i];
                    let out = #[trigger] r[i];
                    &&& out.path@ == projected_path(c.partition@, c.relative_path@)
                    &&& views(out.contenders@) == views(c.contending_modules@)
                    &&& out.is_forced == forced(table@, out.path@, views(c.contending_modules@))
                    &&& out.selected@ == selection(
                        table@,
                        out.path@,
                        views(c.contending_modules@),
                    )
                },
        decreases rest.len(),
    {
        assert(all.subrange(k, n).len() == n - k);
        assert(rest@[0] == all[k]);
        let c = rest.remove(0);
        assert(rest@ =~= all.subrange(k + 1, n));
        let out = sift_conflict(c, table);
        r.push(out);
        proof {
            k = k + 1;
        }
    }
    r
}

} // verus!
