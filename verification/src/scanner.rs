//! The list of modules that will be mounted, from what the module
//! directory holds.

use crate::text::{
    is_prefix, index_from, lemma_lex_asym, lemma_lex_le_trans, lex_le, lex_lt, lines, owned,
    spec_lines, spec_trim, split_once, starts_with, str_lt, trim, views,
};
use vstd::prelude::*;

verus! {

#[derive(Debug)]
pub struct ModuleInfo {
    pub id: String,
    pub name: String,
    pub version: String,
    pub description: String,
    pub disabled: bool,
    pub skip: bool,
}

pub ghost struct ModuleInfoModel {
    pub id: Seq<char>,
    pub name: Seq<char>,
    pub version: Seq<char>,
    pub description: Seq<char>,
    pub disabled: bool,
    pub skip: bool,
}

impl View for ModuleInfo {
    type V = ModuleInfoModel;

    open spec fn view(&self) -> ModuleInfoModel {
        ModuleInfoModel {
            id: self.id@,
            name: self.name@,
            version: self.version@,
            description: self.description@,
            disabled: self.disabled,
            skip: self.skip,
        }
    }
}

pub open spec fn info_models(v: Seq<ModuleInfo>) -> Seq<ModuleInfoModel> {
    Seq::new(v.len(), |i: int| v[i]@)
}

/// One entry of the module directory.
pub struct ModuleEntry {
    /// The entry's name, which is the module's identifier.
    pub id: String,
    pub is_dir: bool,
    /// Whether the entry holds a property file.
    pub has_prop: bool,
    /// The text of the property file, where it could be read.
    pub prop: Option<String>,
    /// Whether the entry holds a `system` directory.
    pub has_system: bool,
    pub disabled: bool,
    pub removed: bool,
    pub skip_mount: bool,
}

pub ghost struct ModuleEntryModel {
    pub id: Seq<char>,
    pub is_dir: bool,
    pub has_prop: bool,
    pub prop: Option<Seq<char>>,
    pub has_system: bool,
    pub disabled: bool,
    pub removed: bool,
    pub skip_mount: bool,
}

impl View for ModuleEntry {
    type V = ModuleEntryModel;

    open spec fn view(&self) -> ModuleEntryModel {
        ModuleEntryModel {
            id: self.id@,
            is_dir: self.is_dir,
            has_prop: self.has_prop,
            prop: match self.prop {
                Some(t) => Some(t@),
                None => None,
            },
            has_system: self.has_system,
            disabled: self.disabled,
            removed: self.removed,
            skip_mount: self.skip_mount,
        }
    }
}

pub open spec fn entry_views(v: Seq<ModuleEntry>) -> Seq<ModuleEntryModel> {
    Seq::new(v.len(), |i: int| v[i]@)
}

/// The value that the lines from number `from` on give for `key`: of the
/// first line that begins with the key and holds an equals sign, what
/// follows the sign, without the white space around it.
pub open spec fn prop_in(lines: Seq<Seq<char>>, key: Seq<char>, from: int) -> Option<Seq<char>>
    decreases lines.len() - from,
{
    if from < 0 || from >= lines.len() {
        None
    } else {
        let line = lines[from];
        let i = index_from(line, '=', 0);
        if is_prefix(key, line) && i < line.len() {
            Some(spec_trim(line.subrange(i + 1, line.len() as int)))
        } else {
            prop_in(lines, key, from + 1)
        }
    }
}

/// The value that a property text gives for `key`.
pub open spec fn spec_read_prop(text: Seq<char>, key: Seq<char>) -> Option<Seq<char>> {
    prop_in(spec_lines(text), key, 0)
}

/// Reads the value of `key` from the text of a property file.
pub fn read_prop(text: &str, key: &str) -> (r: Option<String>)
    ensures
        match r {
            Some(v) => spec_read_prop(text@, key@) == Some(v@),
            None => spec_read_prop(text@, key@) is None,
        },
{
    let all = lines(text);
    let mut i: usize = 0;
    while i < all.len()
        invariant
            i <= all.len(),
            views(all@) == spec_lines(text@),
            prop_in(views(all@), key@, i as int) == spec_read_prop(text@, key@),
        decreases all.len() - i,
    {
        assert(views(all@)[i as int] == all[i as int]@);
        let line = &all[i];
        if starts_with(line.as_str(), key) {
            match split_once(line.as_str(), '=') {
                Some((_, value)) => {
                    return Some(trim(value.as_str()));
                },
                None => {},
            }
        }
        i = i + 1;
    }
    None
}

/// Whether an entry of the module directory is a module to mount: a
/// directory with a property file and a `system` directory, and without
/// any of the markers that switch it off.
pub open spec fn mountable(e: ModuleEntryModel) -> bool {
    e.is_dir && e.has_prop && e.has_system && !e.disabled && !e.removed && !e.skip_mount
}

pub open spec fn prop_or(e: ModuleEntryModel, key: Seq<char>, fallback: Seq<char>) -> Seq<char> {
    match e.prop {
        Some(text) => match spec_read_prop(text, key) {
            Some(v) => v,
            None => fallback,
        },
        None => fallback,
    }
}

/// What is reported of a module: its name, or its identifier where the
/// property file names none; its version and description, or `unknown`.
pub open spec fn info_of(e: ModuleEntryModel) -> ModuleInfoModel {
    ModuleInfoModel {
        id: e.id,
        name: prop_or(e, "name"@, e.id),
        version: prop_or(e, "version"@, "unknown"@),
        description: prop_or(e, "description"@, "unknown"@),
        disabled: false,
        skip: false,
    }
}

/// The modules among the first `k` entries, in the order of the entries.
pub open spec fn listed(entries: Seq<ModuleEntryModel>, k: int) -> Seq<ModuleInfoModel>
    decreases k,
{
    if k <= 0 || k > entries.len() {
        Seq::empty()
    } else if mountable(entries[k - 1]) {
        listed(entries, k - 1).push(info_of(entries[k - 1]))
    } else {
        listed(entries, k - 1)
    }
}

/// Where a module goes into a sorted list: before the first one whose
/// identifier sorts after its own.
pub open spec fn info_pos(infos: Seq<ModuleInfoModel>, id: Seq<char>) -> int
    decreases infos.len(),
{
    if infos.len() == 0 {
        0
    } else {
        let p = info_pos(infos.drop_last(), id);
        if p < infos.len() - 1 {
            p
        } else if lex_lt(id, infos.last().id) {
            infos.len() - 1
        } else {
            infos.len() as int
        }
    }
}

/// The first `k` modules in the order of their identifiers; modules with
/// the same identifier keep their order.
pub open spec fn sort_infos(infos: Seq<ModuleInfoModel>, k: int) -> Seq<ModuleInfoModel>
    decreases k,
{
    if k <= 0 || k > infos.len() {
        Seq::empty()
    } else {
        let prev = sort_infos(infos, k - 1);
        prev.insert(info_pos(prev, infos[k - 1].id), infos[k - 1])
    }
}

pub open spec fn sorted_by_id(infos: Seq<ModuleInfoModel>) -> bool {
    forall|i: int, j: int|
        0 <= i < j < infos.len() ==> lex_le((#[trigger] infos[i]).id, (#[trigger] infos[j]).id)
}

proof fn lemma_info_pos(infos: Seq<ModuleInfoModel>, id: Seq<char>)
    ensures
        0 <= info_pos(infos, id) <= infos.len(),
        info_pos(infos, id) < infos.len() ==> lex_lt(id, infos[info_pos(infos, id)].id),
        forall|k: int| 0 <= k < info_pos(infos, id) ==> !lex_lt(id, (#[trigger] infos[k]).id),
    decreases infos.len(),
{
    if infos.len() > 0 {
        lemma_info_pos(infos.drop_last(), id);
        assert forall|k: int| 0 <= k < info_pos(infos, id) implies !lex_lt(
            id,
            (#[trigger] infos[k]).id,
        ) by {
            if k < infos.len() - 1 {
                assert(infos.drop_last()[k] == infos[k]);
            }
        }
    }
}

proof fn lemma_info_pos_prefix(infos: Seq<ModuleInfoModel>, id: Seq<char>, n: int)
    requires
        0 <= n <= infos.len(),
        info_pos(infos.subrange(0, n), id) < n,
    ensures
        info_pos(infos, id) == info_pos(infos.subrange(0, n), id),
    decreases infos.len() - n,
{
    if n < infos.len() {
        let next = infos.subrange(0, n + 1);
        assert(next.drop_last() =~= infos.subrange(0, n));
        lemma_info_pos_prefix(infos, id, n + 1);
    } else {
        assert(infos.subrange(0, n) =~= infos);
    }
}

/// Sorting keeps every module, adds none, and leaves them in the order of
/// their identifiers.
pub proof fn lemma_sort_infos(infos: Seq<ModuleInfoModel>, k: int)
    requires
        0 <= k <= infos.len(),
    ensures
        sorted_by_id(sort_infos(infos, k)),
        sort_infos(infos, k).to_multiset() == infos.subrange(0, k).to_multiset(),
        sort_infos(infos, k).len() == k,
    decreases k,
{
    broadcast use vstd::seq_lib::group_to_multiset_ensures;

    if k <= 0 {
        assert(infos.subrange(0, 0) =~= Seq::<ModuleInfoModel>::empty());
        assert(sort_infos(infos, k) =~= Seq::<ModuleInfoModel>::empty());
    } else {
        lemma_sort_infos(infos, k - 1);
        let prev = sort_infos(infos, k - 1);
        let x = infos[k - 1];
        let p = info_pos(prev, x.id);
        lemma_info_pos(prev, x.id);
        let cur = prev.insert(p, x);
        assert(infos.subrange(0, k) =~= infos.subrange(0, k - 1).push(x));
        assert forall|i: int, j: int| 0 <= i < j < cur.len() implies lex_le(
            (#[trigger] cur[i]).id,
            (#[trigger] cur[j]).id,
        ) by {
            if j < p {
                assert(lex_le(prev[i].id, prev[j].id));
            } else if j == p {
                assert(!lex_lt(x.id, prev[i].id));
            } else if i < p {
                assert(lex_le(prev[i].id, prev[j - 1].id));
            } else if i == p {
                assert(lex_lt(x.id, prev[p].id));
                lemma_lex_asym(x.id, prev[p].id);
                if j - 1 > p {
                    assert(lex_le(prev[p].id, prev[j - 1].id));
                    lemma_lex_le_trans(x.id, prev[p].id, prev[j - 1].id);
                }
            } else {
                assert(lex_le(prev[i - 1].id, prev[j - 1].id));
            }
        }
    }
}

/// What is reported of one module.
pub fn describe(e: &ModuleEntry) -> (r: ModuleInfo)
    ensures
        r@ == info_of(e@),
{
    let (name, version, description) = match &e.prop {
        Some(text) => {
            let name = match read_prop(text.as_str(), "name") {
                Some(v) => v,
                None => e.id.clone(),
            };
            let version = match read_prop(text.as_str(), "version") {
                Some(v) => v,
                None => owned("unknown"),
            };
            let description = match read_prop(text.as_str(), "description") {
                Some(v) => v,
                None => owned("unknown"),
            };
            (name, version, description)
        },
        None => (e.id.clone(), owned("unknown"), owned("unknown")),
    };
    ModuleInfo { id: e.id.clone(), name, version, description, disabled: false, skip: false }
}

/// Lists the modules that will be mounted, sorted by identifier.
pub fn scan_modules(entries: &Vec<ModuleEntry>) -> (r: Vec<ModuleInfo>)
    ensures
        info_models(r@) == sort_infos(
            listed(entry_views(entries@), entries.len() as int),
            listed(entry_views(entries@), entries.len() as int).len() as int,
        ),
        sorted_by_id(info_models(r@)),
        info_models(r@).to_multiset() == listed(
            entry_views(entries@),
            entries.len() as int,
        ).to_multiset(),
{
    let ghost ev = entry_views(entries@);
    let mut out: Vec<ModuleInfo> = Vec::new();
    let ghost mut count: int = 0;
    let mut i: usize = 0;
    assert(info_models(out@) =~= sort_infos(listed(ev, 0), 0));
    while i < entries.len()
        invariant
            i <= entries.len(),
            ev == entry_views(entries@),
            count == listed(ev, i as int).len(),
            info_models(out@) == sort_infos(listed(ev, i as int), count),
        decreases entries.len() - i,
    {
        let e = &entries[i];
        assert(ev[i as int] == e@);
        if e.is_dir && e.has_prop && e.has_system && !e.disabled && !e.removed && !e.skip_mount {
            let info = describe(e);
            let ghost out0 = info_models(out@);
            let ghost prev_list = listed(ev, i as int);
            let ghost cur_list = listed(ev, i + 1);
            proof {
                assert(cur_list == prev_list.push(info@));
                assert(cur_list.subrange(0, prev_list.len() as int) =~= prev_list);
                lemma_sort_infos_extend(prev_list, cur_list, count);
            }
            let mut p: usize = 0;
            let mut found = false;
            assert(out0.subrange(0, 0) =~= Seq::<ModuleInfoModel>::empty());
            while p < out.len() && !found
                invariant
                    p <= out.len(),
                    out0 == info_models(out@),
                    info_pos(out0.subrange(0, p as int), info.id@) == p,
                    found ==> p < out.len() && info_pos(out0, info.id@) == p,
                decreases out.len() - p + (if found { 0int } else { 1int }),
            {
                proof {
                    let next = out0.subrange(0, p + 1);
                    assert(next.drop_last() =~= out0.subrange(0, p as int));
                    assert(next.last() == out[p as int]@);
                }
                if str_lt(&info.id, &out[p].id) {
                    found = true;
                    proof {
                        lemma_info_pos_prefix(out0, info.id@, p + 1);
                    }
                } else {
                    p = p + 1;
                }
            }
            proof {
                if !found {
                    assert(out0.subrange(0, p as int) =~= out0);
                }
            }
            let ghost im = info@;
            out.insert(p, info);
            assert(info_models(out@) =~= out0.insert(p as int, im));
            proof {
                count = count + 1;
            }
        }
        i = i + 1;
    }
    proof {
        let all = listed(ev, entries.len() as int);
        lemma_sort_infos(all, all.len() as int);
        assert(all.subrange(0, all.len() as int) =~= all);
    }
    out
}

/// Sorting a list that grew at its end goes on from the sorted list.
proof fn lemma_sort_infos_extend(
    shorter: Seq<ModuleInfoModel>,
    longer: Seq<ModuleInfoModel>,
    k: int,
)
    requires
        0 <= k <= shorter.len(),
        shorter.len() <= longer.len(),
        longer.subrange(0, shorter.len() as int) == shorter,
    ensures
        sort_infos(longer, k) == sort_infos(shorter, k),
    decreases k,
{
    if k > 0 {
        lemma_sort_infos_extend(shorter, longer, k - 1);
        assert(longer[k - 1] == longer.subrange(0, shorter.len() as int)[k - 1]);
    }
}

} // verus!
