//! The options that steer a run, and the table of file preferences.

use crate::text::{owned, pieces_from, spec_trim, split_on, to_chars, trim, views};
use vstd::prelude::*;

verus! {

pub const CONFIG_FILE_DEFAULT: &'static str = "/data/adb/meta-hybrid/config.toml";

/// Which module a contested file is taken from: projected path to module id.
///
/// The rules are kept in the order they were set. A path has at most the
/// one rule that was set last for it.
pub struct WinnowingTable {
    pub rules: Vec<(String, String)>,
}

/// The mapping that a list of rules stands for: a later rule for a path
/// replaces an earlier one.
pub open spec fn rules_map(rules: Seq<(String, String)>) -> Map<Seq<char>, Seq<char>>
    decreases rules.len(),
{
    if rules.len() == 0 {
        Map::empty()
    } else {
        rules_map(rules.drop_last()).insert(rules.last().0@, rules.last().1@)
    }
}

/// The rules without those for `path`.
pub open spec fn rules_without(rules: Seq<(String, String)>, path: Seq<char>) -> Seq<
    (String, String),
>
    decreases rules.len(),
{
    if rules.len() == 0 {
        Seq::empty()
    } else if rules.last().0@ == path {
        rules_without(rules.drop_last(), path)
    } else {
        rules_without(rules.drop_last(), path).push(rules.last())
    }
}

/// Dropping the rules for a path drops the path from the mapping.
pub proof fn lemma_rules_without(rules: Seq<(String, String)>, path: Seq<char>)
    ensures
        rules_map(rules_without(rules, path)) == rules_map(rules).remove(path),
    decreases rules.len(),
{
    if rules.len() == 0 {
        assert(rules_map(rules).remove(path) =~= Map::<Seq<char>, Seq<char>>::empty());
    } else {
        lemma_rules_without(rules.drop_last(), path);
        let head = rules.drop_last();
        if rules.last().0@ == path {
            assert(rules_map(rules).remove(path) =~= rules_map(head).remove(path));
        } else {
            let kept = rules_without(head, path).push(rules.last());
            assert(kept.drop_last() =~= rules_without(head, path));
            assert(rules_map(kept) =~= rules_map(rules).remove(path));
        }
    }
}

impl View for WinnowingTable {
    type V = Map<Seq<char>, Seq<char>>;

    open spec fn view(&self) -> Map<Seq<char>, Seq<char>> {
        rules_map(self.rules@)
    }
}

impl WinnowingTable {
    /// A table without rules.
    pub fn new() -> (r: Self)
        ensures
            r@ == Map::<Seq<char>, Seq<char>>::empty(),
    {
        WinnowingTable { rules: Vec::new() }
    }

    /// The module preferred for `file_path`, where a rule names one.
    pub fn get_preferred_module(&self, file_path: &str) -> (r: Option<String>)
        ensures
            match r {
                Some(m) => self@.contains_key(file_path@) && self@[file_path@] == m@,
                None => !self@.contains_key(file_path@),
            },
    {
        let key = owned(file_path);
        let mut i: usize = self.rules.len();
        assert(self.rules@.subrange(0, i as int) =~= self.rules@);
        while i > 0
            invariant
                i <= self.rules.len(),
                key@ == file_path@,
                rules_map(self.rules@).contains_key(key@) == rules_map(
                    self.rules@.subrange(0, i as int),
                ).contains_key(key@),
                rules_map(self.rules@).contains_key(key@) ==> rules_map(self.rules@)[key@]
                    == rules_map(self.rules@.subrange(0, i as int))[key@],
            decreases i,
        {
            proof {
                let cur = self.rules@.subrange(0, i as int);
                assert(cur.drop_last() =~= self.rules@.subrange(0, i - 1));
                assert(cur.last() == self.rules@[i - 1]);
            }
            i = i - 1;
            if self.rules[i].0 == key {
                return Some(self.rules[i].1.clone());
            }
        }
        assert(self.rules@.subrange(0, 0) =~= Seq::<(String, String)>::empty());
        None
    }

    /// Sets the rule for `file_path`, in place of any earlier one.
    pub fn set_rule(&mut self, file_path: &str, module_id: &str)
        ensures
            final(self)@ == old(self)@.insert(file_path@, module_id@),
    {
        self.remove_rule(file_path);
        let ghost kept = self.rules@;
        self.rules.push((owned(file_path), owned(module_id)));
        proof {
            assert(self.rules@.drop_last() =~= kept);
            assert(self@ =~= old(self)@.insert(file_path@, module_id@));
        }
    }

    /// Drops the rule for `file_path`, if there is one.
    pub fn remove_rule(&mut self, file_path: &str)
        ensures
            final(self)@ == old(self)@.remove(file_path@),
            final(self).rules@ == rules_without(old(self).rules@, file_path@),
    {
        let key = owned(file_path);
        let mut kept: Vec<(String, String)> = Vec::new();
        let mut i: usize = 0;
        assert(self.rules@.subrange(0, 0) =~= Seq::<(String, String)>::empty());
        while i < self.rules.len()
            invariant
                i <= self.rules.len(),
                key@ == file_path@,
                kept@ == rules_without(self.rules@.subrange(0, i as int), key@),
            decreases self.rules.len() - i,
        {
            proof {
                let next = self.rules@.subrange(0, i + 1);
                assert(next.drop_last() =~= self.rules@.subrange(0, i as int));
                assert(next.last() == self.rules@[i as int]);
            }
            if !(self.rules[i].0 == key) {
                let pair = (self.rules[i].0.clone(), self.rules[i].1.clone());
                assert(pair == self.rules@[i as int]);
                kept.push(pair);
            }
            i = i + 1;
        }
        proof {
            assert(self.rules@.subrange(0, self.rules.len() as int) =~= self.rules@);
            lemma_rules_without(self.rules@, key@);
        }
        self.rules = kept;
    }
}

/// How many snapshots of the configuration are kept, and for how long.
#[derive(Clone, Copy, Debug)]
pub struct GranaryConfig {
    pub max_backups: usize,
    pub retention_days: u64,
}

pub fn default_max_backups() -> (r: usize)
    ensures
        r == 20,
{
    20
}

pub fn default_retention_days() -> (r: u64)
    ensures
        r == 0,
{
    0
}

pub fn default_moduledir() -> (r: String)
    ensures
        r@ == "/data/adb/modules/"@,
{
    owned("/data/adb/modules/")
}

pub fn default_mountsource() -> (r: String)
    ensures
        r@ == "KSU"@,
{
    owned("KSU")
}

impl Default for GranaryConfig {
    fn default() -> (r: Self)
        ensures
            r.max_backups == 20,
            r.retention_days == 0,
    {
        GranaryConfig {
            max_backups: default_max_backups(),
            retention_days: default_retention_days(),
        }
    }
}

pub struct Config {
    pub moduledir: String,
    pub mountsource: String,
    pub verbose: bool,
    pub partitions: Vec<String>,
    pub force_ext4: bool,
    pub use_erofs: bool,
    pub enable_nuke: bool,
    pub disable_umount: bool,
    pub allow_umount_coexistence: bool,
    pub dry_run: bool,
    pub winnowing: WinnowingTable,
    pub granary: GranaryConfig,
}

impl Default for Config {
    fn default() -> (r: Self)
        ensures
            r.moduledir@ == "/data/adb/modules/"@,
            r.mountsource@ == "KSU"@,
            !r.verbose,
            r.partitions@.len() == 0,
            !r.force_ext4,
            !r.use_erofs,
            !r.enable_nuke,
            !r.disable_umount,
            !r.allow_umount_coexistence,
            !r.dry_run,
            r.winnowing@ == Map::<Seq<char>, Seq<char>>::empty(),
            r.granary.max_backups == 20,
            r.granary.retention_days == 0,
    {
        Config {
            moduledir: default_moduledir(),
            mountsource: default_mountsource(),
            verbose: false,
            partitions: Vec::new(),
            force_ext4: false,
            use_erofs: false,
            enable_nuke: false,
            disable_umount: false,
            allow_umount_coexistence: false,
            dry_run: false,
            winnowing: WinnowingTable::new(),
            granary: GranaryConfig::default(),
        }
    }
}

impl Config {
    /// Lets the command line override the file: a directory or a mount
    /// source that is given replaces the stored one, a list of partitions
    /// that is not empty replaces the stored list, and the two switches can
    /// only be turned on. Nothing else changes.
    pub fn merge_with_cli(
        &mut self,
        moduledir: Option<String>,
        mountsource: Option<String>,
        verbose: bool,
        partitions: Vec<String>,
        dry_run: bool,
    )
        ensures
            final(self).moduledir@ == (match moduledir {
                Some(d) => d@,
                None => old(self).moduledir@,
            }),
            final(self).mountsource@ == (match mountsource {
                Some(s) => s@,
                None => old(self).mountsource@,
            }),
            final(self).verbose == (old(self).verbose || verbose),
            views(final(self).partitions@) == (if partitions@.len() > 0 {
                views(partitions@)
            } else {
                views(old(self).partitions@)
            }),
            final(self).dry_run == (old(self).dry_run || dry_run),
            final(self).force_ext4 == old(self).force_ext4,
            final(self).use_erofs == old(self).use_erofs,
            final(self).enable_nuke == old(self).enable_nuke,
            final(self).disable_umount == old(self).disable_umount,
            final(self).allow_umount_coexistence == old(self).allow_umount_coexistence,
            final(self).winnowing == old(self).winnowing,
            final(self).granary == old(self).granary,
    {
        if let Some(dir) = moduledir {
            self.moduledir = dir;
        }
        if let Some(source) = mountsource {
            self.mountsource = source;
        }
        if verbose {
            self.verbose = true;
        }
        if partitions.len() > 0 {
            self.partitions = partitions;
        }
        if dry_run {
            self.dry_run = true;
        }
    }
}


/// The pieces, among the first `k`, that are not empty once the white
/// space around them is gone, without that white space.
pub open spec fn named_pieces(pieces: Seq<Seq<char>>, k: int) -> Seq<Seq<char>>
    decreases k,
{
    if k <= 0 || k > pieces.len() {
        Seq::empty()
    } else if spec_trim(pieces[k - 1]).len() > 0 {
        named_pieces(pieces, k - 1).push(spec_trim(pieces[k - 1]))
    } else {
        named_pieces(pieces, k - 1)
    }
}

/// The partitions named in a list written as one text: the names stand
/// between commas, white space around a name does not count, and an empty
/// name is left out.
pub open spec fn spec_parse_partitions(text: Seq<char>) -> Seq<Seq<char>> {
    named_pieces(pieces_from(text, ',', 0), pieces_from(text, ',', 0).len() as int)
}

/// Reads a list of partitions written as one text, the names separated by
/// commas.
pub fn parse_partitions(text: &str) -> (r: Vec<String>)
    ensures
        views(r@) == spec_parse_partitions(text@),
{
    let pieces = split_on(text, ',');
    let mut r: Vec<String> = Vec::new();
    let mut i: usize = 0;
    assert(views(r@) =~= Seq::<Seq<char>>::empty());
    while i < pieces.len()
        invariant
            i <= pieces.len(),
            views(pieces@) == pieces_from(text@, ',', 0),
            views(r@) == named_pieces(views(pieces@), i as int),
        decreases pieces.len() - i,
    {
        assert(views(pieces@)[i as int] == pieces[i as int]@);
        let name = trim(pieces[i].as_str());
        if !name.as_str().is_empty() {
            let ghost before = views(r@);
            r.push(name);
            assert(views(r@) =~= before.push(spec_trim(pieces[i as int]@)));
        }
        i = i + 1;
    }
    r
}

impl Config {
    /// Where the other root solution enforces its own unmounting, this one
    /// leaves unmounting alone, unless the configuration lets the two
    /// coexist.
    pub fn apply_enforce_status(&mut self, enforce: bool)
        ensures
            final(self).disable_umount == (old(self).disable_umount || (enforce && !old(
                self,
            ).allow_umount_coexistence)),
            final(self).moduledir == old(self).moduledir,
            final(self).mountsource == old(self).mountsource,
            final(self).verbose == old(self).verbose,
            final(self).partitions == old(self).partitions,
            final(self).force_ext4 == old(self).force_ext4,
            final(self).use_erofs == old(self).use_erofs,
            final(self).enable_nuke == old(self).enable_nuke,
            final(self).allow_umount_coexistence == old(self).allow_umount_coexistence,
            final(self).dry_run == old(self).dry_run,
            final(self).winnowing == old(self).winnowing,
            final(self).granary == old(self).granary,
    {
        if enforce && !self.allow_umount_coexistence {
            self.disable_umount = true;
        }
    }
}


/// Whether the text of the other root solution's enforcement switch says
/// that it enforces: the file is there and holds anything but `0`, white
/// space around it left aside.
pub fn enforce_status(text: Option<&str>) -> (r: bool)
    ensures
        r == (text matches Some(t) && spec_trim(t@) != "0"@),
{
    match text {
        Some(t) => {
            let zero = owned("0");
            !(trim(t) == zero)
        },
        None => false,
    }
}

/// The value of a hexadecimal digit.
pub open spec fn hex_digit(c: char) -> Option<int> {
    if '0' <= c <= '9' {
        Some(c as int - '0' as int)
    } else if 'a' <= c <= 'f' {
        Some(c as int - 'a' as int + 10)
    } else if 'A' <= c <= 'F' {
        Some(c as int - 'A' as int + 10)
    } else {
        None
    }
}

/// The byte that two characters stand for: two hexadecimal digits, or a
/// plus sign and one digit.
pub open spec fn hex_pair(a: char, b: char) -> Option<int> {
    match hex_digit(b) {
        None => None,
        Some(low) => if a == '+' {
            Some(low)
        } else {
            match hex_digit(a) {
                Some(high) => Some(16 * high + low),
                None => None,
            }
        },
    }
}

/// The bytes that a text of hexadecimal pairs stands for; nothing where
/// the text has an odd length or a pair is no byte.
pub open spec fn hex_decoded(s: Seq<char>) -> Option<Seq<u8>>
    decreases s.len(),
{
    if s.len() == 0 {
        Some(Seq::empty())
    } else if s.len() == 1 {
        None
    } else {
        match (hex_decoded(s.subrange(0, s.len() - 2)), hex_pair(s[s.len() - 2], s[s.len() - 1])) {
            (Some(head), Some(v)) => Some(head.push(v as u8)),
            _ => None,
        }
    }
}

/// An unreadable pair makes every longer text unreadable.
pub proof fn lemma_hex_prefix(s: Seq<char>, n: int)
    requires
        0 <= n <= s.len(),
        n % 2 == 0,
        s.len() % 2 == 0,
        hex_decoded(s.subrange(0, n)) is None,
    ensures
        hex_decoded(s) is None,
    decreases s.len() - n,
{
    if n < s.len() {
        let next = s.subrange(0, n + 2);
        assert(next.subrange(0, next.len() - 2) =~= s.subrange(0, n));
        lemma_hex_prefix(s, n + 2);
    } else {
        assert(s.subrange(0, n) =~= s);
    }
}

/// A text of odd length stands for no bytes.
pub proof fn lemma_hex_odd(s: Seq<char>)
    requires
        s.len() % 2 == 1,
    ensures
        hex_decoded(s) is None,
    decreases s.len(),
{
    if s.len() > 1 {
        lemma_hex_odd(s.subrange(0, s.len() - 2));
    }
}

fn hex_value(c: char) -> (r: Option<u8>)
    ensures
        match r {
            Some(v) => hex_digit(c) == Some(v as int) && v < 16,
            None => hex_digit(c) is None,
        },
{
    if '0' <= c && c <= '9' {
        Some((c as u32 - '0' as u32) as u8)
    } else if 'a' <= c && c <= 'f' {
        Some((c as u32 - 'a' as u32 + 10) as u8)
    } else if 'A' <= c && c <= 'F' {
        Some((c as u32 - 'A' as u32 + 10) as u8)
    } else {
        None
    }
}

/// Reads a payload written as hexadecimal pairs.
pub fn decode_hex(payload: &str) -> (r: Option<Vec<u8>>)
    ensures
        match r {
            Some(bytes) => hex_decoded(payload@) == Some(bytes@),
            None => hex_decoded(payload@) is None,
        },
{
    let chars = to_chars(payload);
    if chars.len() % 2 != 0 {
        proof {
            lemma_hex_odd(payload@);
        }
        return None;
    }
    let mut out: Vec<u8> = Vec::new();
    let mut i: usize = 0;
    assert(chars@.subrange(0, 0) =~= Seq::<char>::empty());
    while i < chars.len()
        invariant
            i <= chars.len(),
            i % 2 == 0,
            chars.len() % 2 == 0,
            chars@ == payload@,
            hex_decoded(chars@.subrange(0, i as int)) == Some(out@),
        decreases chars.len() - i,
    {
        let a: char = chars[i];
        let b: char = chars[i + 1];
        proof {
            let next = chars@.subrange(0, i + 2);
            assert(next.subrange(0, next.len() - 2) =~= chars@.subrange(0, i as int));
            assert(next[next.len() - 2] == a);
            assert(next[next.len() - 1] == b);
        }
        let value: Option<u8> = match hex_value(b) {
            None => None,
            Some(low) => if a == '+' {
                Some(low)
            } else {
                match hex_value(a) {
                    Some(high) => Some(16 * high + low),
                    None => None,
                }
            },
        };
        match value {
            Some(v) => {
                out.push(v);
            },
            None => {
                proof {
                    lemma_hex_prefix(payload@, i + 2);
                }
                return None;
            },
        }
        i = i + 2;
    }
    assert(chars@.subrange(0, chars.len() as int) =~= chars@);
    Some(out)
}

} // verus!
