//! Small verified helpers on strings and lists of strings.
//!
//! Every contract here speaks about the *view* of a string, its sequence of
//! characters, never about the heap value.

use vstd::prelude::*;
use vstd::string::StringExecFns;

verus! {

/// The character sequences held by a list of strings.
pub open spec fn views(v: Seq<String>) -> Seq<Seq<char>> {
    v.map_values(|s: String| s@)
}

/// Number of bytes that one character occupies in UTF-8.
pub open spec fn utf8_width(c: char) -> nat {
    if (c as u32) < 0x80 {
        1
    } else if (c as u32) < 0x800 {
        2
    } else if (c as u32) < 0x10000 {
        3
    } else {
        4
    }
}

/// Number of bytes that `s` occupies in UTF-8.
pub open spec fn byte_len(s: Seq<char>) -> nat
    decreases s.len(),
{
    if s.len() == 0 {
        0
    } else {
        byte_len(s.drop_last()) + utf8_width(s.last())
    }
}

/// The byte length of a concatenation is the sum of the parts' lengths.
pub proof fn lemma_byte_len_concat(a: Seq<char>, b: Seq<char>)
    ensures
        byte_len(a + b) == byte_len(a) + byte_len(b),
    decreases b.len(),
{
    if b.len() == 0 {
        assert(a + b =~= a);
    } else {
        lemma_byte_len_concat(a, b.drop_last());
        assert((a + b).drop_last() =~= a + b.drop_last());
        assert((a + b).last() == b.last());
    }
}

/// The characters of `s`, one by one.
pub fn to_chars(s: &str) -> (out: Vec<char>)
    ensures
        out@ == s@,
{
    broadcast use vstd::string::group_string_axioms;

    let mut out: Vec<char> = Vec::new();
    for c in it: s.chars()
        invariant
            it.seq() == s@,
            out@ == s@.subrange(0, it.index()),
    {
        out.push(c);
    }
    assert(s@.subrange(0, s@.len() as int) =~= s@);
    out
}

/// A fresh string with the same characters as `s`.
pub fn owned(s: &str) -> (out: String)
    ensures
        out@ == s@,
{
    String::from_str(s)
}

/// `String::push`, which appends one character to the end of a string.
pub assume_specification[ String::push ](s: &mut String, c: char)
    ensures
        final(s)@ == old(s)@.push(c),
;

/// The characters from position `from` up to position `to`, as a string.
fn string_of(chars: &Vec<char>, from: usize, to: usize) -> (out: String)
    requires
        from <= to <= chars.len(),
    ensures
        out@ == chars@.subrange(from as int, to as int),
{
    let mut out = String::new();
    let mut i: usize = from;
    assert(chars@.subrange(from as int, from as int) =~= Seq::<char>::empty());
    while i < to
        invariant
            from <= i <= to,
            to <= chars.len(),
            out@ == chars@.subrange(from as int, i as int),
        decreases to - i,
    {
        out.push(chars[i]);
        assert(out@ =~= chars@.subrange(from as int, i + 1));
        i = i + 1;
    }
    out
}

/// Length of `s` in bytes, or `limit + 1` where it is longer than `limit`.
pub fn byte_len_capped(s: &String, limit: usize) -> (n: usize)
    requires
        limit <= usize::MAX - 4,
    ensures
        byte_len(s@) <= limit ==> n == byte_len(s@),
        byte_len(s@) > limit ==> n == limit + 1,
{
    let chars = to_chars(s.as_str());
    let mut n: usize = 0;
    let mut i: usize = 0;
    while i < chars.len()
        invariant
            i <= chars.len(),
            limit <= usize::MAX - 4,
            chars@ == s@,
            n <= limit,
            n == byte_len(chars@.subrange(0, i as int)),
        decreases chars.len() - i,
    {
        let c: char = chars[i];
        let code: u32 = c as u32;
        let w: usize = if code < 0x80 {
            1
        } else if code < 0x800 {
            2
        } else if code < 0x10000 {
            3
        } else {
            4
        };
        proof {
            let next = chars@.subrange(0, i + 1);
            assert(next.drop_last() =~= chars@.subrange(0, i as int));
            assert(next.last() == c);
            assert(chars@ =~= next + chars@.subrange(i + 1, chars.len() as int));
            lemma_byte_len_concat(next, chars@.subrange(i + 1, chars.len() as int));
            assert(w == utf8_width(c));
            assert(byte_len(next) == n + w);
            assert(byte_len(chars@) >= n + w);
        }
        if n + w > limit {
            return limit + 1;
        }
        n = n + w;
        i = i + 1;
    }
    assert(chars@.subrange(0, chars.len() as int) =~= chars@);
    n
}

/// Whether some element of `v` has the characters of `s`.
pub fn contains_string(v: &Vec<String>, s: &String) -> (r: bool)
    ensures
        r == views(v@).contains(s@),
{
    let mut i: usize = 0;
    while i < v.len()
        invariant
            i <= v.len(),
            forall|k: int| 0 <= k < i ==> v[k]@ != s@,
        decreases v.len() - i,
    {
        if v[i] == *s {
            assert(views(v@)[i as int] == s@);
            return true;
        }
        i = i + 1;
    }
    assert forall|k: int| 0 <= k < views(v@).len() implies views(v@)[k] != s@ by {
        assert(views(v@)[k] == v[k]@);
    }
    false
}

/// A copy of a list of strings, element by element.
pub fn clone_strings(v: &Vec<String>) -> (out: Vec<String>)
    ensures
        views(out@) == views(v@),
{
    let mut out: Vec<String> = Vec::new();
    let mut i: usize = 0;
    while i < v.len()
        invariant
            i <= v.len(),
            out.len() == i,
            forall|k: int| 0 <= k < i ==> out[k]@ == v[k]@,
        decreases v.len() - i,
    {
        out.push(v[i].clone());
        i = i + 1;
    }
    assert(views(out@) =~= views(v@));
    out
}

/// Lexicographic order on character sequences, by code point, read from
/// position `i` on.
pub open spec fn lex_lt_from(a: Seq<char>, b: Seq<char>, i: int) -> bool
    decreases a.len() - i,
{
    if i < 0 || i >= b.len() {
        false
    } else if i >= a.len() {
        true
    } else if a[i] != b[i] {
        (a[i] as u32) < (b[i] as u32)
    } else {
        lex_lt_from(a, b, i + 1)
    }
}

/// `a` sorts strictly before `b`.
pub open spec fn lex_lt(a: Seq<char>, b: Seq<char>) -> bool {
    lex_lt_from(a, b, 0)
}

/// `a` sorts before `b` or equals it.
pub open spec fn lex_le(a: Seq<char>, b: Seq<char>) -> bool {
    !lex_lt(b, a)
}

pub proof fn lemma_lex_asym_from(a: Seq<char>, b: Seq<char>, i: int)
    requires
        0 <= i,
    ensures
        !(lex_lt_from(a, b, i) && lex_lt_from(b, a, i)),
    decreases a.len() - i,
{
    if i < a.len() && i < b.len() && a[i] == b[i] {
        lemma_lex_asym_from(a, b, i + 1);
    }
}

pub proof fn lemma_lex_trans_from(a: Seq<char>, b: Seq<char>, c: Seq<char>, i: int)
    requires
        0 <= i,
        lex_lt_from(a, b, i),
        lex_lt_from(b, c, i),
    ensures
        lex_lt_from(a, c, i),
    decreases c.len() - i,
{
    if i < a.len() && i < b.len() && i < c.len() && a[i] == b[i] && b[i] == c[i] {
        lemma_lex_trans_from(a, b, c, i + 1);
    }
}

pub proof fn lemma_lex_total_from(a: Seq<char>, b: Seq<char>, i: int)
    requires
        0 <= i <= a.len(),
        i <= b.len(),
        !lex_lt_from(a, b, i),
        !lex_lt_from(b, a, i),
    ensures
        a.skip(i) == b.skip(i),
    decreases a.len() - i,
{
    if i < a.len() && i < b.len() {
        assert(a[i] == b[i]) by {
            vstd::utf8::char_u32_cast(a[i], a[i] as u32);
            vstd::utf8::char_u32_cast(b[i], b[i] as u32);
        }
        lemma_lex_total_from(a, b, i + 1);
        assert(a.skip(i) =~= seq![a[i]] + a.skip(i + 1));
        assert(b.skip(i) =~= seq![b[i]] + b.skip(i + 1));
    } else {
        assert(a.skip(i) =~= b.skip(i));
    }
}

/// The order is irreflexive and asymmetric.
pub proof fn lemma_lex_asym(a: Seq<char>, b: Seq<char>)
    ensures
        !(lex_lt(a, b) && lex_lt(b, a)),
        !lex_lt(a, a),
{
    lemma_lex_asym_from(a, b, 0);
    lemma_lex_asym_from(a, a, 0);
}

/// The order is transitive.
pub proof fn lemma_lex_trans(a: Seq<char>, b: Seq<char>, c: Seq<char>)
    requires
        lex_lt(a, b),
        lex_lt(b, c),
    ensures
        lex_lt(a, c),
{
    lemma_lex_trans_from(a, b, c, 0);
}

/// Two sequences that neither sort before the other are equal.
pub proof fn lemma_lex_total(a: Seq<char>, b: Seq<char>)
    requires
        !lex_lt(a, b),
        !lex_lt(b, a),
    ensures
        a == b,
{
    lemma_lex_total_from(a, b, 0);
    assert(a.skip(0) =~= a);
    assert(b.skip(0) =~= b);
}

/// `lex_le` is transitive, and mixes with `lex_lt`.
pub proof fn lemma_lex_le_trans(a: Seq<char>, b: Seq<char>, c: Seq<char>)
    requires
        lex_le(a, b),
        lex_le(b, c),
    ensures
        lex_le(a, c),
        lex_lt(a, b) || lex_lt(b, c) ==> lex_lt(a, c),
{
    lemma_lex_asym(a, b);
    lemma_lex_asym(b, c);
    lemma_lex_asym(a, c);
    if lex_lt(a, b) {
        if lex_lt(b, c) {
            lemma_lex_trans(a, b, c);
        } else {
            lemma_lex_total(b, c);
        }
    } else {
        lemma_lex_total(a, b);
        if !lex_lt(b, c) {
            lemma_lex_total(b, c);
        }
    }
}

/// Whether `a` sorts strictly before `b`.
pub fn chars_lt(a: &Vec<char>, b: &Vec<char>) -> (r: bool)
    ensures
        r == lex_lt(a@, b@),
{
    let mut i: usize = 0;
    while i < a.len() && i < b.len()
        invariant
            i <= a.len(),
            i <= b.len(),
            lex_lt(a@, b@) == lex_lt_from(a@, b@, i as int),
        decreases a.len() - i,
    {
        let x: char = a[i];
        let y: char = b[i];
        if x != y {
            return (x as u32) < (y as u32);
        }
        i = i + 1;
    }
    i < b.len()
}

/// Whether `a` sorts strictly before `b`.
pub fn str_lt(a: &String, b: &String) -> (r: bool)
    ensures
        r == lex_lt(a@, b@),
{
    let ca = to_chars(a.as_str());
    let cb = to_chars(b.as_str());
    chars_lt(&ca, &cb)
}

/// No element sorts before an earlier one.
pub open spec fn sorted(v: Seq<Seq<char>>) -> bool {
    forall|i: int, j: int| 0 <= i < j < v.len() ==> lex_le(#[trigger] v[i], #[trigger] v[j])
}

/// Every element sorts strictly after the earlier ones.
pub open spec fn strictly_sorted(v: Seq<Seq<char>>) -> bool {
    forall|i: int, j: int| 0 <= i < j < v.len() ==> lex_lt(#[trigger] v[i], #[trigger] v[j])
}

/// Two strictly sorted lists with the same elements are the same list.
pub proof fn lemma_strictly_sorted_unique(v: Seq<Seq<char>>, w: Seq<Seq<char>>)
    requires
        strictly_sorted(v),
        strictly_sorted(w),
        forall|s: Seq<char>| v.contains(s) <==> w.contains(s),
    ensures
        v == w,
    decreases v.len(),
{
    if v.len() == 0 {
        if w.len() > 0 {
            assert(w.contains(w[0]));
        }
        assert(v =~= w);
    } else {
        assert(v.contains(v[0]));
        assert(w.contains(v[0]));
        assert(w.len() > 0);
        assert(w.contains(w[0]));
        assert(v.contains(w[0]));
        let i = choose|i: int| 0 <= i < w.len() && w[i] == v[0];
        let j = choose|j: int| 0 <= j < v.len() && v[j] == w[0];
        lemma_lex_asym(v[0], w[0]);
        if i > 0 {
            assert(lex_lt(w[0], w[i]));
            if j > 0 {
                assert(lex_lt(v[0], v[j]));
            }
        }
        assert(v[0] == w[0]);
        let v1 = v.drop_first();
        let w1 = w.drop_first();
        assert forall|s: Seq<char>| v1.contains(s) <==> w1.contains(s) by {
            lemma_lex_asym(s, s);
            if v1.contains(s) {
                let k = choose|k: int| 0 <= k < v1.len() && v1[k] == s;
                assert(v[k + 1] == s);
                assert(lex_lt(v[0], v[k + 1]));
                assert(v.contains(s));
                let m = choose|m: int| 0 <= m < w.len() && w[m] == s;
                assert(m != 0);
                assert(w1[m - 1] == s);
            }
            if w1.contains(s) {
                let k = choose|k: int| 0 <= k < w1.len() && w1[k] == s;
                assert(w[k + 1] == s);
                assert(lex_lt(w[0], w[k + 1]));
                assert(w.contains(s));
                let m = choose|m: int| 0 <= m < v.len() && v[m] == s;
                assert(m != 0);
                assert(v1[m - 1] == s);
            }
        }
        assert forall|a: int, b: int| 0 <= a < b < v1.len() implies lex_lt(
            #[trigger] v1[a],
            #[trigger] v1[b],
        ) by {
            assert(lex_lt(v[a + 1], v[b + 1]));
        }
        assert forall|a: int, b: int| 0 <= a < b < w1.len() implies lex_lt(
            #[trigger] w1[a],
            #[trigger] w1[b],
        ) by {
            assert(lex_lt(w[a + 1], w[b + 1]));
        }
        lemma_strictly_sorted_unique(v1, w1);
        assert(v =~= seq![v[0]] + v1);
        assert(w =~= seq![w[0]] + w1);
    }
}

/// Puts `s` into the strictly sorted list `out`, unless it is there already.
pub fn insert_sorted(out: &mut Vec<String>, s: String)
    requires
        strictly_sorted(views(old(out)@)),
    ensures
        strictly_sorted(views(final(out)@)),
        forall|t: Seq<char>|
            views(final(out)@).contains(t) <==> (views(old(out)@).contains(t) || t == s@),
        final(out).len() == old(out).len() + (if views(old(out)@).contains(s@) {
            0int
        } else {
            1int
        }),
{
    let ghost before = views(out@);
    let mut p: usize = 0;
    while p < out.len() && str_lt(&out[p], &s)
        invariant
            p <= out.len(),
            views(out@) == before,
            forall|k: int| 0 <= k < p ==> lex_lt(#[trigger] before[k], s@),
        decreases out.len() - p,
    {
        assert(before[p as int] == out[p as int]@);
        p = p + 1;
    }
    if p < out.len() && out[p] == s {
        assert(before[p as int] == s@);
        assert(before.contains(s@));
        return ;
    }
    proof {
        assert forall|k: int| p <= k < before.len() implies lex_lt(s@, #[trigger] before[k]) by {
            assert(before[p as int] == out[p as int]@);
            assert(!lex_lt(before[p as int], s@));
            if !lex_lt(s@, before[p as int]) {
                lemma_lex_total(s@, before[p as int]);
            }
            if k > p {
                assert(lex_lt(before[p as int], before[k]));
                lemma_lex_trans(s@, before[p as int], before[k]);
            }
        }
        assert(!before.contains(s@)) by {
            if before.contains(s@) {
                let k = choose|k: int| 0 <= k < before.len() && before[k] == s@;
                lemma_lex_asym(s@, s@);
                if k < p {
                    assert(lex_lt(before[k], s@));
                } else {
                    assert(lex_lt(s@, before[k]));
                }
            }
        }
    }
    let ghost sv = s@;
    out.insert(p, s);
    proof {
        let after = views(out@);
        assert(after =~= before.insert(p as int, sv));
        assert forall|i: int, j: int| 0 <= i < j < after.len() implies lex_lt(
            #[trigger] after[i],
            #[trigger] after[j],
        ) by {
            if j < p {
                assert(lex_lt(before[i], before[j]));
            } else if j == p {
                assert(lex_lt(before[i], sv));
            } else if i < p {
                assert(lex_lt(before[i], before[j - 1]));
            } else if i == p {
                assert(lex_lt(sv, before[j - 1]));
            } else {
                assert(lex_lt(before[i - 1], before[j - 1]));
            }
        }
        assert forall|t: Seq<char>| after.contains(t) <==> (before.contains(t) || t == sv) by {
            if after.contains(t) {
                let k = choose|k: int| 0 <= k < after.len() && after[k] == t;
                if k < p {
                    assert(before[k] == t);
                } else if k > p {
                    assert(before[k - 1] == t);
                }
            }
            if before.contains(t) {
                let k = choose|k: int| 0 <= k < before.len() && before[k] == t;
                if k < p {
                    assert(after[k] == t);
                } else {
                    assert(after[k + 1] == t);
                }
            }
            if t == sv {
                assert(after[p as int] == t);
            }
        }
    }
}

/// The elements of `v`, each once, in lexicographic order.
pub fn sorted_unique(v: &Vec<String>) -> (out: Vec<String>)
    ensures
        strictly_sorted(views(out@)),
        forall|t: Seq<char>| views(out@).contains(t) <==> views(v@).contains(t),
        out.len() <= v.len(),
{
    let mut out: Vec<String> = Vec::new();
    let mut i: usize = 0;
    while i < v.len()
        invariant
            i <= v.len(),
            out.len() <= i,
            strictly_sorted(views(out@)),
            forall|t: Seq<char>|
                views(out@).contains(t) <==> views(v@).subrange(0, i as int).contains(t),
        decreases v.len() - i,
    {
        let ghost prev = views(out@);
        let s = v[i].clone();
        insert_sorted(&mut out, s);
        proof {
            let head = views(v@).subrange(0, i as int);
            let next = views(v@).subrange(0, i + 1);
            assert(next =~= head.push(v[i as int]@));
            assert forall|t: Seq<char>| views(out@).contains(t) <==> next.contains(t) by {
                if next.contains(t) {
                    let k = choose|k: int| 0 <= k < next.len() && next[k] == t;
                    if k < i {
                        assert(head[k] == t);
                    }
                }
                if head.contains(t) {
                    let k = choose|k: int| 0 <= k < head.len() && head[k] == t;
                    assert(next[k] == t);
                }
                if t == v[i as int]@ {
                    assert(next[i as int] == t);
                }
            }
        }
        i = i + 1;
    }
    assert(views(v@).subrange(0, v.len() as int) =~= views(v@));
    out
}

/// The parts written one after another, `sep` between neighbours.
pub open spec fn joined(parts: Seq<Seq<char>>, sep: Seq<char>) -> Seq<char>
    decreases parts.len(),
{
    if parts.len() == 0 {
        Seq::<char>::empty()
    } else if parts.len() == 1 {
        parts[0]
    } else {
        joined(parts.drop_last(), sep) + sep + parts.last()
    }
}

/// Joins the parts with `sep` between neighbours.
pub fn join(parts: &Vec<String>, sep: &str) -> (out: String)
    ensures
        out@ == joined(views(parts@), sep@),
{
    let mut out = String::new();
    let mut i: usize = 0;
    while i < parts.len()
        invariant
            i <= parts.len(),
            out@ == joined(views(parts@).subrange(0, i as int), sep@),
        decreases parts.len() - i,
    {
        proof {
            let next = views(parts@).subrange(0, i + 1);
            assert(next.drop_last() =~= views(parts@).subrange(0, i as int));
            assert(next.last() == parts[i as int]@);
        }
        if i > 0 {
            out.append(sep);
        }
        out.append(parts[i].as_str());
        proof {
            if i == 0 {
                assert(out@ =~= parts[0]@);
            }
        }
        i = i + 1;
    }
    assert(views(parts@).subrange(0, parts.len() as int) =~= views(parts@));
    out
}


/// Index of the first element equal to `key`, or the length of the list
/// where there is none.
pub open spec fn first_pos(keys: Seq<Seq<char>>, key: Seq<char>) -> int
    decreases keys.len(),
{
    if keys.len() == 0 {
        0
    } else {
        let p = first_pos(keys.drop_last(), key);
        if p < keys.len() - 1 {
            p
        } else if keys.last() == key {
            keys.len() - 1
        } else {
            keys.len() as int
        }
    }
}

/// What `first_pos` finds: the first element equal to the key, or nothing.
pub proof fn lemma_first_pos(keys: Seq<Seq<char>>, key: Seq<char>)
    ensures
        0 <= first_pos(keys, key) <= keys.len(),
        first_pos(keys, key) < keys.len() ==> keys[first_pos(keys, key)] == key,
        forall|k: int| 0 <= k < first_pos(keys, key) ==> #[trigger] keys[k] != key,
        first_pos(keys, key) < keys.len() <==> keys.contains(key),
    decreases keys.len(),
{
    if keys.len() > 0 {
        lemma_first_pos(keys.drop_last(), key);
        assert forall|k: int| 0 <= k < first_pos(keys, key) implies #[trigger] keys[k] != key by {
            if k < keys.len() - 1 {
                assert(keys.drop_last()[k] == keys[k]);
            }
        }
        if keys.contains(key) {
            let k = choose|k: int| 0 <= k < keys.len() && keys[k] == key;
            assert(first_pos(keys, key) <= k);
        }
    }
}

/// A match within a prefix is the match in the whole list.
pub proof fn lemma_first_pos_prefix(keys: Seq<Seq<char>>, key: Seq<char>, n: int)
    requires
        0 <= n <= keys.len(),
        first_pos(keys.subrange(0, n), key) < n,
    ensures
        first_pos(keys, key) == first_pos(keys.subrange(0, n), key),
    decreases keys.len() - n,
{
    if n < keys.len() {
        let next = keys.subrange(0, n + 1);
        assert(next.drop_last() =~= keys.subrange(0, n));
        lemma_first_pos_prefix(keys, key, n + 1);
    } else {
        assert(keys.subrange(0, n) =~= keys);
    }
}

/// The keys whose flag is set, among the first `k`, in order.
pub open spec fn selected(keys: Seq<Seq<char>>, flags: Seq<bool>, k: int) -> Seq<Seq<char>>
    decreases k,
{
    if k <= 0 || k > keys.len() || k > flags.len() {
        Seq::empty()
    } else if flags[k - 1] {
        selected(keys, flags, k - 1).push(keys[k - 1])
    } else {
        selected(keys, flags, k - 1)
    }
}

/// A key is selected exactly when some position holds it with its flag set.
pub proof fn lemma_selected(keys: Seq<Seq<char>>, flags: Seq<bool>, k: int, t: Seq<char>)
    requires
        0 <= k <= keys.len(),
        k <= flags.len(),
    ensures
        selected(keys, flags, k).contains(t) <==> exists|i: int|
            0 <= i < k && flags[i] && #[trigger] keys[i] == t,
    decreases k,
{
    if k > 0 {
        lemma_selected(keys, flags, k - 1, t);
        let prev = selected(keys, flags, k - 1);
        if flags[k - 1] {
            let cur = prev.push(keys[k - 1]);
            if cur.contains(t) {
                let j = choose|j: int| 0 <= j < cur.len() && cur[j] == t;
                if j < prev.len() {
                    assert(prev[j] == t);
                } else {
                    assert(keys[k - 1] == t);
                }
            }
            if exists|i: int| 0 <= i < k && flags[i] && #[trigger] keys[i] == t {
                let i = choose|i: int| 0 <= i < k && flags[i] && #[trigger] keys[i] == t;
                if i < k - 1 {
                    assert(prev.contains(t));
                    let j = choose|j: int| 0 <= j < prev.len() && prev[j] == t;
                    assert(cur[j] == t);
                } else {
                    assert(cur[prev.len() as int] == t);
                }
            }
        }
    }
}

/// `base`, followed by those of the first `k` extras that are not there
/// yet, each once.
pub open spec fn append_new(base: Seq<Seq<char>>, extra: Seq<Seq<char>>, k: int) -> Seq<Seq<char>>
    decreases k,
{
    if k <= 0 || k > extra.len() {
        base
    } else {
        let prev = append_new(base, extra, k - 1);
        if prev.contains(extra[k - 1]) {
            prev
        } else {
            prev.push(extra[k - 1])
        }
    }
}

/// Appends to `base` the elements of `extra` that it does not hold yet.
pub fn extend_new(base: &mut Vec<String>, extra: &Vec<String>)
    ensures
        views(final(base)@) == append_new(views(old(base)@), views(extra@), extra.len() as int),
{
    let mut i: usize = 0;
    while i < extra.len()
        invariant
            i <= extra.len(),
            views(base@) == append_new(views(old(base)@), views(extra@), i as int),
        decreases extra.len() - i,
    {
        assert(views(extra@)[i as int] == extra[i as int]@);
        if !contains_string(base, &extra[i]) {
            let ghost before = views(base@);
            base.push(extra[i].clone());
            assert(views(base@) =~= before.push(extra[i as int]@));
        }
        i = i + 1;
    }
}


/// `p` stands in `s` at position `i`.
pub open spec fn occurs_at(s: Seq<char>, p: Seq<char>, i: int) -> bool {
    0 <= i && i + p.len() <= s.len() && s.subrange(i, i + p.len()) == p
}

/// `s` begins with `p`.
pub open spec fn is_prefix(p: Seq<char>, s: Seq<char>) -> bool {
    occurs_at(s, p, 0)
}

/// `s` ends with `p`.
pub open spec fn is_suffix(p: Seq<char>, s: Seq<char>) -> bool {
    occurs_at(s, p, s.len() - p.len())
}

/// `p` stands somewhere in `s`.
pub open spec fn has_infix(s: Seq<char>, p: Seq<char>) -> bool {
    exists|i: int| occurs_at(s, p, i)
}

/// Whether `p` stands in `s` at position `i`.
pub fn matches_at(s: &Vec<char>, p: &Vec<char>, i: usize) -> (r: bool)
    ensures
        r == occurs_at(s@, p@, i as int),
{
    if p.len() > s.len() || i > s.len() - p.len() {
        return false;
    }
    let mut k: usize = 0;
    while k < p.len()
        invariant
            k <= p.len(),
            i + p.len() <= s.len(),
            forall|j: int| 0 <= j < k ==> s@[i + j] == p@[j],
        decreases p.len() - k,
    {
        if s[i + k] != p[k] {
            assert(s@.subrange(i as int, i + p.len())[k as int] != p@[k as int]);
            return false;
        }
        k = k + 1;
    }
    assert(s@.subrange(i as int, i + p.len()) =~= p@);
    true
}

/// Whether `s` begins with `p`.
pub fn starts_with(s: &str, p: &str) -> (r: bool)
    ensures
        r == is_prefix(p@, s@),
{
    let sc = to_chars(s);
    let pc = to_chars(p);
    matches_at(&sc, &pc, 0)
}

/// Whether `s` ends with `p`.
pub fn ends_with(s: &str, p: &str) -> (r: bool)
    ensures
        r == is_suffix(p@, s@),
{
    let sc = to_chars(s);
    let pc = to_chars(p);
    if pc.len() > sc.len() {
        return false;
    }
    matches_at(&sc, &pc, sc.len() - pc.len())
}

/// Whether `p` stands somewhere in `s`.
pub fn has_substring(s: &str, p: &str) -> (r: bool)
    ensures
        r == has_infix(s@, p@),
{
    let sc = to_chars(s);
    let pc = to_chars(p);
    if pc.len() > sc.len() {
        return false;
    }
    let last: usize = sc.len() - pc.len();
    let mut i: usize = 0;
    while i < last
        invariant
            i <= last,
            last == sc.len() - pc.len(),
            sc@ == s@,
            pc@ == p@,
            forall|k: int| 0 <= k < i ==> !occurs_at(sc@, pc@, k),
        decreases last - i,
    {
        if matches_at(&sc, &pc, i) {
            return true;
        }
        i = i + 1;
    }
    if matches_at(&sc, &pc, last) {
        return true;
    }
    assert forall|k: int| !occurs_at(s@, p@, k) by {
        if 0 <= k <= last {
            assert(!occurs_at(sc@, pc@, k));
        }
    }
    false
}

/// Index of the first `c` in `s` at or after `from`, or the length of `s`
/// where there is none.
pub open spec fn index_from(s: Seq<char>, c: char, from: int) -> int
    decreases s.len() - from,
{
    if from < 0 || from >= s.len() {
        s.len() as int
    } else if s[from] == c {
        from
    } else {
        index_from(s, c, from + 1)
    }
}

/// What `index_from` finds: the first `c` from `from` on, or the end.
pub proof fn lemma_index_from(s: Seq<char>, c: char, from: int)
    requires
        0 <= from <= s.len(),
    ensures
        from <= index_from(s, c, from) <= s.len(),
        index_from(s, c, from) < s.len() ==> s[index_from(s, c, from)] == c,
        forall|k: int| from <= k < index_from(s, c, from) ==> s[k] != c,
    decreases s.len() - from,
{
    if from < s.len() && s[from] != c {
        lemma_index_from(s, c, from + 1);
    }
}

/// Index of the first `c` in `s` at or after `from`.
pub fn find_char(s: &Vec<char>, c: char, from: usize) -> (r: usize)
    ensures
        r == index_from(s@, c, from as int),
        r <= s.len(),
        from <= s.len() ==> from <= r,
{
    if from > s.len() {
        return s.len();
    }
    let mut i: usize = from;
    while i < s.len()
        invariant
            from <= i <= s.len(),
            from <= s.len(),
            index_from(s@, c, from as int) == index_from(s@, c, i as int),
        decreases s.len() - i,
    {
        if s[i] == c {
            return i;
        }
        i = i + 1;
    }
    i
}

/// Cuts `s` at its first `c`: what stands before it, and what stands
/// after it. Nothing where `s` holds no `c`.
pub fn split_once(s: &str, c: char) -> (r: Option<(String, String)>)
    ensures
        match r {
            Some((a, b)) => {
                let i = index_from(s@, c, 0);
                &&& i < s@.len()
                &&& a@ == s@.subrange(0, i)
                &&& b@ == s@.subrange(i + 1, s@.len() as int)
            },
            None => index_from(s@, c, 0) == s@.len(),
        },
{
    let chars = to_chars(s);
    let i = find_char(&chars, c, 0);
    if i == chars.len() {
        None
    } else {
        let a = string_of(&chars, 0, i);
        let b = string_of(&chars, i + 1, chars.len());
        Some((a, b))
    }
}

/// A line without the carriage return that may end it.
pub open spec fn without_cr(line: Seq<char>) -> Seq<char> {
    if line.len() > 0 && line.last() == '\r' {
        line.drop_last()
    } else {
        line
    }
}

/// The lines of a text, read from position `from`: a line ends with a line
/// feed, which may follow a carriage return; neither belongs to the line.
/// The last line needs no ending.
pub open spec fn lines_from(s: Seq<char>, from: int) -> Seq<Seq<char>>
    decreases s.len() - from,
{
    if from < 0 || from >= s.len() {
        Seq::empty()
    } else {
        let i = index_from(s, '\n', from);
        if i >= s.len() {
            seq![s.subrange(from, s.len() as int)]
        } else if i < from {
            Seq::empty()
        } else {
            seq![without_cr(s.subrange(from, i))] + lines_from(s, i + 1)
        }
    }
}

/// The lines of a text.
pub open spec fn spec_lines(s: Seq<char>) -> Seq<Seq<char>> {
    lines_from(s, 0)
}

/// The lines of a text.
pub fn lines(s: &str) -> (r: Vec<String>)
    ensures
        views(r@) == spec_lines(s@),
{
    let chars = to_chars(s);
    let mut r: Vec<String> = Vec::new();
    let mut from: usize = 0;
    assert(views(r@) + lines_from(s@, 0) =~= spec_lines(s@));
    while from < chars.len()
        invariant
            from <= chars.len(),
            chars@ == s@,
            views(r@) + lines_from(s@, from as int) == spec_lines(s@),
        decreases chars.len() - from,
    {
        let ghost before = views(r@);
        let i = find_char(&chars, '\n', from);
        proof {
            lemma_index_from(s@, '\n', from as int);
        }
        if i == chars.len() {
            let line = string_of(&chars, from, i);
            r.push(line);
            proof {
                assert(views(r@) =~= before.push(s@.subrange(from as int, s@.len() as int)));
                assert(lines_from(s@, chars.len() as int) =~= Seq::<Seq<char>>::empty());
                assert(views(r@) + lines_from(s@, chars.len() as int) =~= before + lines_from(
                    s@,
                    from as int,
                ));
            }
            from = chars.len();
        } else {
            let end: usize = if i > from && chars[i - 1] == '\r' {
                (i - 1) as usize
            } else {
                i
            };
            let line = string_of(&chars, from, end);
            proof {
                let raw = s@.subrange(from as int, i as int);
                if i > from {
                    assert(raw.last() == chars@[i - 1]);
                }
                assert(s@.subrange(from as int, end as int) =~= without_cr(raw));
            }
            r.push(line);
            proof {
                assert(views(r@) =~= before.push(without_cr(s@.subrange(from as int, i as int))));
                assert(views(r@) + lines_from(s@, i + 1) =~= before + lines_from(s@, from as int));
            }
            from = i + 1;
        }
    }
    proof {
        assert(lines_from(s@, from as int) =~= Seq::<Seq<char>>::empty());
        assert(views(r@) + Seq::<Seq<char>>::empty() =~= views(r@));
    }
    r
}

/// `s` without the characters `c` at its two ends.
pub open spec fn trimmed_of(s: Seq<char>, c: char) -> Seq<char>
    decreases s.len(),
{
    if s.len() == 0 {
        s
    } else if s.first() == c {
        trimmed_of(s.drop_first(), c)
    } else if s.last() == c {
        trimmed_of(s.drop_last(), c)
    } else {
        s
    }
}

/// A stretch of `s` with only `c` before it and after it, and no `c` at
/// its own ends, is `s` trimmed of `c`.
pub proof fn lemma_trimmed_of(s: Seq<char>, c: char, a: int, b: int)
    requires
        0 <= a <= b <= s.len(),
        forall|k: int| 0 <= k < a ==> s[k] == c,
        forall|k: int| b <= k < s.len() ==> s[k] == c,
        a < b ==> s[a] != c && s[b - 1] != c,
        a == b ==> a == s.len(),
    ensures
        trimmed_of(s, c) == s.subrange(a, b),
    decreases s.len(),
{
    if s.len() == 0 {
        assert(s.subrange(a, b) =~= s);
    } else if s.first() == c {
        let t = s.drop_first();
        if a == b {
            lemma_trimmed_of(t, c, a - 1, b - 1);
            assert(t.subrange(a - 1, b - 1) =~= s.subrange(a, b));
        } else {
            lemma_trimmed_of(t, c, a - 1, b - 1);
            assert(t.subrange(a - 1, b - 1) =~= s.subrange(a, b));
        }
    } else if s.last() == c {
        let t = s.drop_last();
        assert(a == 0);
        assert(a < b);
        lemma_trimmed_of(t, c, a, b);
        assert(t.subrange(a, b) =~= s.subrange(a, b));
    } else {
        assert(a == 0 && b == s.len());
        assert(s.subrange(a, b) =~= s);
    }
}

/// `s` without the characters `c` at its two ends.
pub fn trim_char(s: &str, c: char) -> (r: String)
    ensures
        r@ == trimmed_of(s@, c),
{
    let chars = to_chars(s);
    let mut a: usize = 0;
    while a < chars.len() && chars[a] == c
        invariant
            a <= chars.len(),
            forall|k: int| 0 <= k < a ==> chars@[k] == c,
        decreases chars.len() - a,
    {
        a = a + 1;
    }
    let mut b: usize = chars.len();
    while b > a && chars[b - 1] == c
        invariant
            a <= b <= chars.len(),
            forall|k: int| b <= k < chars.len() ==> chars@[k] == c,
        decreases b,
    {
        b = b - 1;
    }
    proof {
        if a == b && a < chars.len() {
            assert(chars@[a as int] != c);
            assert(false);
        }
        lemma_trimmed_of(s@, c, a as int, b as int);
    }
    string_of(&chars, a, b)
}

/// What `str::trim` gives: the text without the white space at its two
/// ends.
pub uninterp spec fn spec_trim(s: Seq<char>) -> Seq<char>;

/// `str::trim`, which takes the white space, as Unicode defines it, off
/// both ends of a text. The contract names the result and claims nothing
/// more.
#[verifier::external_body]
pub(crate) fn trim(s: &str) -> (r: String)
    ensures
        r@ == spec_trim(s@),
{
    s.trim().to_string()
}


/// The pieces of a text between the characters `c`, read from position
/// `from`. A text without `c` is one piece; `c` at the end leaves an empty
/// last piece.
pub open spec fn pieces_from(s: Seq<char>, c: char, from: int) -> Seq<Seq<char>>
    decreases s.len() - from,
{
    if from < 0 || from > s.len() {
        Seq::empty()
    } else {
        let i = index_from(s, c, from);
        if i >= s.len() || i < from {
            seq![s.subrange(from, s.len() as int)]
        } else {
            seq![s.subrange(from, i)] + pieces_from(s, c, i + 1)
        }
    }
}

/// The pieces of a text between the characters `c`.
pub fn split_on(s: &str, c: char) -> (r: Vec<String>)
    ensures
        views(r@) == pieces_from(s@, c, 0),
{
    let chars = to_chars(s);
    let mut r: Vec<String> = Vec::new();
    let mut from: usize = 0;
    let mut done = false;
    assert(views(r@) + pieces_from(s@, c, 0) =~= pieces_from(s@, c, 0));
    while !done
        invariant
            from <= chars.len(),
            chars@ == s@,
            !done ==> views(r@) + pieces_from(s@, c, from as int) == pieces_from(s@, c, 0),
            done ==> views(r@) == pieces_from(s@, c, 0),
        decreases chars.len() - from + (if done { 0int } else { 1int }),
    {
        let ghost before = views(r@);
        let i = find_char(&chars, c, from);
        proof {
            lemma_index_from(s@, c, from as int);
        }
        if i == chars.len() {
            r.push(string_of(&chars, from, i));
            proof {
                assert(views(r@) =~= before.push(s@.subrange(from as int, s@.len() as int)));
                assert(views(r@) =~= before + pieces_from(s@, c, from as int));
            }
            done = true;
        } else {
            r.push(string_of(&chars, from, i));
            proof {
                assert(views(r@) =~= before.push(s@.subrange(from as int, i as int)));
                assert(views(r@) + pieces_from(s@, c, i + 1) =~= before + pieces_from(
                    s@,
                    c,
                    from as int,
                ));
            }
            from = i + 1;
        }
    }
    r
}


/// The first position at or after `from` where `p` stands in `s`, or a
/// position past the end of `s` where it stands nowhere.
pub open spec fn first_occurrence(s: Seq<char>, p: Seq<char>, from: int) -> int
    decreases s.len() - from,
{
    if from < 0 || from + p.len() > s.len() {
        s.len() as int + 1
    } else if occurs_at(s, p, from) {
        from
    } else if from >= s.len() {
        s.len() as int + 1
    } else {
        first_occurrence(s, p, from + 1)
    }
}

/// `s` without the first occurrence of `p`; `s` itself where `p` does not
/// occur.
pub open spec fn spec_without_first(s: Seq<char>, p: Seq<char>) -> Seq<char> {
    let i = first_occurrence(s, p, 0);
    if i + p.len() <= s.len() {
        s.subrange(0, i) + s.subrange(i + p.len(), s.len() as int)
    } else {
        s
    }
}

/// Takes the first occurrence of `p` out of `s`.
pub fn without_first(s: &str, p: &str) -> (r: String)
    ensures
        r@ == spec_without_first(s@, p@),
{
    let sc = to_chars(s);
    let pc = to_chars(p);
    if pc.len() > sc.len() {
        return owned(s);
    }
    let last: usize = sc.len() - pc.len();
    let mut i: usize = 0;
    while i < last
        invariant
            i <= last,
            last == sc.len() - pc.len(),
            sc@ == s@,
            pc@ == p@,
            first_occurrence(s@, p@, 0) == first_occurrence(s@, p@, i as int),
        decreases last - i,
    {
        if matches_at(&sc, &pc, i) {
            let mut r = string_of(&sc, 0, i);
            r.append(string_of(&sc, i + pc.len(), sc.len()).as_str());
            return r;
        }
        i = i + 1;
    }
    if matches_at(&sc, &pc, last) {
        let mut r = string_of(&sc, 0, last);
        r.append(string_of(&sc, last + pc.len(), sc.len()).as_str());
        return r;
    }
    assert(first_occurrence(s@, p@, last as int) == s@.len() + 1) by {
        assert(first_occurrence(s@, p@, last + 1) == s@.len() + 1);
    }
    owned(s)
}

} // verus!
