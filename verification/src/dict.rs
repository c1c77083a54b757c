//! Dictionaries: entry lists kept in increasing key order, keys compared
//! as `String`s are (by code point, lexicographically).
use vstd::prelude::*;
use crate::text::{str_to_chars, str_eq};
use crate::types::{LispVal, SVal, binds_view, lookup, lemma_sv_unfold};

verus! {

broadcast use lemma_sv_unfold;

/// Lexicographic order on character sequences.
pub open spec fn key_lt(a: Seq<char>, b: Seq<char>) -> bool
    decreases a.len(),
{
    if a.len() == 0 {
        b.len() > 0
    } else if b.len() == 0 {
        false
    } else if a[0] < b[0] {
        true
    } else if a[0] == b[0] {
        key_lt(a.skip(1), b.skip(1))
    } else {
        false
    }
}

/// `a < b` on strings.
pub fn str_lt(a: &str, b: &str) -> (r: bool)
    ensures
        r == key_lt(a@, b@),
{
    let av = str_to_chars(a);
    let bv = str_to_chars(b);
    let mut i: usize = 0;
    assert(av@.skip(0) =~= av@);
    assert(bv@.skip(0) =~= bv@);
    while i < av.len() && i < bv.len()
        invariant
            i <= av@.len(),
            i <= bv@.len(),
            av@ == a@,
            bv@ == b@,
            key_lt(av@, bv@) == key_lt(av@.skip(i as int), bv@.skip(i as int)),
        decreases av.len() - i,
    {
        let x = av[i];
        let y = bv[i];
        proof {
            let sa = av@.skip(i as int);
            let sb = bv@.skip(i as int);
            assert(sa[0] == x);
            assert(sb[0] == y);
            assert(sa.skip(1) =~= av@.skip(i + 1));
            assert(sb.skip(1) =~= bv@.skip(i + 1));
            assert(sa.len() > 0 && sb.len() > 0);
            assert(key_lt(sa, sb) == (if sa[0] < sb[0] { true } else if sa[0] == sb[0] {
                key_lt(sa.skip(1), sb.skip(1)) } else { false }));
        }
        if x < y {
            return true;
        }
        if x != y {
            return false;
        }
        i += 1;
    }
    proof {
        assert(av@.skip(i as int).len() == av@.len() - i);
    }
    i == av.len() && i < bv.len()
}

/// Key order holds between every pair of entries.
pub open spec fn sorted_keys(m: Seq<(Seq<char>, SVal)>) -> bool {
    forall|i: int, j: int| 0 <= i < j < m.len() ==> key_lt(#[trigger] m[i].0, #[trigger] m[j].0)
}

/// `m` with `k` bound to `v`: replaced in place when present, inserted
/// before the first larger key otherwise.
pub open spec fn dict_insert(m: Seq<(Seq<char>, SVal)>, k: Seq<char>, v: SVal) -> Seq<(Seq<char>, SVal)>
    decreases m.len(),
{
    if m.len() == 0 {
        seq![(k, v)]
    } else if m[0].0 == k {
        seq![(k, v)] + m.skip(1)
    } else if key_lt(k, m[0].0) {
        seq![(k, v)] + m
    } else {
        seq![m[0]] + dict_insert(m.skip(1), k, v)
    }
}

/// `m` without the entries for `k`.
pub open spec fn dict_remove(m: Seq<(Seq<char>, SVal)>, k: Seq<char>) -> Seq<(Seq<char>, SVal)>
    decreases m.len(),
{
    if m.len() == 0 {
        m
    } else if m[0].0 == k {
        dict_remove(m.skip(1), k)
    } else {
        seq![m[0]] + dict_remove(m.skip(1), k)
    }
}

proof fn lemma_insert_prefix(m: Seq<(Seq<char>, SVal)>, k: Seq<char>, v: SVal, i: int)
    requires
        0 <= i <= m.len(),
        forall|j: int| 0 <= j < i ==> (#[trigger] m[j]).0 != k && !key_lt(k, m[j].0),
    ensures
        dict_insert(m, k, v) == m.take(i) + dict_insert(m.skip(i), k, v),
    decreases i,
{
    if i > 0 {
        assert(m[0].0 != k && !key_lt(k, m[0].0));
        let t = m.skip(1);
        assert forall|j: int| 0 <= j < i - 1 implies (#[trigger] t[j]).0 != k && !key_lt(k, t[j].0) by {
            assert(t[j] == m[j + 1]);
        };
        lemma_insert_prefix(t, k, v, i - 1);
        assert(t.skip(i - 1) =~= m.skip(i));
        assert(seq![m[0]] + t.take(i - 1) =~= m.take(i));
    } else {
        assert(m.skip(0) =~= m);
    }
}

/// Binds `k` to `v` (see `dict_insert`).
pub fn dict_set(m: &mut Vec<(String, LispVal)>, k: String, v: LispVal)
    ensures
        binds_view(final(m)@) == dict_insert(binds_view(old(m)@), k@, v.sv()),
{
    let ghost mv = binds_view(m@);
    let mut i: usize = 0;
    loop
        invariant
            i <= m@.len(),
            mv == binds_view(m@),
            forall|j: int| 0 <= j < i ==> (#[trigger] mv[j]).0 != k@ && !key_lt(k@, mv[j].0),
        ensures
            i <= m@.len(),
            i < m@.len() ==> (mv[i as int].0 == k@ || key_lt(k@, mv[i as int].0)),
            forall|j: int| 0 <= j < i ==> (#[trigger] mv[j]).0 != k@ && !key_lt(k@, mv[j].0),
        decreases m.len() - i,
    {
        if i >= m.len() {
            break;
        }
        assert(mv[i as int] == (m@[i as int].0@, m@[i as int].1.sv()));
        if str_eq(m[i].0.as_str(), k.as_str()) || str_lt(k.as_str(), m[i].0.as_str()) {
            break;
        }
        i += 1;
    }
    proof {
        lemma_insert_prefix(mv, k@, v.sv(), i as int);
    }
    if i < m.len() && str_eq(m[i].0.as_str(), k.as_str()) {
        let ghost t = mv.skip(i as int);
        assert(t[0] == mv[i as int]);
        assert(t.len() > 0);
        assert(dict_insert(t, k@, v.sv()) == seq![(k@, v.sv())] + t.skip(1));
        m.set(i, (k, v));
        assert(binds_view(m@) =~= mv.take(i as int) + (seq![(k@, v.sv())] + t.skip(1)));
    } else {
        let ghost t = mv.skip(i as int);
        m.insert(i, (k, v));
        assert(binds_view(m@) =~= mv.take(i as int) + (seq![(k@, v.sv())] + t));
        proof {
            if i < mv.len() {
                assert(t[0] == mv[i as int]);
            } else {
                assert(t.len() == 0);
            }
        }
    }
}

/// Drops the entries for `k` (see `dict_remove`).
pub fn dict_without(m: &Vec<(String, LispVal)>, k: &str) -> (r: Vec<(String, LispVal)>)
    ensures
        binds_view(r@) == dict_remove(binds_view(m@), k@),
{
    let ghost mv = binds_view(m@);
    let mut r: Vec<(String, LispVal)> = Vec::new();
    let mut i: usize = 0;
    assert(mv.skip(0) =~= mv);
    assert(binds_view(r@) + mv =~= mv);
    while i < m.len()
        invariant
            i <= m@.len(),
            mv == binds_view(m@),
            dict_remove(mv, k@) == binds_view(r@) + dict_remove(mv.skip(i as int), k@),
        decreases m.len() - i,
    {
        let ghost t = mv.skip(i as int);
        assert(t[0] == mv[i as int]);
        assert(t.skip(1) =~= mv.skip(i + 1));
        if !str_eq(m[i].0.as_str(), k) {
            let ghost before = binds_view(r@);
            let key = m[i].0.clone();
            let val = m[i].1.deep_clone();
            r.push((key, val));
            assert(binds_view(r@) =~= before + seq![mv[i as int]]);
        }
        i += 1;
    }
    assert(mv.skip(i as int) =~= Seq::<(Seq<char>, SVal)>::empty());
    assert(binds_view(r@) + Seq::<(Seq<char>, SVal)>::empty() =~= binds_view(r@));
    r
}

/// The value bound to `k`, if any.
pub fn dict_lookup<'a>(m: &'a Vec<(String, LispVal)>, k: &str) -> (r: Option<&'a LispVal>)
    ensures
        lookup(binds_view(m@), k@) == (match r { Some(v) => Some(v.sv()), None => None }),
{
    let ghost mv = binds_view(m@);
    let mut i = m.len();
    assert(mv.take(i as int) =~= mv);
    while i > 0
        invariant
            i <= m@.len(),
            mv == binds_view(m@),
            lookup(mv, k@) == lookup(mv.take(i as int), k@),
        decreases i,
    {
        proof {
            assert(mv.take(i as int).drop_last() =~= mv.take(i - 1));
            assert(mv[i - 1] == (m@[i - 1].0@, m@[i - 1].1.sv()));
        }
        if str_eq(m[i - 1].0.as_str(), k) {
            return Some(&m[i - 1].1);
        }
        i -= 1;
    }
    None
}

/// `lookup` in a concatenation: the later part first.
pub proof fn lemma_lookup_append(a: Seq<(Seq<char>, SVal)>, b: Seq<(Seq<char>, SVal)>, k: Seq<char>)
    ensures
        lookup(a + b, k) == (match lookup(b, k) { Some(v) => Some(v), None => lookup(a, k) }),
    decreases b.len(),
{
    if b.len() == 0 {
        assert(a + b =~= a);
    } else {
        assert((a + b).drop_last() =~= a + b.drop_last());
        assert((a + b).last() == b.last());
        lemma_lookup_append(a, b.drop_last(), k);
    }
}

/// No entry of `m` has key `k`.
pub open spec fn key_absent(m: Seq<(Seq<char>, SVal)>, k: Seq<char>) -> bool {
    forall|i: int| 0 <= i < m.len() ==> (#[trigger] m[i]).0 != k
}

proof fn lemma_lookup_absent(m: Seq<(Seq<char>, SVal)>, k: Seq<char>)
    requires
        key_absent(m, k),
    ensures
        lookup(m, k) is None,
    decreases m.len(),
{
    if m.len() > 0 {
        assert(m.last() == m[m.len() - 1]);
        let d = m.drop_last();
        assert forall|i: int| 0 <= i < d.len() implies (#[trigger] d[i]).0 != k by {
            assert(d[i] == m[i]);
        }
        lemma_lookup_absent(d, k);
    }
}

proof fn lemma_key_lt_irrefl(a: Seq<char>)
    ensures
        !key_lt(a, a),
    decreases a.len(),
{
    if a.len() > 0 {
        lemma_key_lt_irrefl(a.skip(1));
    }
}

/// After `dict/set` of `k` in a dictionary, `dict/get` of `k` gives the value
/// that was set.
pub proof fn lemma_dict_get_after_set(m: Seq<(Seq<char>, SVal)>, k: Seq<char>, v: SVal)
    requires
        sorted_keys(m),
    ensures
        lookup(dict_insert(m, k, v), k) == Some(v),
    decreases m.len(),
{
    if m.len() == 0 {
    } else if m[0].0 == k {
        let rest = m.skip(1);
        assert forall|i: int| 0 <= i < rest.len() implies (#[trigger] rest[i]).0 != k by {
            assert(rest[i] == m[i + 1]);
            assert(key_lt(m[0].0, m[i + 1].0));
            lemma_key_lt_irrefl(k);
        }
        lemma_lookup_absent(rest, k);
        lemma_lookup_append(seq![(k, v)], rest, k);
    } else if key_lt(k, m[0].0) {
        assert forall|i: int| 0 <= i < m.len() implies (#[trigger] m[i]).0 != k by {
            if i > 0 && m[i].0 == k {
                assert(key_lt(m[0].0, m[i].0));
                lemma_key_lt_asym(k, m[0].0);
            }
        }
        lemma_lookup_absent(m, k);
        lemma_lookup_append(seq![(k, v)], m, k);
    } else {
        let rest = m.skip(1);
        assert(sorted_keys(rest)) by {
            assert forall|i: int, j: int| 0 <= i < j < rest.len() implies key_lt(#[trigger] rest[i].0, #[trigger] rest[j].0) by {
                assert(rest[i] == m[i + 1] && rest[j] == m[j + 1]);
            }
        }
        lemma_dict_get_after_set(rest, k, v);
        lemma_lookup_append(seq![m[0]], dict_insert(rest, k, v), k);
    }
}

proof fn lemma_key_lt_asym(a: Seq<char>, b: Seq<char>)
    ensures
        !(key_lt(a, b) && key_lt(b, a)),
    decreases a.len(),
{
    if a.len() > 0 && b.len() > 0 && a[0] == b[0] {
        lemma_key_lt_asym(a.skip(1), b.skip(1));
    }
}

/// After `dict/remove` of `k`, `dict/get` of `k` finds nothing.
pub proof fn lemma_dict_get_after_remove(m: Seq<(Seq<char>, SVal)>, k: Seq<char>)
    ensures
        lookup(dict_remove(m, k), k) is None,
    decreases m.len(),
{
    if m.len() > 0 {
        lemma_dict_get_after_remove(m.skip(1), k);
        if m[0].0 != k {
            lemma_lookup_append(seq![m[0]], dict_remove(m.skip(1), k), k);
            let one = seq![m[0]];
            assert(key_absent(one, k)) by {
                assert forall|i: int| 0 <= i < one.len() implies (#[trigger] one[i]).0 != k by {
                    assert(one[i] == m[0]);
                }
            }
            lemma_lookup_absent(one, k);
        }
    }
}

} // verus!
