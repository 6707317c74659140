//! Verified helpers for vectors of strings used as sets and as small maps.

use vstd::prelude::*;
use crate::text::{char_at, char_len, str_eq};

verus! {

/// The character contents of a sequence of strings.
pub open spec fn views(v: Seq<String>) -> Seq<Seq<char>> {
    v.map_values(|s: String| s@)
}

/// Pairs of strings as pairs of character sequences.
pub open spec fn pair_views(v: Seq<(String, String)>) -> Seq<(Seq<char>, Seq<char>)> {
    v.map_values(|p: (String, String)| (p.0@, p.1@))
}

/// The keys of a small map held as a vector of pairs.
pub open spec fn keys_of(m: Seq<(Seq<char>, Seq<char>)>) -> Seq<Seq<char>> {
    m.map_values(|p: (Seq<char>, Seq<char>)| p.0)
}

/// The value of the first pair whose key is `k`.
pub open spec fn lookup(m: Seq<(Seq<char>, Seq<char>)>, k: Seq<char>) -> Option<Seq<char>>
    decreases m.len(),
{
    if m.len() == 0 {
        None
    } else if m[0].0 == k {
        Some(m[0].1)
    } else {
        lookup(m.drop_first(), k)
    }
}

pub proof fn lemma_lookup(m: Seq<(Seq<char>, Seq<char>)>, k: Seq<char>)
    ensures
        lookup(m, k) is Some <==> keys_of(m).contains(k),
        lookup(m, k) is Some ==> exists|i: int| 0 <= i < m.len() && m[i].0 == k && m[i].1 == lookup(m, k)->0,
    decreases m.len(),
{
    if m.len() > 0 {
        lemma_lookup(m.drop_first(), k);
        if m[0].0 != k {
            if keys_of(m).contains(k) {
                let i = choose|i: int| 0 <= i < keys_of(m).len() && keys_of(m)[i] == k;
                assert(keys_of(m.drop_first())[i - 1] == k);
            }
            if keys_of(m.drop_first()).contains(k) {
                let i = choose|i: int| 0 <= i < keys_of(m.drop_first()).len() && keys_of(m.drop_first())[i] == k;
                assert(keys_of(m)[i + 1] == k);
            }
            if lookup(m, k) is Some {
                let i = choose|i: int| 0 <= i < m.len() - 1 && m.drop_first()[i].0 == k && m.drop_first()[i].1 == lookup(m, k)->0;
                assert(m[i + 1] == m.drop_first()[i]);
            }
        } else {
            assert(keys_of(m)[0] == k);
        }
    }
}

/// Whether `v` holds a string equal to `s`.
pub fn contains_str(v: &Vec<String>, s: &str) -> (result: bool)
    ensures
        result == views(v@).contains(s@),
{
    let mut i: usize = 0;
    while i < v.len()
        invariant
            i <= v@.len(),
            forall|k: int| 0 <= k < i ==> views(v@)[k] != s@,
        decreases v@.len() - i,
    {
        if str_eq(v[i].as_str(), s) {
            assert(views(v@)[i as int] == s@);
            return true;
        }
        i += 1;
    }
    false
}

/// The value stored under key `k` in a vector of pairs, if any.
pub fn lookup_str<'a>(m: &'a Vec<(String, String)>, k: &str) -> (result: Option<&'a String>)
    ensures
        match result {
            Some(v) => lookup(pair_views(m@), k@) == Some(v@),
            None => lookup(pair_views(m@), k@) is None,
        },
{
    let mut i: usize = 0;
    assert(pair_views(m@).subrange(0, m@.len() as int) =~= pair_views(m@));
    while i < m.len()
        invariant
            i <= m@.len(),
            lookup(pair_views(m@), k@) == lookup(pair_views(m@).subrange(i as int, m@.len() as int), k@),
        decreases m@.len() - i,
    {
        let ghost rest = pair_views(m@).subrange(i as int, m@.len() as int);
        assert(rest.drop_first() =~= pair_views(m@).subrange(i + 1, m@.len() as int));
        if str_eq(m[i].0.as_str(), k) {
            return Some(&m[i].1);
        }
        i += 1;
    }
    None
}

/// Adds `s` unless an equal string is already present.
pub fn insert_unique(v: &mut Vec<String>, s: String)
    requires
        views(old(v)@).no_duplicates(),
    ensures
        views(final(v)@).no_duplicates(),
        views(final(v)@).to_set() == views(old(v)@).to_set().insert(s@),
        views(old(v)@).contains(s@) ==> final(v)@ == old(v)@,
        !views(old(v)@).contains(s@) ==> final(v)@ == old(v)@.push(s),
{
    if !contains_str(v, s.as_str()) {
        let ghost before = v@;
        v.push(s);
        proof {
            assert(views(v@) =~= views(before).push(s@));
            views(before).lemma_push_to_set_commute(s@);
        }
    } else {
        assert(views(v@).to_set() =~= views(v@).to_set().insert(s@));
    }
}

/// Lexicographic order by code point, which is how `str`'s `Ord` compares
/// (its byte order under UTF-8 is the code-point order).
pub open spec fn seq_lt(a: Seq<char>, b: Seq<char>) -> bool
    decreases a.len(),
{
    if b.len() == 0 {
        false
    } else if a.len() == 0 {
        true
    } else if a[0] != b[0] {
        a[0] < b[0]
    } else {
        seq_lt(a.drop_first(), b.drop_first())
    }
}

/// `a < b` for strings.
pub fn str_lt(a: &str, b: &str) -> (result: bool)
    ensures
        result == seq_lt(a@, b@),
{
    let na = char_len(a);
    let nb = char_len(b);
    let mut i: usize = 0;
    assert(a@.skip(0) =~= a@);
    assert(b@.skip(0) =~= b@);
    while i < na && i < nb
        invariant
            na == a@.len(),
            nb == b@.len(),
            i <= na,
            i <= nb,
            seq_lt(a@, b@) == seq_lt(a@.skip(i as int), b@.skip(i as int)),
        decreases na - i,
    {
        let ca = char_at(a, i);
        let cb = char_at(b, i);
        assert(a@.skip(i as int)[0] == ca);
        assert(b@.skip(i as int)[0] == cb);
        if ca != cb {
            return ca < cb;
        }
        assert(a@.skip(i as int).drop_first() =~= a@.skip(i + 1));
        assert(b@.skip(i as int).drop_first() =~= b@.skip(i + 1));
        i += 1;
    }
    i < nb && i == na
}

/// `seq_lt` is a strict total order.
pub proof fn lemma_seq_lt_order(a: Seq<char>, b: Seq<char>, c: Seq<char>)
    ensures
        !seq_lt(a, a),
        seq_lt(a, b) ==> !seq_lt(b, a),
        seq_lt(a, b) && seq_lt(b, c) ==> seq_lt(a, c),
        a != b ==> seq_lt(a, b) || seq_lt(b, a),
{
    lemma_seq_lt_irreflexive(a);
    lemma_seq_lt_asymmetric(a, b);
    lemma_seq_lt_transitive(a, b, c);
    lemma_seq_lt_total(a, b);
}

proof fn lemma_seq_lt_irreflexive(a: Seq<char>)
    ensures
        !seq_lt(a, a),
    decreases a.len(),
{
    if a.len() > 0 {
        lemma_seq_lt_irreflexive(a.drop_first());
    }
}

proof fn lemma_seq_lt_asymmetric(a: Seq<char>, b: Seq<char>)
    ensures
        seq_lt(a, b) ==> !seq_lt(b, a),
    decreases a.len(),
{
    if a.len() > 0 && b.len() > 0 && a[0] == b[0] {
        lemma_seq_lt_asymmetric(a.drop_first(), b.drop_first());
    }
}

proof fn lemma_seq_lt_transitive(a: Seq<char>, b: Seq<char>, c: Seq<char>)
    ensures
        seq_lt(a, b) && seq_lt(b, c) ==> seq_lt(a, c),
    decreases a.len(),
{
    if a.len() > 0 && b.len() > 0 && c.len() > 0 && a[0] == b[0] && b[0] == c[0] {
        lemma_seq_lt_transitive(a.drop_first(), b.drop_first(), c.drop_first());
    }
}

proof fn lemma_seq_lt_total(a: Seq<char>, b: Seq<char>)
    ensures
        a != b ==> seq_lt(a, b) || seq_lt(b, a),
    decreases a.len(),
{
    if a.len() > 0 && b.len() > 0 && a[0] == b[0] {
        lemma_seq_lt_total(a.drop_first(), b.drop_first());
        if a.drop_first() == b.drop_first() {
            assert(a =~= seq![a[0]] + a.drop_first());
            assert(b =~= seq![b[0]] + b.drop_first());
        }
    }
    if a.len() > 0 && b.len() > 0 && a[0] != b[0] {
        assert(a[0] < b[0] || b[0] < a[0]);
    }
    if a.len() == 0 && b.len() == 0 {
        assert(a =~= b);
    }
}


/// Appending a pair leaves every earlier answer and adds its own key where
/// the key was absent.
pub proof fn lemma_lookup_push(m: Seq<(Seq<char>, Seq<char>)>, e: (Seq<char>, Seq<char>), k: Seq<char>)
    ensures
        lookup(m.push(e), k) == match lookup(m, k) {
            Some(v) => Some(v),
            None => if e.0 == k {
                Some(e.1)
            } else {
                None
            },
        },
    decreases m.len(),
{
    let pushed = m.push(e);
    if m.len() > 0 {
        assert(pushed[0] == m[0]);
        assert(pushed.drop_first() =~= m.drop_first().push(e));
        lemma_lookup_push(m.drop_first(), e, k);
        if m[0].0 != k {
            assert(lookup(pushed, k) == lookup(pushed.drop_first(), k));
            assert(lookup(m, k) == lookup(m.drop_first(), k));
        }
    } else {
        assert(pushed[0] == e);
        assert(pushed.drop_first() =~= Seq::<(Seq<char>, Seq<char>)>::empty());
        assert(lookup(m, k) is None);
        if e.0 != k {
            assert(lookup(pushed, k) == lookup(pushed.drop_first(), k));
        }
    }
}

} // verus!
