//! Stable meeting-local speaker keys across diarization passes.
//!
//! A new pass numbers its clusters afresh. Each new cluster (a backend
//! label) greedily claims the earlier key with which it shares the most
//! time; a key is claimed at most once. Clusters that claim nothing get
//! fresh `speaker_NN` keys that no earlier key uses.
use vstd::prelude::*;
use crate::database::speaker_turn::{key_from_label, SpeakerTurnsRepository, StoredTurn};
use crate::diarization::offline::numbered_key;
use crate::strings::{contains_str, insert_unique, lemma_seq_lt_order, seq_lt, str_lt, views};
use crate::text::{char_len, owned, str_eq, u64_to_padded_decimal};

verus! {

/// Strictly ascending under the string order.
pub open spec fn strictly_sorted(v: Seq<Seq<char>>) -> bool {
    forall|i: int, j: int| 0 <= i < j < v.len() ==> seq_lt(#[trigger] v[i], #[trigger] v[j])
}

pub(crate) proof fn lemma_sorted_no_duplicates(v: Seq<Seq<char>>)
    requires
        strictly_sorted(v),
    ensures
        v.no_duplicates(),
{
    assert forall|i: int, j: int| 0 <= i < v.len() && 0 <= j < v.len() && i != j implies v[i] != v[j] by {
        lemma_seq_lt_order(v[i], v[i], v[i]);
        lemma_seq_lt_order(v[j], v[j], v[j]);
    }
}

/// Adds `s` to an ascending, duplicate-free vector, keeping it so.
pub(crate) fn insert_sorted(v: &mut Vec<String>, s: String)
    requires
        strictly_sorted(views(old(v)@)),
    ensures
        strictly_sorted(views(final(v)@)),
        views(final(v)@).to_set() == views(old(v)@).to_set().insert(s@),
{
    let ghost before = views(v@);
    let mut p: usize = 0;
    while p < v.len() && str_lt(v[p].as_str(), s.as_str())
        invariant
            p <= v@.len(),
            views(v@) == before,
            forall|k: int| 0 <= k < p ==> seq_lt(#[trigger] before[k], s@),
        decreases v@.len() - p,
    {
        p += 1;
    }
    if p < v.len() && str_eq(v[p].as_str(), s.as_str()) {
        assert(before[p as int] == s@);
        assert(before.to_set().insert(s@) =~= before.to_set());
        return;
    }
    proof {
        if p < before.len() {
            lemma_seq_lt_order(s@, before[p as int], s@);
        }
    }
    v.insert(p, s);
    proof {
        let after = views(v@);
        assert(after =~= before.insert(p as int, s@));
        assert forall|i: int, j: int| 0 <= i < j < after.len() implies seq_lt(#[trigger] after[i], #[trigger] after[j]) by {
            if j < p {
                assert(after[i] == before[i] && after[j] == before[j]);
            } else if j == p {
                assert(after[i] == before[i]);
            } else if i == p {
                assert(after[j] == before[j - 1]);
                if j - 1 > p {
                    lemma_seq_lt_order(s@, before[p as int], before[j - 1]);
                }
            } else if i < p {
                assert(after[i] == before[i] && after[j] == before[j - 1]);
            } else {
                assert(after[i] == before[i - 1] && after[j] == before[j - 1]);
            }
        }
        assert forall|x: Seq<char>| after.to_set().contains(x) <==> before.to_set().insert(s@).contains(x) by {
            if after.to_set().contains(x) {
                let k = choose|k: int| 0 <= k < after.len() && after[k] == x;
                if k < p {
                    assert(before[k] == x);
                } else if k > p {
                    assert(before[k - 1] == x);
                }
            }
            if before.to_set().contains(x) {
                let k = choose|k: int| 0 <= k < before.len() && before[k] == x;
                if k < p {
                    assert(after[k] == x);
                } else {
                    assert(after[k + 1] == x);
                }
            }
            if x == s@ {
                assert(after[p as int] == x);
            }
        }
        assert(after.to_set() =~= before.to_set().insert(s@));
    }
}

/// The backend labels of a pass.
pub open spec fn labels_of(turns: Seq<StoredTurn>) -> Seq<Seq<char>> {
    turns.map_values(|t: StoredTurn| t.speaker_label@)
}

/// The nonempty keys of the earlier pass.
pub open spec fn keys_of(turns: Seq<StoredTurn>) -> Set<Seq<char>> {
    turns.map_values(|t: StoredTurn| t.speaker_key@).to_set().filter(|k: Seq<char>| k.len() > 0)
}

/// The distinct labels of `turns`, ascending.
fn sorted_labels(turns: &[StoredTurn]) -> (result: Vec<String>)
    ensures
        strictly_sorted(views(result@)),
        views(result@).to_set() == labels_of(turns@).to_set(),
{
    let mut out: Vec<String> = Vec::new();
    let mut i: usize = 0;
    while i < turns.len()
        invariant
            i <= turns@.len(),
            strictly_sorted(views(out@)),
            views(out@).to_set() == labels_of(turns@).subrange(0, i as int).to_set(),
        decreases turns@.len() - i,
    {
        let ghost prev = labels_of(turns@).subrange(0, i as int);
        insert_sorted(&mut out, owned(turns[i].speaker_label.as_str()));
        proof {
            assert(labels_of(turns@).subrange(0, i + 1) =~= prev.push(turns@[i as int].speaker_label@));
            prev.lemma_push_to_set_commute(turns@[i as int].speaker_label@);
        }
        i += 1;
    }
    assert(labels_of(turns@).subrange(0, turns@.len() as int) =~= labels_of(turns@));
    out
}

/// The distinct nonempty keys of `turns`, ascending.
fn sorted_keys(turns: &[StoredTurn]) -> (result: Vec<String>)
    ensures
        strictly_sorted(views(result@)),
        views(result@).to_set() == keys_of(turns@),
{
    let ghost all = turns@.map_values(|t: StoredTurn| t.speaker_key@);
    let mut out: Vec<String> = Vec::new();
    let mut i: usize = 0;
    while i < turns.len()
        invariant
            i <= turns@.len(),
            all == turns@.map_values(|t: StoredTurn| t.speaker_key@),
            strictly_sorted(views(out@)),
            views(out@).to_set() == all.subrange(0, i as int).to_set().filter(|k: Seq<char>| k.len() > 0),
        decreases turns@.len() - i,
    {
        let ghost prev = all.subrange(0, i as int);
        let key = turns[i].speaker_key.as_str();
        proof {
            assert(all.subrange(0, i + 1) =~= prev.push(key@));
            prev.lemma_push_to_set_commute(key@);
        }
        if char_len(key) > 0 {
            insert_sorted(&mut out, owned(key));
            assert(prev.push(key@).to_set().filter(|k: Seq<char>| k.len() > 0) =~= prev.to_set().filter(
                |k: Seq<char>| k.len() > 0,
            ).insert(key@));
        } else {
            assert(prev.push(key@).to_set().filter(|k: Seq<char>| k.len() > 0) =~= prev.to_set().filter(
                |k: Seq<char>| k.len() > 0,
            ));
        }
        i += 1;
    }
    assert(all.subrange(0, turns@.len() as int) =~= all);
    out
}

/// The time two turns share.
pub open spec fn turn_overlap(a: StoredTurn, b: StoredTurn) -> int {
    let end = if a.end_ms < b.end_ms {
        a.end_ms
    } else {
        b.end_ms
    };
    let start = if a.start_ms > b.start_ms {
        a.start_ms
    } else {
        b.start_ms
    };
    if end - start > 0 {
        end - start
    } else {
        0
    }
}

/// The time turn `t` shares with the turns of `old[..m]` filed under `key`.
pub open spec fn shared_with_key(t: StoredTurn, old: Seq<StoredTurn>, key: Seq<char>, m: int) -> int
    decreases m,
{
    if m <= 0 {
        0
    } else {
        shared_with_key(t, old, key, m - 1) + if old[m - 1].speaker_key@ == key {
            turn_overlap(t, old[m - 1])
        } else {
            0
        }
    }
}

/// How strongly cluster `label` claims earlier key `key`: the time its
/// turns among `new[..n]` share with the earlier turns under `key`.
pub open spec fn claim_score(new: Seq<StoredTurn>, old: Seq<StoredTurn>, label: Seq<char>, key: Seq<char>, n: int) -> int
    decreases n,
{
    if n <= 0 {
        0
    } else {
        claim_score(new, old, label, key, n - 1) + if new[n - 1].speaker_label@ == label {
            shared_with_key(new[n - 1], old, key, old.len() as int)
        } else {
            0
        }
    }
}

proof fn lemma_shared_monotone(t: StoredTurn, old: Seq<StoredTurn>, key: Seq<char>, m: int, m2: int)
    requires
        0 <= m <= m2,
    ensures
        0 <= shared_with_key(t, old, key, m) <= shared_with_key(t, old, key, m2),
    decreases m2,
{
    if m2 > m {
        lemma_shared_monotone(t, old, key, m, m2 - 1);
    } else if m > 0 {
        lemma_shared_monotone(t, old, key, m - 1, m - 1);
    }
}

proof fn lemma_claim_monotone(new: Seq<StoredTurn>, old: Seq<StoredTurn>, label: Seq<char>, key: Seq<char>, n: int, n2: int)
    requires
        0 <= n <= n2,
    ensures
        0 <= claim_score(new, old, label, key, n) <= claim_score(new, old, label, key, n2),
    decreases n2,
{
    if n2 > n {
        lemma_claim_monotone(new, old, label, key, n, n2 - 1);
        lemma_shared_monotone(new[n2 - 1], old, key, 0, old.len() as int);
    } else if n > 0 {
        lemma_claim_monotone(new, old, label, key, n - 1, n - 1);
        lemma_shared_monotone(new[n - 1], old, key, 0, old.len() as int);
    }
}

fn claim_score_of(new: &[StoredTurn], old: &[StoredTurn], label: &str, key: &str) -> (result: i64)
    requires
        claim_score(new@, old@, label@, key@, new@.len() as int) <= i64::MAX,
    ensures
        result == claim_score(new@, old@, label@, key@, new@.len() as int),
{
    let ghost total = claim_score(new@, old@, label@, key@, new@.len() as int);
    let mut acc: i64 = 0;
    let mut n: usize = 0;
    while n < new.len()
        invariant
            n <= new@.len(),
            total == claim_score(new@, old@, label@, key@, new@.len() as int),
            total <= i64::MAX,
            acc == claim_score(new@, old@, label@, key@, n as int),
        decreases new@.len() - n,
    {
        proof {
            lemma_claim_monotone(new@, old@, label@, key@, n + 1, new@.len() as int);
            lemma_claim_monotone(new@, old@, label@, key@, n as int, n + 1);
        }
        let t = &new[n];
        if str_eq(t.speaker_label.as_str(), label) {
            let ghost cap = claim_score(new@, old@, label@, key@, n + 1);
            let mut m: usize = 0;
            while m < old.len()
                invariant
                    n < new@.len(),
                    m <= old@.len(),
                    *t == new@[n as int],
                    t.speaker_label@ == label@,
                    cap == claim_score(new@, old@, label@, key@, n + 1),
                    cap <= i64::MAX,
                    cap == claim_score(new@, old@, label@, key@, n as int) + shared_with_key(*t, old@, key@, old@.len() as int),
                    acc == claim_score(new@, old@, label@, key@, n as int) + shared_with_key(*t, old@, key@, m as int),
                decreases old@.len() - m,
            {
                proof {
                    lemma_shared_monotone(*t, old@, key@, m + 1, old@.len() as int);
                    lemma_shared_monotone(*t, old@, key@, m as int, m + 1);
                    lemma_claim_monotone(new@, old@, label@, key@, 0, n as int);
                }
                let o = &old[m];
                if str_eq(o.speaker_key.as_str(), key) {
                    let end: i128 = if t.end_ms < o.end_ms {
                        t.end_ms as i128
                    } else {
                        o.end_ms as i128
                    };
                    let start: i128 = if t.start_ms > o.start_ms {
                        t.start_ms as i128
                    } else {
                        o.start_ms as i128
                    };
                    if end - start > 0 {
                        assert(old@[m as int] == *o);
                        let d = (end - start) as i64;
                        acc = acc + d;
                    }
                }
                m += 1;
            }
        }
        n += 1;
    }
    acc
}

/// `scores[i][j]` is how strongly label `i` claims key `j`.
pub open spec fn scores_match(
    scores: Seq<Seq<i64>>,
    labels: Seq<Seq<char>>,
    keys: Seq<Seq<char>>,
    new: Seq<StoredTurn>,
    old: Seq<StoredTurn>,
) -> bool {
    &&& scores.len() == labels.len()
    &&& forall|i: int| 0 <= i < labels.len() ==> (#[trigger] scores[i]).len() == keys.len()
    &&& forall|i: int, j: int|
        0 <= i < labels.len() && 0 <= j < keys.len() ==> (#[trigger] scores[i][j]) as int == claim_score(
            new,
            old,
            labels[i],
            keys[j],
            new.len() as int,
        )
}

fn score_matrix(new: &[StoredTurn], old: &[StoredTurn], labels: &Vec<String>, keys: &Vec<String>) -> (result: Vec<Vec<i64>>)
    requires
        forall|i: int, j: int|
            0 <= i < labels@.len() && 0 <= j < keys@.len() ==> claim_score(
                new@,
                old@,
                #[trigger] labels@[i]@,
                #[trigger] keys@[j]@,
                new@.len() as int,
            ) <= i64::MAX,
    ensures
        scores_match(result@.map_values(|r: Vec<i64>| r@), views(labels@), views(keys@), new@, old@),
{
    let mut rows: Vec<Vec<i64>> = Vec::new();
    let mut i: usize = 0;
    while i < labels.len()
        invariant
            i <= labels@.len(),
            rows@.len() == i,
            forall|a: int, j: int|
                0 <= a < labels@.len() && 0 <= j < keys@.len() ==> claim_score(
                    new@,
                    old@,
                    #[trigger] labels@[a]@,
                    #[trigger] keys@[j]@,
                    new@.len() as int,
                ) <= i64::MAX,
            forall|a: int| 0 <= a < i ==> (#[trigger] rows@[a])@.len() == keys@.len(),
            forall|a: int, j: int|
                0 <= a < i && 0 <= j < keys@.len() ==> (#[trigger] rows@[a]@[j]) as int == claim_score(
                    new@,
                    old@,
                    labels@[a]@,
                    keys@[j]@,
                    new@.len() as int,
                ),
        decreases labels@.len() - i,
    {
        let mut row: Vec<i64> = Vec::new();
        let mut j: usize = 0;
        while j < keys.len()
            invariant
                i < labels@.len(),
                j <= keys@.len(),
                row@.len() == j,
                forall|a: int, b: int|
                    0 <= a < labels@.len() && 0 <= b < keys@.len() ==> claim_score(
                        new@,
                        old@,
                        #[trigger] labels@[a]@,
                        #[trigger] keys@[b]@,
                        new@.len() as int,
                    ) <= i64::MAX,
                forall|b: int| 0 <= b < j ==> (#[trigger] row@[b]) as int == claim_score(
                    new@,
                    old@,
                    labels@[i as int]@,
                    keys@[b]@,
                    new@.len() as int,
                ),
            decreases keys@.len() - j,
        {
            assert(claim_score(new@, old@, labels@[i as int]@, keys@[j as int]@, new@.len() as int) <= i64::MAX);
            let v = claim_score_of(new, old, labels[i].as_str(), keys[j].as_str());
            row.push(v);
            j += 1;
        }
        rows.push(row);
        i += 1;
    }
    proof {
        let m = rows@.map_values(|r: Vec<i64>| r@);
        assert forall|a: int, j: int| 0 <= a < labels@.len() && 0 <= j < keys@.len() implies (#[trigger] m[a][j]) as int
            == claim_score(new@, old@, views(labels@)[a], views(keys@)[j], new@.len() as int) by {
            assert(m[a] == rows@[a]@);
            assert(views(labels@)[a] == labels@[a]@);
            assert(views(keys@)[j] == keys@[j]@);
        }
        assert forall|a: int| 0 <= a < views(labels@).len() implies (#[trigger] m[a]).len() == views(keys@).len() by {
            assert(m[a] == rows@[a]@);
        }
    }
    rows
}

/// Claim `(i, j)` is considered before claim `(i2, j2)`: higher score first,
/// then the smaller label, then the smaller key (labels and keys ascending).
pub open spec fn claim_before(s: Seq<Seq<i64>>, i: int, j: int, i2: int, j2: int) -> bool {
    s[i][j] > s[i2][j2] || (s[i][j] == s[i2][j2] && (i < i2 || (i == i2 && j < j2)))
}

/// Claim `(i, j)` lost to an earlier claim that shares its label or its key.
pub open spec fn claim_blocked(s: Seq<Seq<i64>>, m: Seq<Option<usize>>, i: int, j: int) -> bool {
    (m[i] is Some && claim_before(s, i, m[i]->0 as int, i, j)) || exists|i2: int|
        0 <= i2 < m.len() && #[trigger] m[i2] == Some(j as usize) && claim_before(s, i2, j, i, j)
}

/// `m[i]` is the key label `i` inherits: only positive claims, no key twice,
/// and every positive claim left out lost to an earlier claim on its label or key.
pub open spec fn greedy_claims(s: Seq<Seq<i64>>, width: int, m: Seq<Option<usize>>) -> bool {
    &&& m.len() == s.len()
    &&& forall|i: int| 0 <= i < m.len() && #[trigger] m[i] is Some ==> (m[i]->0 as int) < width && s[i][m[i]->0 as int] > 0
    &&& forall|a: int, b: int|
        0 <= a < m.len() && 0 <= b < m.len() && a != b && #[trigger] m[a] is Some && #[trigger] m[b] is Some ==> m[a]->0 != m[b]->0
    &&& forall|i: int, j: int|
        0 <= i < m.len() && 0 <= j < width && #[trigger] s[i][j] > 0 && m[i] != Some(j as usize) ==> claim_blocked(s, m, i, j)
}

pub open spec fn count_free(m: Seq<Option<usize>>, n: int) -> nat
    decreases n,
{
    if n <= 0 {
        0
    } else {
        count_free(m, n - 1) + if m[n - 1] is None {
            1nat
        } else {
            0nat
        }
    }
}

proof fn lemma_count_free_update(m: Seq<Option<usize>>, i: int, v: usize, n: int)
    requires
        0 <= i < m.len(),
        0 <= n <= m.len(),
        m[i] is None,
    ensures
        i < n ==> count_free(m.update(i, Some(v)), n) + 1 == count_free(m, n),
        i >= n ==> count_free(m.update(i, Some(v)), n) == count_free(m, n),
    decreases n,
{
    if n > 0 {
        lemma_count_free_update(m, i, v, n - 1);
    }
}

proof fn lemma_count_free_positive(m: Seq<Option<usize>>, i: int, n: int)
    requires
        0 <= i < n <= m.len(),
        m[i] is None,
    ensures
        count_free(m, n) > 0,
    decreases n,
{
    if n - 1 > i {
        lemma_count_free_positive(m, i, n - 1);
    }
}

/// The invariant of the greedy loop: the claims so far are positive and
/// distinct, `taken` marks the claimed keys, and every positive claim with a
/// taken label or key lost to an earlier one.
pub open spec fn claims_so_far(s: Seq<Seq<i64>>, width: int, m: Seq<Option<usize>>, taken: Seq<bool>) -> bool {
    &&& m.len() == s.len()
    &&& taken.len() == width
    &&& forall|i: int| 0 <= i < m.len() && #[trigger] m[i] is Some ==> (m[i]->0 as int) < width && s[i][m[i]->0 as int] > 0
    &&& forall|a: int, b: int|
        0 <= a < m.len() && 0 <= b < m.len() && a != b && #[trigger] m[a] is Some && #[trigger] m[b] is Some ==> m[a]->0 != m[b]->0
    &&& forall|j: int| 0 <= j < width ==> (#[trigger] taken[j] <==> exists|i: int| 0 <= i < m.len() && m[i] == Some(j as usize))
    &&& forall|i: int, j: int|
        0 <= i < m.len() && 0 <= j < width && #[trigger] s[i][j] > 0 && m[i] != Some(j as usize) && (m[i] is Some || taken[j])
            ==> claim_blocked(s, m, i, j)
}

/// The earliest claim whose label and key are both still free, if any.
fn best_free_claim(s: &Vec<Vec<i64>>, width: usize, m: &Vec<Option<usize>>, taken: &Vec<bool>) -> (result: Option<(usize, usize)>)
    requires
        m@.len() == s@.len(),
        taken@.len() == width,
        forall|i: int| 0 <= i < s@.len() ==> (#[trigger] s@[i])@.len() == width,
    ensures
        match result {
            Some((bi, bj)) => {
                &&& bi < s@.len() && bj < width
                &&& m@[bi as int] is None && !taken@[bj as int] && s@[bi as int]@[bj as int] > 0
                &&& forall|i: int, j: int|
                    0 <= i < s@.len() && 0 <= j < width && m@[i] is None && !taken@[j] && #[trigger] s@[i]@[j] > 0 && (i != bi || j != bj)
                        ==> claim_before(s@.map_values(|r: Vec<i64>| r@), bi as int, bj as int, i, j)
            },
            None => forall|i: int, j: int|
                0 <= i < s@.len() && 0 <= j < width && m@[i] is None && !taken@[j] ==> #[trigger] s@[i]@[j] <= 0,
        },
{
    let ghost sm = s@.map_values(|r: Vec<i64>| r@);
    let mut best: Option<(usize, usize)> = None;
    let mut i: usize = 0;
    while i < s.len()
        invariant
            i <= s@.len(),
            m@.len() == s@.len(),
            taken@.len() == width,
            sm == s@.map_values(|r: Vec<i64>| r@),
            forall|a: int| 0 <= a < s@.len() ==> (#[trigger] s@[a])@.len() == width,
            match best {
                Some((bi, bj)) => {
                    &&& bi < i && bj < width
                    &&& m@[bi as int] is None && !taken@[bj as int] && s@[bi as int]@[bj as int] > 0
                    &&& forall|a: int, b: int|
                        0 <= a < i && 0 <= b < width && m@[a] is None && !taken@[b] && #[trigger] s@[a]@[b] > 0 && (a != bi || b != bj)
                            ==> claim_before(sm, bi as int, bj as int, a, b)
                },
                None => forall|a: int, b: int|
                    0 <= a < i && 0 <= b < width && m@[a] is None && !taken@[b] ==> #[trigger] s@[a]@[b] <= 0,
            },
        decreases s@.len() - i,
    {
        if m[i].is_none() {
            let mut j: usize = 0;
            while j < width
                invariant
                    i < s@.len(),
                    j <= width,
                    m@.len() == s@.len(),
                    taken@.len() == width,
                    m@[i as int] is None,
                    sm == s@.map_values(|r: Vec<i64>| r@),
                    forall|a: int| 0 <= a < s@.len() ==> (#[trigger] s@[a])@.len() == width,
                    match best {
                        Some((bi, bj)) => {
                            &&& (bi < i || (bi == i && bj < j)) && bj < width
                            &&& m@[bi as int] is None && !taken@[bj as int] && s@[bi as int]@[bj as int] > 0
                            &&& forall|a: int, b: int|
                                0 <= a < s@.len() && 0 <= b < width && (a < i || (a == i && b < j)) && m@[a] is None && !taken@[b]
                                    && #[trigger] s@[a]@[b] > 0 && (a != bi || b != bj) ==> claim_before(sm, bi as int, bj as int, a, b)
                        },
                        None => forall|a: int, b: int|
                            0 <= a < s@.len() && 0 <= b < width && (a < i || (a == i && b < j)) && m@[a] is None && !taken@[b]
                                ==> #[trigger] s@[a]@[b] <= 0,
                    },
                decreases width - j,
            {
                let v = s[i][j];
                if !taken[j] && v > 0 {
                    let replace = match best {
                        None => true,
                        Some((bi, bj)) => v > s[bi][bj],
                    };
                    if replace {
                        proof {
                            match best {
                                Some((bi, bj)) => {
                                    assert(sm[i as int][j as int] == v);
                                    assert(sm[bi as int][bj as int] == s@[bi as int]@[bj as int]);
                                    assert forall|a: int, b: int|
                                        0 <= a < s@.len() && 0 <= b < width && (a < i || (a == i && b < j)) && m@[a] is None
                                            && !taken@[b] && #[trigger] s@[a]@[b] > 0 && (a != i || b != j) implies claim_before(
                                        sm,
                                        i as int,
                                        j as int,
                                        a,
                                        b,
                                    ) by {
                                        assert(sm[a][b] == s@[a]@[b]);
                                        if a != bi || b != bj {
                                            assert(claim_before(sm, bi as int, bj as int, a, b));
                                        }
                                    }
                                },
                                None => {},
                            }
                        }
                        best = Some((i, j));
                    } else {
                        proof {
                            let (bi, bj) = best.unwrap();
                            assert(sm[i as int][j as int] == v);
                            assert(sm[bi as int][bj as int] == s@[bi as int]@[bj as int]);
                            assert(claim_before(sm, bi as int, bj as int, i as int, j as int));
                        }
                    }
                }
                j += 1;
            }
        }
        i += 1;
    }
    best
}

/// The greedy claims over a score matrix of `width` keys: repeatedly the
/// earliest claim whose label and key are both free, while one is positive.
pub fn greedy_claims_of(s: &Vec<Vec<i64>>, width: usize) -> (result: Vec<Option<usize>>)
    requires
        forall|i: int| 0 <= i < s@.len() ==> (#[trigger] s@[i])@.len() == width,
    ensures
        greedy_claims(s@.map_values(|r: Vec<i64>| r@), width as int, result@),
{
    let ghost sm = s@.map_values(|r: Vec<i64>| r@);
    let mut m: Vec<Option<usize>> = Vec::new();
    let mut k: usize = 0;
    while k < s.len()
        invariant
            k <= s@.len(),
            m@.len() == k,
            forall|a: int| 0 <= a < k ==> m@[a] is None,
        decreases s@.len() - k,
    {
        m.push(None);
        k += 1;
    }
    let mut taken: Vec<bool> = Vec::new();
    let mut w: usize = 0;
    while w < width
        invariant
            w <= width,
            taken@.len() == w,
            forall|b: int| 0 <= b < w ==> !taken@[b],
        decreases width - w,
    {
        taken.push(false);
        w += 1;
    }
    assert forall|i: int| 0 <= i < s@.len() implies (#[trigger] sm[i]).len() == width by {
        assert(sm[i] == s@[i]@);
    }
    let mut free: usize = s.len();
    proof {
        lemma_count_free_all(m@, m@.len() as int);
    }
    loop
        invariant
            sm == s@.map_values(|r: Vec<i64>| r@),
            forall|i: int| 0 <= i < s@.len() ==> (#[trigger] s@[i])@.len() == width,
            forall|i: int| 0 <= i < s@.len() ==> (#[trigger] sm[i]).len() == width,
            claims_so_far(sm, width as int, m@, taken@),
            free == count_free(m@, m@.len() as int),
        ensures
            greedy_claims(sm, width as int, m@),
        decreases free,
    {
        let best = best_free_claim(s, width, &m, &taken);
        match best {
            None => {
                proof {
                    assert forall|i: int, j: int|
                        0 <= i < m@.len() && 0 <= j < width && #[trigger] sm[i][j] > 0 && m@[i] != Some(j as usize)
                            implies claim_blocked(sm, m@, i, j) by {
                        assert(sm[i][j] == s@[i]@[j]);
                    }
                }
                break;
            },
            Some((bi, bj)) => {
                let ghost m0 = m@;
                let ghost t0 = taken@;
                proof {
                    lemma_count_free_positive(m0, bi as int, m0.len() as int);
                    lemma_count_free_update(m0, bi as int, bj, m0.len() as int);
                    assert(sm[bi as int][bj as int] == s@[bi as int]@[bj as int]);
                }
                m.set(bi, Some(bj));
                taken.set(bj, true);
                free = free - 1;
                proof {
                    let m1 = m@;
                    let t1 = taken@;
                    assert(m1 == m0.update(bi as int, Some(bj)));
                    assert forall|j: int| 0 <= j < width implies (#[trigger] t1[j] <==> exists|i: int|
                        0 <= i < m1.len() && m1[i] == Some(j as usize)) by {
                        if j == bj {
                            assert(m1[bi as int] == Some(j as usize));
                        } else {
                            if t1[j] {
                                assert(t0[j]);
                                let i0 = choose|i: int| 0 <= i < m0.len() && m0[i] == Some(j as usize);
                                assert(i0 != bi);
                                assert(m1[i0] == Some(j as usize));
                            }
                            if exists|i: int| 0 <= i < m1.len() && m1[i] == Some(j as usize) {
                                let i1 = choose|i: int| 0 <= i < m1.len() && m1[i] == Some(j as usize);
                                assert(i1 != bi);
                                assert(m0[i1] == Some(j as usize));
                            }
                        }
                    }
                    assert forall|a: int, b: int|
                        0 <= a < m1.len() && 0 <= b < m1.len() && a != b && #[trigger] m1[a] is Some && #[trigger] m1[b] is Some
                            implies m1[a]->0 != m1[b]->0 by {
                        if a == bi {
                            assert(m0[b] == m1[b]);
                            if m1[b]->0 == bj {
                                assert(t0[bj as int]);
                            }
                        } else if b == bi {
                            assert(m0[a] == m1[a]);
                            if m1[a]->0 == bj {
                                assert(t0[bj as int]);
                            }
                        }
                    }
                    assert forall|i: int, j: int|
                        0 <= i < m1.len() && 0 <= j < width && #[trigger] sm[i][j] > 0 && m1[i] != Some(j as usize) && (m1[i] is Some
                            || t1[j]) implies claim_blocked(sm, m1, i, j) by {
                        assert(sm[i][j] == s@[i]@[j]);
                        if m0[i] is Some || t0[j] {
                            assert(claim_blocked(sm, m0, i, j));
                            if m0[i] is Some {
                                assert(m1[i] == m0[i]);
                            }
                            if !(m0[i] is Some && claim_before(sm, i, m0[i]->0 as int, i, j)) {
                                let i2 = choose|i2: int|
                                    0 <= i2 < m0.len() && #[trigger] m0[i2] == Some(j as usize) && claim_before(sm, i2, j, i, j);
                                assert(i2 != bi);
                                assert(m1[i2] == Some(j as usize));
                            }
                        } else if i == bi {
                            assert(j != bj);
                            assert(claim_before(sm, bi as int, bj as int, i, j));
                        } else {
                            assert(j == bj);
                            assert(m1[bi as int] == Some(j as usize));
                            assert(claim_before(sm, bi as int, bj as int, i, j));
                        }
                    }
                }
            },
        }
    }
    m
}

proof fn lemma_count_free_all(m: Seq<Option<usize>>, n: int)
    requires
        0 <= n <= m.len(),
        forall|a: int| 0 <= a < m.len() ==> m[a] is None,
    ensures
        count_free(m, n) == n,
    decreases n,
{
    if n > 0 {
        lemma_count_free_all(m, n - 1);
    }
}

/// The fresh key for number `n` (this is `numbered_key(n)`; kept opaque so
/// that proofs about sets of keys do not unfold the decimal rendering).
#[verifier::opaque]
pub open spec fn fresh_key(n: nat) -> Seq<char> {
    numbered_key(n)
}

pub proof fn lemma_fresh_key_is_numbered(n: nat)
    ensures
        fresh_key(n) == numbered_key(n),
{
    reveal(fresh_key);
}

proof fn lemma_fresh_key_injective(n: nat, m: nat)
    requires
        fresh_key(n) == fresh_key(m),
    ensures
        n == m,
{
    reveal(fresh_key);
    lemma_numbered_key_injective(n, m);
}

proof fn lemma_numbered_key_injective(n: nat, m: nat)
    requires
        numbered_key(n) == numbered_key(m),
    ensures
        n == m,
{
    let p = "speaker_"@;
    assert(numbered_key(n).subrange(p.len() as int, numbered_key(n).len() as int) =~= crate::text::decimal_padded(n, 2));
    assert(numbered_key(m).subrange(p.len() as int, numbered_key(m).len() as int) =~= crate::text::decimal_padded(m, 2));
    crate::text::lemma_decimal_padded_injective(n, m, 2);
}

/// If the keys of `1..next` all lie in a finite set, there are at most as
/// many numbers as the set has members.
proof fn lemma_numbers_bounded(used: Set<Seq<char>>, next: int)
    requires
        used.finite(),
        1 <= next,
        forall|p: int| 1 <= p < next ==> used.contains(#[trigger] fresh_key(p as nat)),
    ensures
        next - 1 <= used.len(),
{
    let x = vstd::set_lib::set_int_range(1, next);
    vstd::set_lib::lemma_int_range(1, next);
    let f = |p: int| fresh_key(p as nat);
    assert(vstd::relations::injective_on(f, x)) by {
        assert forall|a: int, b: int| x.contains(a) && x.contains(b) && #[trigger] f(a) == #[trigger] f(b) implies a == b by {
            lemma_fresh_key_injective(a as nat, b as nat);
        }
    }
    let y = x.map(f);
    vstd::set_lib::lemma_map_size(x, y, f);
    assert(y.subset_of(used));
    vstd::set_lib::lemma_len_subset(y, used);
}

/// The least number from `start` on whose key is not in `taken`.
#[verifier::opaque]
pub open spec fn next_free(taken: Set<Seq<char>>, start: nat) -> nat {
    choose|n: nat| n >= start && !taken.contains(fresh_key(n)) && forall|p: nat|
        start <= p < n ==> taken.contains(#[trigger] fresh_key(p))
}

/// The first `count` numbers from `start` on whose keys are not in `taken`, ascending.
#[verifier::opaque]
pub open spec fn fresh_numbers(taken: Set<Seq<char>>, start: nat, count: nat) -> Seq<nat>
    decreases count,
{
    if count == 0 {
        Seq::empty()
    } else {
        let n = next_free(taken, start);
        seq![n] + fresh_numbers(taken, n + 1, (count - 1) as nat)
    }
}

/// How many labels before `i` inherited no key.
pub open spec fn rank_free(m: Seq<Option<usize>>, i: int) -> nat {
    count_free(m, i)
}

/// The key label `i` ends up with: the earlier key it claimed, or the next
/// fresh key in label order.
pub open spec fn final_key(keys: Seq<Seq<char>>, m: Seq<Option<usize>>, i: int) -> Seq<char> {
    match m[i] {
        Some(j) => keys[j as int],
        None => fresh_key(fresh_numbers(keys.to_set(), 1, count_free(m, m.len() as int))[rank_free(m, i) as int]),
    }
}

fn key_for_number(n: u64) -> (result: String)
    ensures
        result@ == fresh_key(n as nat),
{
    proof {
        reveal(fresh_key);
    }
    let digits = u64_to_padded_decimal(n, 2);
    crate::text::concat("speaker_", digits.as_str())
}

proof fn lemma_count_free_step(m: Seq<Option<usize>>, i: int)
    requires
        0 <= i < m.len(),
    ensures
        count_free(m, i + 1) == count_free(m, i) + if m[i] is None {
            1nat
        } else {
            0nat
        },
        count_free(m, i) <= i,
{
    lemma_count_free_le(m, i);
}

proof fn lemma_count_free_le(m: Seq<Option<usize>>, i: int)
    requires
        0 <= i <= m.len(),
    ensures
        count_free(m, i) <= i,
    decreases i,
{
    if i > 0 {
        lemma_count_free_le(m, i - 1);
    }
}

proof fn lemma_count_free_monotone(m: Seq<Option<usize>>, i: int, n: int)
    requires
        0 <= i <= n <= m.len(),
    ensures
        count_free(m, i) <= count_free(m, n),
    decreases n,
{
    if n > i {
        lemma_count_free_monotone(m, i, n - 1);
    }
}

/// The least number from `next` on whose key is not yet used: the next
/// fresh number.
fn allocate_next(
    used: &Vec<String>,
    next: u64,
    Ghost(kset): Ghost<Set<Seq<char>>>,
    Ghost(allocated): Ghost<Seq<nat>>,
) -> (n: u64)
    requires
        1 <= next,
        used@.len() < usize::MAX,
        views(used@).to_set() == kset.union(allocated.map_values(|a: nat| fresh_key(a)).to_set()),
        forall|r: int| 0 <= r < allocated.len() ==> (#[trigger] allocated[r]) < next,
        forall|p: int| 1 <= p < next ==> views(used@).to_set().contains(#[trigger] fresh_key(p as nat)),
    ensures
        n >= next,
        n as nat == next_free(kset, next as nat),
        !views(used@).to_set().contains(fresh_key(n as nat)),
        forall|p: int| 1 <= p < n ==> views(used@).to_set().contains(#[trigger] fresh_key(p as nat)),
        n - 1 <= used@.len(),
{
    let ghost uset = views(used@).to_set();
    let ghost keyed = allocated.map_values(|a: nat| fresh_key(a));
    proof {
        views(used@).lemma_cardinality_of_set();
        lemma_numbers_bounded(uset, next as int);
    }
    let mut cur: u64 = next;
    while contains_str(used, key_for_number(cur).as_str())
        invariant
            next <= cur,
            uset == views(used@).to_set(),
            uset.len() <= used@.len(),
            used@.len() < usize::MAX,
            keyed == allocated.map_values(|a: nat| fresh_key(a)),
            uset == kset.union(keyed.to_set()),
            forall|r: int| 0 <= r < allocated.len() ==> (#[trigger] allocated[r]) < next,
            forall|p: int| 1 <= p < cur ==> uset.contains(#[trigger] fresh_key(p as nat)),
            forall|p: int| next <= p < cur ==> kset.contains(#[trigger] fresh_key(p as nat)),
            cur - 1 <= used@.len(),
        decreases used@.len() + 1 - cur,
    {
        proof {
            let kn = fresh_key(cur as nat);
            assert(uset.contains(kn));
            lemma_numbers_bounded(uset, cur + 1);
            if !kset.contains(kn) {
                assert(keyed.to_set().contains(kn));
                let r = choose|r: int| 0 <= r < keyed.len() && #[trigger] keyed[r] == kn;
                assert(keyed[r] == fresh_key(allocated[r]));
                lemma_fresh_key_injective(allocated[r], cur as nat);
            }
        }
        cur = cur + 1;
    }
    proof {
        let n = cur;
        assert(!uset.contains(fresh_key(n as nat)));
        assert(!kset.contains(fresh_key(n as nat)));
        assert forall|p: nat| next <= p < n implies kset.contains(#[trigger] fresh_key(p)) by {
            let q = p as int;
            assert(kset.contains(fresh_key(q as nat)));
        }
        reveal(next_free);
        let chosen = next_free(kset, next as nat);
        if chosen != n as nat {
            if chosen < n {
                assert(kset.contains(fresh_key(chosen)));
            } else {
                assert(kset.contains(fresh_key(n as nat)));
            }
        }
    }
    cur
}

proof fn lemma_allocation_step(
    kset: Set<Seq<char>>,
    old_alloc: Seq<nat>,
    next: nat,
    n: nat,
    total: nat,
    before_used: Seq<Seq<char>>,
    after_used: Seq<Seq<char>>,
)
    requires
        old_alloc.len() < total,
        n == next_free(kset, next),
        old_alloc + fresh_numbers(kset, next, (total - old_alloc.len()) as nat) == fresh_numbers(kset, 1, total),
        before_used.to_set() == kset.union(old_alloc.map_values(|a: nat| fresh_key(a)).to_set()),
        after_used == before_used.push(fresh_key(n)),
    ensures
        fresh_numbers(kset, 1, total)[old_alloc.len() as int] == n,
        old_alloc.push(n) + fresh_numbers(kset, n + 1, (total - old_alloc.len() - 1) as nat) == fresh_numbers(kset, 1, total),
        after_used.to_set() == kset.union(old_alloc.push(n).map_values(|a: nat| fresh_key(a)).to_set()),
{
    reveal(fresh_numbers);
    let rest = (total - old_alloc.len()) as nat;
    assert(fresh_numbers(kset, next, rest) == seq![n] + fresh_numbers(kset, n + 1, (rest - 1) as nat));
    assert(old_alloc + fresh_numbers(kset, next, rest) =~= old_alloc.push(n) + fresh_numbers(kset, n + 1, (rest - 1) as nat));
    let f = fresh_numbers(kset, 1, total);
    assert(f[old_alloc.len() as int] == (old_alloc + fresh_numbers(kset, next, rest))[old_alloc.len() as int]);
    before_used.lemma_push_to_set_commute(fresh_key(n));
    assert(old_alloc.push(n).map_values(|a: nat| fresh_key(a)) =~= old_alloc.map_values(|a: nat| fresh_key(a)).push(fresh_key(n)));
    old_alloc.map_values(|a: nat| fresh_key(a)).lemma_push_to_set_commute(fresh_key(n));
    assert(after_used.to_set() =~= kset.union(old_alloc.push(n).map_values(|a: nat| fresh_key(a)).to_set()));
}

/// The first `count` fresh numbers: from 1 on, ascending, whose keys are
/// not among `keys`.
fn fresh_number_list(keys: &Vec<String>, count: usize) -> (result: Vec<u64>)
    requires
        keys@.len() + count < usize::MAX,
    ensures
        result@.len() == count,
        forall|r: int| 0 <= r < count ==> (#[trigger] result@[r]) as nat == fresh_numbers(views(keys@).to_set(), 1, count as nat)[r],
{
    let ghost kset = views(keys@).to_set();
    let mut used: Vec<String> = Vec::new();
    let mut c: usize = 0;
    while c < keys.len()
        invariant
            c <= keys@.len(),
            views(used@) == views(keys@).subrange(0, c as int),
        decreases keys@.len() - c,
    {
        let ghost before = used@;
        used.push(owned(keys[c].as_str()));
        assert(views(used@) =~= views(before).push(keys@[c as int]@));
        assert(views(used@) =~= views(keys@).subrange(0, c + 1));
        c += 1;
    }
    assert(views(keys@).subrange(0, keys@.len() as int) =~= views(keys@));
    let ghost mut allocated: Seq<nat> = Seq::empty();
    assert(allocated.map_values(|a: nat| fresh_key(a)).to_set() =~= Set::<Seq<char>>::empty());
    assert(kset.union(Set::<Seq<char>>::empty()) =~= kset);
    assert(allocated + fresh_numbers(kset, 1, count as nat) =~= fresh_numbers(kset, 1, count as nat));
    let mut next: u64 = 1;
    let mut out: Vec<u64> = Vec::new();
    while out.len() < count
        invariant
            out@.len() <= count,
            kset == views(keys@).to_set(),
            keys@.len() + count < usize::MAX,
            allocated.len() == out@.len(),
            forall|r: int| 0 <= r < out@.len() ==> (#[trigger] out@[r]) as nat == allocated[r],
            used@.len() == keys@.len() + allocated.len(),
            views(used@).to_set() == kset.union(allocated.map_values(|a: nat| fresh_key(a)).to_set()),
            allocated + fresh_numbers(kset, next as nat, (count - allocated.len()) as nat) == fresh_numbers(kset, 1, count as nat),
            1 <= next,
            forall|r: int| 0 <= r < allocated.len() ==> (#[trigger] allocated[r]) < next,
            forall|p: int| 1 <= p < next ==> views(used@).to_set().contains(#[trigger] fresh_key(p as nat)),
        decreases count - out@.len(),
    {
        let n = allocate_next(&used, next, Ghost(kset), Ghost(allocated));
        let key = key_for_number(n);
        let ghost before_used = views(used@);
        used.push(key);
        out.push(n);
        proof {
            assert(views(used@) =~= before_used.push(fresh_key(n as nat)));
            lemma_allocation_step(kset, allocated, next as nat, n as nat, count as nat, before_used, views(used@));
            allocated = allocated.push(n as nat);
            assert forall|p: int| 1 <= p < n + 1 implies views(used@).to_set().contains(#[trigger] fresh_key(p as nat)) by {
                if p < n {
                    assert(before_used.to_set().contains(fresh_key(p as nat)));
                    let k = choose|k: int| 0 <= k < before_used.len() && before_used[k] == fresh_key(p as nat);
                    assert(views(used@)[k] == before_used[k]);
                } else {
                    assert(views(used@)[before_used.len() as int] == fresh_key(n as nat));
                }
            }
        }
        next = n + 1;
    }
    proof {
        reveal(fresh_numbers);
        assert(fresh_numbers(kset, next as nat, 0) =~= Seq::<nat>::empty());
        assert forall|r: int| 0 <= r < count implies (#[trigger] out@[r]) as nat == fresh_numbers(kset, 1, count as nat)[r] by {
            assert(fresh_numbers(kset, 1, count as nat)[r] == (allocated + fresh_numbers(kset, next as nat, 0))[r]);
        }
    }
    out
}

fn free_count(m: &Vec<Option<usize>>) -> (result: usize)
    ensures
        result == count_free(m@, m@.len() as int),
{
    let mut n: usize = 0;
    let mut i: usize = 0;
    while i < m.len()
        invariant
            i <= m@.len(),
            n == count_free(m@, i as int),
            n <= i,
        decreases m@.len() - i,
    {
        if m[i].is_none() {
            n += 1;
        }
        i += 1;
    }
    n
}

/// Every label's final key: its claimed earlier key, or the next fresh one.
fn final_keys(keys: &Vec<String>, m: &Vec<Option<usize>>) -> (result: Vec<String>)
    requires
        forall|i: int| 0 <= i < m@.len() && #[trigger] m@[i] is Some ==> (m@[i]->0 as int) < keys@.len(),
        keys@.len() + m@.len() < usize::MAX,
    ensures
        result@.len() == m@.len(),
        forall|i: int| 0 <= i < m@.len() ==> (#[trigger] result@[i])@ == final_key(views(keys@), m@, i),
{
    let total = free_count(m);
    proof {
        lemma_count_free_le(m@, m@.len() as int);
    }
    let numbers = fresh_number_list(keys, total);
    let mut out: Vec<String> = Vec::new();
    let mut r: usize = 0;
    let mut i: usize = 0;
    while i < m.len()
        invariant
            i <= m@.len(),
            total == count_free(m@, m@.len() as int),
            numbers@.len() == total,
            forall|q: int| 0 <= q < total ==> (#[trigger] numbers@[q]) as nat == fresh_numbers(views(keys@).to_set(), 1, total as nat)[q],
            forall|a: int| 0 <= a < m@.len() && #[trigger] m@[a] is Some ==> (m@[a]->0 as int) < keys@.len(),
            r == count_free(m@, i as int),
            out@.len() == i,
            forall|k: int| 0 <= k < i ==> (#[trigger] out@[k])@ == final_key(views(keys@), m@, k),
        decreases m@.len() - i,
    {
        proof {
            lemma_count_free_step(m@, i as int);
            lemma_count_free_monotone(m@, i + 1, m@.len() as int);
        }
        match m[i] {
            Some(j) => {
                out.push(owned(keys[j].as_str()));
            },
            None => {
                let key = key_for_number(numbers[r]);
                out.push(key);
                r += 1;
            },
        }
        i += 1;
    }
    out
}


/// The score of every label's claim on every earlier key.
pub open spec fn claim_matrix(
    new: Seq<StoredTurn>,
    old: Seq<StoredTurn>,
    labels: Seq<Seq<char>>,
    keys: Seq<Seq<char>>,
) -> Seq<Seq<i64>> {
    Seq::new(
        labels.len(),
        |i: int| Seq::new(keys.len(), |j: int| claim_score(new, old, labels[i], keys[j], new.len() as int) as i64),
    )
}

/// What a remapping rests on: the pass's labels and the earlier keys, each
/// distinct and ascending, and the greedy claims over their scores.
pub open spec fn remap_plan(
    new: Seq<StoredTurn>,
    old: Seq<StoredTurn>,
    labels: Seq<Seq<char>>,
    keys: Seq<Seq<char>>,
    m: Seq<Option<usize>>,
) -> bool {
    &&& strictly_sorted(labels)
    &&& labels.to_set() == labels_of(new).to_set()
    &&& strictly_sorted(keys)
    &&& keys.to_set() == keys_of(old)
    &&& greedy_claims(claim_matrix(new, old, labels, keys), keys.len() as int, m)
}

/// Every claim score of the two passes fits in an `i64`.
pub open spec fn scores_fit(new: Seq<StoredTurn>, old: Seq<StoredTurn>) -> bool {
    forall|label: Seq<char>, key: Seq<char>|
        #![trigger labels_of(new).contains(label), keys_of(old).contains(key)]
        labels_of(new).contains(label) && keys_of(old).contains(key) ==> claim_score(
            new,
            old,
            label,
            key,
            new.len() as int,
        ) <= i64::MAX
}

/// `r` is turn `t` of the new pass under the key the plan gives its label.
pub open spec fn remapped_turn(
    r: StoredTurn,
    t: StoredTurn,
    labels: Seq<Seq<char>>,
    keys: Seq<Seq<char>>,
    m: Seq<Option<usize>>,
) -> bool {
    &&& r.start_ms == t.start_ms
    &&& r.end_ms == t.end_ms
    &&& r.speaker_label@ == t.speaker_label@
    &&& exists|k: int| 0 <= k < labels.len() && #[trigger] labels[k] == t.speaker_label@ && r.speaker_key@ == final_key(keys, m, k)
}

proof fn lemma_sorted_len(v: Seq<Seq<char>>, s: Seq<Seq<char>>)
    requires
        strictly_sorted(v),
        v.to_set().subset_of(s.to_set()),
    ensures
        v.len() <= s.len(),
{
    broadcast use vstd::seq_lib::seq_to_set_is_finite;

    lemma_sorted_no_duplicates(v);
    v.unique_seq_to_set();
    s.lemma_cardinality_of_set();
    vstd::set_lib::lemma_len_subset(v.to_set(), s.to_set());
}

/// The position of `label` among `labels`.
fn label_index(labels: &Vec<String>, label: &str) -> (result: usize)
    requires
        views(labels@).contains(label@),
    ensures
        result < labels@.len(),
        labels@[result as int]@ == label@,
{
    let mut k: usize = 0;
    while k < labels.len()
        invariant
            k <= labels@.len(),
            views(labels@).contains(label@),
            forall|q: int| 0 <= q < k ==> (#[trigger] labels@[q])@ != label@,
        decreases labels@.len() - k,
    {
        if str_eq(labels[k].as_str(), label) {
            return k;
        }
        k += 1;
    }
    proof {
        let w = choose|q: int| 0 <= q < views(labels@).len() && views(labels@)[q] == label@;
        assert(labels@[w]@ == label@);
    }
    0
}

/// Carries the speaker identities of an earlier diarization pass over to a
/// new one. Each new cluster (label) greedily claims the earlier key with
/// which it shares the most time (ties: smaller label, then smaller key);
/// no earlier key is claimed twice, and only a positive overlap claims.
/// Labels that claim nothing get fresh `speaker_NN` keys, in label order,
/// skipping every earlier key. Each turn of `new` comes back with its
/// label's key.
pub fn remap_turn_keys(old: &[StoredTurn], new: &[StoredTurn]) -> (result: Vec<StoredTurn>)
    requires
        scores_fit(new@, old@),
        old@.len() + new@.len() < usize::MAX,
    ensures
        result@.len() == new@.len(),
        exists|labels: Seq<Seq<char>>, keys: Seq<Seq<char>>, m: Seq<Option<usize>>|
            #[trigger] remap_plan(new@, old@, labels, keys, m) && forall|i: int|
                0 <= i < new@.len() ==> remapped_turn(#[trigger] result@[i], new@[i], labels, keys, m),
{
    let labels = sorted_labels(new);
    let keys = sorted_keys(old);
    let ghost lv = views(labels@);
    let ghost kv = views(keys@);
    proof {
        assert forall|i: int, j: int| 0 <= i < labels@.len() && 0 <= j < keys@.len() implies claim_score(
            new@,
            old@,
            #[trigger] labels@[i]@,
            #[trigger] keys@[j]@,
            new@.len() as int,
        ) <= i64::MAX by {
            assert(lv.to_set().contains(lv[i]));
            assert(kv.to_set().contains(kv[j]));
            assert(labels_of(new@).contains(lv[i]));
        }
        lemma_sorted_len(lv, labels_of(new@));
        assert(kv.to_set().subset_of(old@.map_values(|t: StoredTurn| t.speaker_key@).to_set()));
        lemma_sorted_len(kv, old@.map_values(|t: StoredTurn| t.speaker_key@));
    }
    let scores = score_matrix(new, old, &labels, &keys);
    let ghost sm = scores@.map_values(|r: Vec<i64>| r@);
    proof {
        let cm = claim_matrix(new@, old@, lv, kv);
        assert forall|i: int| 0 <= i < sm.len() implies #[trigger] sm[i] =~= cm[i] by {
            assert forall|j: int| 0 <= j < kv.len() implies sm[i][j] == cm[i][j] by {
                assert(sm[i][j] as int == claim_score(new@, old@, lv[i], kv[j], new@.len() as int));
            }
        }
        assert(sm =~= cm);
        assert forall|i: int| 0 <= i < scores@.len() implies (#[trigger] scores@[i])@.len() == keys@.len() by {
            assert(sm[i] == scores@[i]@);
        }
    }
    let m = greedy_claims_of(&scores, keys.len());
    let finals = final_keys(&keys, &m);
    let mut out: Vec<StoredTurn> = Vec::new();
    let mut i: usize = 0;
    while i < new.len()
        invariant
            i <= new@.len(),
            lv == views(labels@),
            kv == views(keys@),
            lv.to_set() == labels_of(new@).to_set(),
            finals@.len() == m@.len(),
            m@.len() == labels@.len(),
            forall|q: int| 0 <= q < m@.len() ==> (#[trigger] finals@[q])@ == final_key(kv, m@, q),
            out@.len() == i,
            forall|q: int| 0 <= q < i ==> remapped_turn(#[trigger] out@[q], new@[q], lv, kv, m@),
        decreases new@.len() - i,
    {
        let t = &new[i];
        proof {
            assert(labels_of(new@)[i as int] == t.speaker_label@);
            assert(labels_of(new@).to_set().contains(t.speaker_label@));
            assert(lv.to_set().contains(t.speaker_label@));
        }
        let k = label_index(&labels, t.speaker_label.as_str());
        let turn = StoredTurn {
            start_ms: t.start_ms,
            end_ms: t.end_ms,
            speaker_label: owned(t.speaker_label.as_str()),
            speaker_key: owned(finals[k].as_str()),
        };
        proof {
            assert(lv[k as int] == t.speaker_label@);
        }
        out.push(turn);
        proof {
            assert(remapped_turn(out@[i as int], new@[i as int], lv, kv, m@));
        }
        i += 1;
    }
    proof {
        assert(remap_plan(new@, old@, lv, kv, m@));
    }
    out
}


/// If the keys of `lo..hi` all lie in a finite set, the range is no larger
/// than the set.
proof fn lemma_range_keys_bounded(used: Set<Seq<char>>, lo: int, hi: int)
    requires
        used.finite(),
        0 <= lo <= hi,
        forall|p: int| lo <= p < hi ==> used.contains(#[trigger] fresh_key(p as nat)),
    ensures
        hi - lo <= used.len(),
{
    let x = vstd::set_lib::set_int_range(lo, hi);
    vstd::set_lib::lemma_int_range(lo, hi);
    let f = |p: int| fresh_key(p as nat);
    assert(vstd::relations::injective_on(f, x)) by {
        assert forall|a: int, b: int| x.contains(a) && x.contains(b) && #[trigger] f(a) == #[trigger] f(b) implies a == b by {
            lemma_fresh_key_injective(a as nat, b as nat);
        }
    }
    let y = x.map(f);
    vstd::set_lib::lemma_map_size(x, y, f);
    assert(y.subset_of(used));
    vstd::set_lib::lemma_len_subset(y, used);
}

proof fn lemma_least_free(taken: Set<Seq<char>>, start: nat, n0: nat)
    requires
        n0 >= start,
        !taken.contains(fresh_key(n0)),
    ensures
        exists|n: nat|
            n >= start && !taken.contains(fresh_key(n)) && forall|p: nat| start <= p < n ==> taken.contains(#[trigger] fresh_key(p)),
    decreases n0 - start,
{
    if exists|p: nat| start <= p < n0 && !taken.contains(fresh_key(p)) {
        let p = choose|p: nat| start <= p < n0 && !taken.contains(fresh_key(p));
        lemma_least_free(taken, start, p);
    } else {
        assert(forall|p: nat| start <= p < n0 ==> taken.contains(#[trigger] fresh_key(p)));
    }
}

/// Past a finite set of keys there is always a next free number.
proof fn lemma_next_free(taken: Set<Seq<char>>, start: nat)
    requires
        taken.finite(),
    ensures
        next_free(taken, start) >= start,
        !taken.contains(fresh_key(next_free(taken, start))),
        forall|p: nat| start <= p < next_free(taken, start) ==> taken.contains(#[trigger] fresh_key(p)),
{
    let hi = start + taken.len() + 1;
    if forall|p: int| start <= p < hi ==> taken.contains(#[trigger] fresh_key(p as nat)) {
        lemma_range_keys_bounded(taken, start as int, hi as int);
    }
    let n0 = choose|p: int| start <= p < hi && !taken.contains(#[trigger] fresh_key(p as nat));
    lemma_least_free(taken, start, n0 as nat);
    reveal(next_free);
}

/// The fresh numbers are ascending, from `start` on, and their keys avoid `taken`.
proof fn lemma_fresh_numbers(taken: Set<Seq<char>>, start: nat, count: nat)
    requires
        taken.finite(),
    ensures
        fresh_numbers(taken, start, count).len() == count,
        forall|r: int|
            0 <= r < count ==> #[trigger] fresh_numbers(taken, start, count)[r] >= start && !taken.contains(
                fresh_key(fresh_numbers(taken, start, count)[r]),
            ),
        forall|a: int, b: int|
            0 <= a < b < count ==> #[trigger] fresh_numbers(taken, start, count)[a] < #[trigger] fresh_numbers(
                taken,
                start,
                count,
            )[b],
    decreases count,
{
    reveal(fresh_numbers);
    if count > 0 {
        let n = next_free(taken, start);
        lemma_next_free(taken, start);
        lemma_fresh_numbers(taken, n + 1, (count - 1) as nat);
        let rest = fresh_numbers(taken, n + 1, (count - 1) as nat);
        let f = fresh_numbers(taken, start, count);
        assert(f == seq![n] + rest);
        assert forall|r: int| 0 <= r < count implies #[trigger] f[r] >= start && !taken.contains(fresh_key(f[r])) by {
            if r > 0 {
                assert(f[r] == rest[r - 1]);
            }
        }
        assert forall|a: int, b: int| 0 <= a < b < count implies #[trigger] f[a] < #[trigger] f[b] by {
            assert(f[b] == rest[b - 1]);
            if a > 0 {
                assert(f[a] == rest[a - 1]);
            }
        }
    }
}

proof fn lemma_rank_below_free(m: Seq<Option<usize>>, k: int)
    requires
        0 <= k < m.len(),
        m[k] is None,
    ensures
        rank_free(m, k) < count_free(m, m.len() as int),
{
    lemma_count_free_step(m, k);
    lemma_count_free_monotone(m, k + 1, m.len() as int);
}

/// Under a remapping plan, a label that claims no earlier key gets a key
/// that no turn of the earlier pass carries: a new cluster never inherits
/// an identity, not even one absent from the new pass.
pub proof fn law_fresh_keys_are_new(
    new: Seq<StoredTurn>,
    old: Seq<StoredTurn>,
    labels: Seq<Seq<char>>,
    keys: Seq<Seq<char>>,
    m: Seq<Option<usize>>,
    k: int,
)
    requires
        remap_plan(new, old, labels, keys, m),
        0 <= k < labels.len(),
        m[k] is None,
    ensures
        !keys_of(old).contains(final_key(keys, m, k)),
{
    broadcast use vstd::seq_lib::seq_to_set_is_finite;

    lemma_rank_below_free(m, k);
    lemma_fresh_numbers(keys.to_set(), 1, count_free(m, m.len() as int));
    let f = fresh_numbers(keys.to_set(), 1, count_free(m, m.len() as int));
    assert(!keys.to_set().contains(fresh_key(f[rank_free(m, k) as int])));
}

/// Under a remapping plan, different labels end up with different keys.
pub proof fn law_labels_get_distinct_keys(
    new: Seq<StoredTurn>,
    old: Seq<StoredTurn>,
    labels: Seq<Seq<char>>,
    keys: Seq<Seq<char>>,
    m: Seq<Option<usize>>,
    a: int,
    b: int,
)
    requires
        remap_plan(new, old, labels, keys, m),
        0 <= a < labels.len(),
        0 <= b < labels.len(),
        a != b,
    ensures
        final_key(keys, m, a) != final_key(keys, m, b),
{
    broadcast use vstd::seq_lib::seq_to_set_is_finite;

    let cm = claim_matrix(new, old, labels, keys);
    match (m[a], m[b]) {
        (Some(ja), Some(jb)) => {
            assert(m[a] is Some && m[b] is Some);
            lemma_sorted_no_duplicates(keys);
        },
        (None, None) => {
            let total = count_free(m, m.len() as int);
            lemma_rank_below_free(m, a);
            lemma_rank_below_free(m, b);
            lemma_fresh_numbers(keys.to_set(), 1, total);
            let f = fresh_numbers(keys.to_set(), 1, total);
            let (lo, hi) = if a < b { (a, b) } else { (b, a) };
            lemma_count_free_step(m, lo);
            lemma_count_free_monotone(m, lo + 1, hi);
            assert(f[rank_free(m, lo) as int] < f[rank_free(m, hi) as int]);
            if fresh_key(f[rank_free(m, a) as int]) == fresh_key(f[rank_free(m, b) as int]) {
                lemma_fresh_key_injective(f[rank_free(m, a) as int], f[rank_free(m, b) as int]);
            }
        },
        (Some(ja), None) => {
            assert(m[a] is Some);
            law_fresh_keys_are_new(new, old, labels, keys, m, b);
            assert(keys.to_set().contains(keys[ja as int]));
        },
        (None, Some(jb)) => {
            assert(m[b] is Some);
            law_fresh_keys_are_new(new, old, labels, keys, m, a);
            assert(keys.to_set().contains(keys[jb as int]));
        },
    }
}

/// Two turns of a remapped pass carry the same key exactly when they carry
/// the same label: one stable identity per cluster, none shared.
pub proof fn law_keys_follow_labels(
    new: Seq<StoredTurn>,
    old: Seq<StoredTurn>,
    result: Seq<StoredTurn>,
    labels: Seq<Seq<char>>,
    keys: Seq<Seq<char>>,
    m: Seq<Option<usize>>,
    i: int,
    j: int,
)
    requires
        remap_plan(new, old, labels, keys, m),
        result.len() == new.len(),
        forall|q: int| 0 <= q < new.len() ==> remapped_turn(#[trigger] result[q], new[q], labels, keys, m),
        0 <= i < new.len(),
        0 <= j < new.len(),
    ensures
        (result[i].speaker_key@ == result[j].speaker_key@) <==> (new[i].speaker_label@ == new[j].speaker_label@),
{
    assert(remapped_turn(result[i], new[i], labels, keys, m));
    assert(remapped_turn(result[j], new[j], labels, keys, m));
    let ki = choose|k: int|
        0 <= k < labels.len() && #[trigger] labels[k] == new[i].speaker_label@ && result[i].speaker_key@ == final_key(keys, m, k);
    let kj = choose|k: int|
        0 <= k < labels.len() && #[trigger] labels[k] == new[j].speaker_label@ && result[j].speaker_key@ == final_key(keys, m, k);
    lemma_sorted_no_duplicates(labels);
    if ki != kj {
        law_labels_get_distinct_keys(new, old, labels, keys, m, ki, kj);
    }
}


/// Two ascending, duplicate-free sequences with the same members agree up to `i`.
proof fn lemma_sorted_prefix_eq(v: Seq<Seq<char>>, w: Seq<Seq<char>>, i: int)
    requires
        strictly_sorted(v),
        strictly_sorted(w),
        v.no_duplicates(),
        w.no_duplicates(),
        v.to_set() == w.to_set(),
        v.len() == w.len(),
        0 <= i < v.len(),
    ensures
        forall|k: int| 0 <= k <= i ==> #[trigger] v[k] == w[k],
    decreases i,
{
    if i > 0 {
        lemma_sorted_prefix_eq(v, w, i - 1);
    }
    let x = v[i];
    let y = w[i];
    if x != y {
        lemma_seq_lt_order(x, y, x);
        assert(v.to_set().contains(x));
        assert(w.to_set().contains(y));
        if seq_lt(x, y) {
            let k = choose|k: int| 0 <= k < w.len() && w[k] == x;
            if k < i {
                assert(v[k] == w[k]);
            } else {
                assert(seq_lt(w[i], w[k]));
            }
        } else {
            let k = choose|k: int| 0 <= k < v.len() && v[k] == y;
            if k < i {
                assert(v[k] == w[k]);
            } else {
                assert(seq_lt(v[i], v[k]));
            }
        }
    }
}

/// Two ascending sequences with the same members are equal.
pub(crate) proof fn lemma_sorted_unique(v: Seq<Seq<char>>, w: Seq<Seq<char>>)
    requires
        strictly_sorted(v),
        strictly_sorted(w),
        v.to_set() == w.to_set(),
    ensures
        v == w,
{
    lemma_sorted_no_duplicates(v);
    lemma_sorted_no_duplicates(w);
    v.unique_seq_to_set();
    w.unique_seq_to_set();
    if v.len() > 0 {
        lemma_sorted_prefix_eq(v, w, v.len() - 1);
    }
    assert(v =~= w);
}

/// The cells `(i, j)` with `0 <= i < n` and `0 <= j < width`.
pub(crate) open spec fn grid(n: int, width: int) -> Set<(int, int)>
    decreases n,
{
    if n <= 0 {
        Set::empty()
    } else {
        grid(n - 1, width).union(vstd::set_lib::set_int_range(0, width).map(|j: int| (n - 1, j)))
    }
}

pub(crate) proof fn lemma_grid(n: int, width: int)
    requires
        0 <= width,
    ensures
        grid(n, width).finite(),
        forall|p: (int, int)| 0 <= p.0 < n && 0 <= p.1 < width ==> #[trigger] grid(n, width).contains(p),
    decreases n,
{
    if n > 0 {
        lemma_grid(n - 1, width);
        let row = vstd::set_lib::set_int_range(0, width);
        vstd::set_lib::lemma_int_range(0, width);
        row.lemma_map_finite(|j: int| (n - 1, j));
        assert forall|p: (int, int)| 0 <= p.0 < n && 0 <= p.1 < width implies #[trigger] grid(n, width).contains(p) by {
            if p.0 == n - 1 {
                assert(row.contains(p.1));
                assert(row.map(|j: int| (n - 1, j)).contains((n - 1, p.1)));
            } else {
                assert(grid(n - 1, width).contains(p));
            }
        }
    }
}

/// The claims on which two sets of claims disagree.
spec fn claim_diff(m1: Seq<Option<usize>>, m2: Seq<Option<usize>>, width: int) -> Set<(int, int)> {
    Set::new(
        |p: (int, int)|
            0 <= p.0 < m1.len() && 0 <= p.1 < width && (m1[p.0] == Some(p.1 as usize)) != (m2[p.0] == Some(
                p.1 as usize,
            )),
    )
}

/// A nonempty finite set of claims has one that comes before all the others.
proof fn lemma_earliest_claim(s: Seq<Seq<i64>>, d: Set<(int, int)>) -> (e: (int, int))
    requires
        d.finite(),
        d.len() > 0,
    ensures
        d.contains(e),
        forall|x: (int, int)| #[trigger] d.contains(x) && x != e ==> claim_before(s, e.0, e.1, x.0, x.1),
    decreases d.len(),
{
    let x = d.choose();
    let rest = d.remove(x);
    if rest.len() == 0 {
        rest.lemma_len0_is_empty();
        assert forall|y: (int, int)| #[trigger] d.contains(y) && y != x implies claim_before(s, x.0, x.1, y.0, y.1) by {
            assert(rest.contains(y));
        }
        x
    } else {
        let y = lemma_earliest_claim(s, rest);
        if claim_before(s, x.0, x.1, y.0, y.1) {
            assert forall|z: (int, int)| #[trigger] d.contains(z) && z != x implies claim_before(s, x.0, x.1, z.0, z.1) by {
                assert(rest.contains(z));
            }
            x
        } else {
            assert forall|z: (int, int)| #[trigger] d.contains(z) && z != y implies claim_before(s, y.0, y.1, z.0, z.1) by {
                if z != x {
                    assert(rest.contains(z));
                }
            }
            y
        }
    }
}

/// A claim that one greedy outcome makes and the other does not has an
/// earlier claim on which the two disagree.
proof fn lemma_disagreement_has_earlier(
    s: Seq<Seq<i64>>,
    width: usize,
    m1: Seq<Option<usize>>,
    m2: Seq<Option<usize>>,
    i: int,
    j: int,
)
    requires
        greedy_claims(s, width as int, m1),
        greedy_claims(s, width as int, m2),
        0 <= i < m1.len(),
        0 <= j < width,
        m1[i] == Some(j as usize),
        m2[i] != Some(j as usize),
    ensures
        exists|x: (int, int)| #[trigger] claim_diff(m1, m2, width as int).contains(x) && claim_before(s, x.0, x.1, i, j),
{
    let d = claim_diff(m1, m2, width as int);
    assert(m1[i] is Some);
    assert(s[i][j] > 0);
    assert(claim_blocked(s, m2, i, j));
    if m2[i] is Some && claim_before(s, i, m2[i]->0 as int, i, j) {
        let j2 = m2[i]->0 as int;
        assert(m2[i] is Some);
        assert(d.contains((i, j2)));
    } else {
        let i2 = choose|i2: int| 0 <= i2 < m2.len() && #[trigger] m2[i2] == Some(j as usize) && claim_before(s, i2, j, i, j);
        assert(m2[i2] is Some);
        assert(m1[i2] != Some(j as usize)) by {
            if m1[i2] == Some(j as usize) {
                assert(m1[i] is Some && m1[i2] is Some);
            }
        }
        assert(d.contains((i2, j)));
    }
}

/// Greedy claiming is deterministic: a score matrix admits exactly one
/// outcome, so ties never leave the result open.
pub proof fn law_greedy_claims_unique(s: Seq<Seq<i64>>, width: usize, m1: Seq<Option<usize>>, m2: Seq<Option<usize>>)
    requires
        greedy_claims(s, width as int, m1),
        greedy_claims(s, width as int, m2),
    ensures
        m1 == m2,
{
    let d = claim_diff(m1, m2, width as int);
    if !(m1 =~= m2) {
        let i = choose|i: int| 0 <= i < m1.len() && m1[i] != m2[i];
        let j: int = if m1[i] is Some {
            m1[i]->0 as int
        } else {
            m2[i]->0 as int
        };
        if m1[i] is Some {
            assert(m1[i] is Some);
        } else {
            assert(m2[i] is Some);
        }
        assert(d.contains((i, j)));
        lemma_grid(m1.len() as int, width as int);
        assert(d.subset_of(grid(m1.len() as int, width as int)));
        vstd::set_lib::lemma_len_subset(d, grid(m1.len() as int, width as int));
        let e = lemma_earliest_claim(s, d);
        assert(d.contains(e));
        let m1e = m1[e.0] == Some(e.1 as usize);
        if m1e {
            lemma_disagreement_has_earlier(s, width, m1, m2, e.0, e.1);
        } else {
            lemma_disagreement_has_earlier(s, width, m2, m1, e.0, e.1);
            assert(claim_diff(m2, m1, width as int) =~= d);
        }
        let x = choose|x: (int, int)| #[trigger] d.contains(x) && claim_before(s, x.0, x.1, e.0, e.1);
        assert(claim_before(s, e.0, e.1, x.0, x.1));
    }
}

/// A remapping is deterministic: the two passes admit exactly one plan.
pub proof fn law_remap_plan_unique(
    new: Seq<StoredTurn>,
    old: Seq<StoredTurn>,
    labels: Seq<Seq<char>>,
    keys: Seq<Seq<char>>,
    m: Seq<Option<usize>>,
    labels2: Seq<Seq<char>>,
    keys2: Seq<Seq<char>>,
    m2: Seq<Option<usize>>,
)
    requires
        remap_plan(new, old, labels, keys, m),
        remap_plan(new, old, labels2, keys2, m2),
        keys.len() <= usize::MAX,
    ensures
        labels == labels2,
        keys == keys2,
        m == m2,
{
    lemma_sorted_unique(labels, labels2);
    lemma_sorted_unique(keys, keys2);
    law_greedy_claims_unique(claim_matrix(new, old, labels, keys), keys.len() as usize, m, m2);
}

/// The key a turn is stored under: its own key, or one derived from its label.
pub open spec fn stored_key_of(t: StoredTurn) -> Seq<char> {
    if t.speaker_key@.len() == 0 {
        key_from_label(t.speaker_label@)
    } else {
        t.speaker_key@
    }
}

/// The indices `i < n` of the turns whose stored key is in `known`, ascending.
pub open spec fn known_turns(keys: Seq<Seq<char>>, known: Set<Seq<char>>, n: int) -> Seq<usize>
    decreases n,
{
    if n <= 0 {
        Seq::empty()
    } else {
        let p = known_turns(keys, known, n - 1);
        if known.contains(keys[n - 1]) {
            p.push((n - 1) as usize)
        } else {
            p
        }
    }
}

/// What a replacement of a meeting's speaker turns writes, before any row is
/// touched.
#[derive(Debug, Clone)]
pub struct ReplacementPlan {
    /// The new turns, carrying the keys they inherit from the earlier pass.
    pub turns: Vec<StoredTurn>,
    /// The key each of `turns` is stored under.
    pub stored_keys: Vec<String>,
    /// The speakers the meeting knows: earlier ones, newly accepted ones, and
    /// those of manual assignments.
    pub known_keys: Vec<String>,
    /// The turns (ascending indices) whose speaker gets a profile row and
    /// whose span is reconciled against the transcripts.
    pub profile_turns: Vec<usize>,
}

proof fn lemma_known_turns(keys: Seq<Seq<char>>, known: Set<Seq<char>>, n: int)
    requires
        0 <= n <= keys.len(),
        n <= usize::MAX,
    ensures
        forall|j: int| 0 <= j < known_turns(keys, known, n).len() ==> (#[trigger] known_turns(keys, known, n)[j]) < n
            && known.contains(keys[known_turns(keys, known, n)[j] as int]),
    decreases n,
{
    if n > 0 {
        lemma_known_turns(keys, known, n - 1);
        let p = known_turns(keys, known, n - 1);
        let q = known_turns(keys, known, n);
        assert forall|j: int| 0 <= j < q.len() implies (#[trigger] q[j]) < n && known.contains(keys[q[j] as int]) by {
            if j < p.len() {
                assert(q[j] == p[j]);
            }
        }
    }
}

fn union_into(out: &mut Vec<String>, extra: &Vec<String>)
    requires
        views(old(out)@).no_duplicates(),
    ensures
        views(final(out)@).no_duplicates(),
        views(final(out)@).to_set() == views(old(out)@).to_set() + views(extra@).to_set(),
{
    let ghost start = views(out@).to_set();
    let mut i: usize = 0;
    while i < extra.len()
        invariant
            i <= extra@.len(),
            views(out@).no_duplicates(),
            views(out@).to_set() == start + views(extra@.subrange(0, i as int)).to_set(),
        decreases extra@.len() - i,
    {
        insert_unique(out, owned(extra[i].as_str()));
        proof {
            assert(views(extra@.subrange(0, i + 1)) =~= views(extra@.subrange(0, i as int)).push(extra@[i as int]@));
            views(extra@.subrange(0, i as int)).lemma_push_to_set_commute(extra@[i as int]@);
            assert(views(out@).to_set() =~= start + views(extra@.subrange(0, i + 1)).to_set());
        }
        i += 1;
    }
    assert(extra@.subrange(0, extra@.len() as int) =~= extra@);
}

/// Plans the replacement of a meeting's speaker turns: the new turns take
/// the keys of the earlier pass; the meeting knows its earlier speakers, the
/// ones the acceptance policy admitted from this pass, and those of manual
/// assignments; and only a turn whose stored key the meeting knows gets a
/// speaker row and takes part in reconciliation. A short-only cluster that
/// nobody accepted therefore never becomes a meeting speaker.
pub fn plan_replacement(
    old: &[StoredTurn],
    new: &[StoredTurn],
    known: &Vec<String>,
    accepted: &Vec<String>,
    manual: &Vec<String>,
) -> (plan: ReplacementPlan)
    requires
        scores_fit(new@, old@),
        old@.len() + new@.len() < usize::MAX,
    ensures
        plan.turns@.len() == new@.len(),
        exists|labels: Seq<Seq<char>>, keys: Seq<Seq<char>>, m: Seq<Option<usize>>|
            #[trigger] remap_plan(new@, old@, labels, keys, m) && forall|i: int|
                0 <= i < new@.len() ==> remapped_turn(#[trigger] plan.turns@[i], new@[i], labels, keys, m),
        plan.stored_keys@.len() == plan.turns@.len(),
        forall|i: int| 0 <= i < plan.turns@.len() ==> (#[trigger] plan.stored_keys@[i])@ == stored_key_of(plan.turns@[i]),
        views(plan.known_keys@).to_set() == views(known@).to_set() + views(accepted@).to_set() + views(manual@).to_set(),
        plan.profile_turns@ == known_turns(views(plan.stored_keys@), views(plan.known_keys@).to_set(), plan.turns@.len() as int),
        forall|j: int| 0 <= j < plan.profile_turns@.len() ==> (#[trigger] plan.profile_turns@[j] as int) < plan.turns@.len()
            && views(plan.known_keys@).to_set().contains(plan.stored_keys@[plan.profile_turns@[j] as int]@),
{
    let turns = remap_turn_keys(old, new);
    let mut stored_keys: Vec<String> = Vec::new();
    let mut i: usize = 0;
    while i < turns.len()
        invariant
            i <= turns@.len(),
            stored_keys@.len() == i,
            forall|k: int| 0 <= k < i ==> (#[trigger] stored_keys@[k])@ == stored_key_of(turns@[k]),
        decreases turns@.len() - i,
    {
        stored_keys.push(SpeakerTurnsRepository::stored_key(&turns[i]));
        i += 1;
    }
    let mut known_keys: Vec<String> = Vec::new();
    proof {
        assert(views(known_keys@).to_set() =~= Set::<Seq<char>>::empty());
    }
    union_into(&mut known_keys, known);
    union_into(&mut known_keys, accepted);
    union_into(&mut known_keys, manual);
    proof {
        assert(views(known_keys@).to_set() =~= views(known@).to_set() + views(accepted@).to_set() + views(manual@).to_set());
    }
    let ghost kv = views(stored_keys@);
    let ghost ks = views(known_keys@).to_set();
    let mut profile_turns: Vec<usize> = Vec::new();
    let mut j: usize = 0;
    while j < stored_keys.len()
        invariant
            j <= stored_keys@.len(),
            kv == views(stored_keys@),
            ks == views(known_keys@).to_set(),
            profile_turns@ == known_turns(kv, ks, j as int),
        decreases stored_keys@.len() - j,
    {
        if contains_str(&known_keys, stored_keys[j].as_str()) {
            profile_turns.push(j);
        }
        assert(kv[j as int] == stored_keys@[j as int]@);
        j += 1;
    }
    proof {
        lemma_known_turns(kv, ks, stored_keys@.len() as int);
        assert forall|j: int| 0 <= j < profile_turns@.len() implies (#[trigger] profile_turns@[j] as int) < turns@.len()
            && ks.contains(stored_keys@[profile_turns@[j] as int]@) by {
            assert(kv[profile_turns@[j] as int] == stored_keys@[profile_turns@[j] as int]@);
        }
    }
    ReplacementPlan { turns, stored_keys, known_keys, profile_turns }
}

} // verus!
