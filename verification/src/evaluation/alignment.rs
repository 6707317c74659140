//! Optimal one-to-one alignment of ground-truth speakers to diarizer clusters.

use vstd::prelude::*;
use crate::strings::{contains_str, lookup, lookup_str, pair_views, views};
use crate::database::key_remap::{insert_sorted, strictly_sorted};

verus! {

/// The weight matrix as plain sequences.
pub open spec fn rows(weights: Seq<Vec<i64>>) -> Seq<Seq<i64>> {
    weights.map_values(|row: Vec<i64>| row@)
}

/// Cluster `c` is marked used in `mask`.
pub open spec fn bit(mask: u64, c: int) -> bool {
    0 <= c < 64 && (mask & (1u64 << (c as u64))) != 0
}

/// Rows are at most 64 clusters wide (the mask is a `u64`).
pub open spec fn narrow(w: Seq<Seq<i64>>) -> bool {
    forall|i: int| 0 <= i < w.len() ==> #[trigger] w[i].len() <= 64
}

/// The largest weight magnitude for which no sum over the rows can overflow.
pub open spec fn weight_bound(w: Seq<Seq<i64>>) -> int {
    (i64::MAX as int) / ((w.len() + 1) as int)
}

/// Every weight is small enough that no sum over the rows can overflow.
pub open spec fn bounded(w: Seq<Seq<i64>>) -> bool {
    forall|i: int, c: int|
        0 <= i < w.len() && 0 <= c < w[i].len() ==> -weight_bound(w) <= #[trigger] w[i][c]
            <= weight_bound(w)
}

/// Best score and assignment of rows `index..` given the used clusters `mask`,
/// exploring "no cluster" first and then clusters in increasing order, keeping
/// the first strictly better choice.
pub open spec fn solve(w: Seq<Seq<i64>>, index: nat, mask: u64) -> (int, Seq<Option<usize>>)
    decreases w.len() - index, row_len(w, index) + 1,
{
    if index >= w.len() {
        (0, seq![])
    } else {
        step(w, index, mask, w[index as int].len())
    }
}

/// The number of clusters of row `index` (0 past the last row).
pub open spec fn row_len(w: Seq<Seq<i64>>, index: nat) -> nat {
    if index < w.len() {
        w[index as int].len()
    } else {
        0
    }
}

/// The choice for row `index` after considering clusters `0..c`.
pub open spec fn step(w: Seq<Seq<i64>>, index: nat, mask: u64, c: nat) -> (
    int,
    Seq<Option<usize>>,
)
    decreases w.len() - index, c,
{
    if index >= w.len() {
        (0, seq![])
    } else if c == 0 {
        let rest = solve(w, index + 1, mask);
        (rest.0, seq![None::<usize>] + rest.1)
    } else {
        let prev = step(w, index, mask, (c - 1) as nat);
        let cl = (c - 1) as int;
        if bit(mask, cl) || cl >= 64 {
            prev
        } else {
            let rest = solve(w, index + 1, mask | (1u64 << (cl as u64)));
            let score = w[index as int][cl] + rest.0;
            if score > prev.0 {
                (score, seq![Some(cl as usize)] + rest.1)
            } else {
                prev
            }
        }
    }
}

/// The weight that assignment `a` collects on rows `index..`.
pub open spec fn score(w: Seq<Seq<i64>>, index: nat, a: Seq<Option<usize>>) -> int
    decreases a.len(),
{
    if a.len() == 0 {
        0
    } else {
        let head = match a[0] {
            Some(c) => w[index as int][c as int] as int,
            None => 0,
        };
        head + score(w, index + 1, a.drop_first())
    }
}

/// `a` assigns each of rows `index..` at most one in-range cluster that is not in
/// `mask`, and no cluster to two rows.
pub open spec fn valid(w: Seq<Seq<i64>>, index: nat, mask: u64, a: Seq<Option<usize>>) -> bool {
    &&& index <= w.len()
    &&& a.len() == w.len() - index
    &&& forall|k: int|
        0 <= k < a.len() && #[trigger] a[k] is Some ==> (a[k]->0 as int) < w[index + k].len()
            && !bit(mask, a[k]->0 as int)
    &&& forall|k1: int, k2: int|
        0 <= k1 < a.len() && 0 <= k2 < a.len() && k1 != k2 && #[trigger] a[k1] is Some
            && #[trigger] a[k2] is Some ==> a[k1]->0 != a[k2]->0
}

pub proof fn lemma_bit_or(mask: u64, cl: u64, x: u64)
    requires
        cl < 64,
        x < 64,
    ensures
        ((mask | (1u64 << cl)) & (1u64 << x) != 0) == ((mask & (1u64 << x) != 0) || x == cl),
{
    assert(((mask | (1u64 << cl)) & (1u64 << x) != 0) == ((mask & (1u64 << x) != 0) || x == cl))
        by (bit_vector)
        requires
            cl < 64,
            x < 64,
    ;
}

/// `solve` yields a valid assignment whose score it reports, and no valid
/// assignment scores more.
pub proof fn lemma_solve(w: Seq<Seq<i64>>, index: nat, mask: u64)
    requires
        narrow(w),
        index <= w.len(),
    ensures
        valid(w, index, mask, solve(w, index, mask).1),
        score(w, index, solve(w, index, mask).1) == solve(w, index, mask).0,
        forall|a: Seq<Option<usize>>|
            valid(w, index, mask, a) ==> score(w, index, a) <= solve(w, index, mask).0,
    decreases w.len() - index, row_len(w, index) + 1,
{
    if index < w.len() {
        lemma_step(w, index, mask, w[index as int].len());
    }
}

proof fn lemma_step(w: Seq<Seq<i64>>, index: nat, mask: u64, c: nat)
    requires
        narrow(w),
        index < w.len(),
        c <= w[index as int].len(),
    ensures
        valid(w, index, mask, step(w, index, mask, c).1),
        score(w, index, step(w, index, mask, c).1) == step(w, index, mask, c).0,
        forall|a: Seq<Option<usize>>|
            valid(w, index, mask, a) && (a[0] is None || (a[0]->0 as int) < c) ==> score(
                w,
                index,
                a,
            ) <= step(w, index, mask, c).0,
    decreases w.len() - index, c,
{
    let res = step(w, index, mask, c);
    if c == 0 {
        let rest = solve(w, index + 1, mask);
        lemma_solve(w, index + 1, mask);
        let r = res.1;
        assert(r.drop_first() =~= rest.1);
        assert forall|k: int| 0 <= k < r.len() && #[trigger] r[k] is Some implies (r[k]->0 as int)
            < w[index + k].len() && !bit(mask, r[k]->0 as int) by {
            assert(r[k] == rest.1[k - 1]);
        }
        assert forall|k1: int, k2: int|
            0 <= k1 < r.len() && 0 <= k2 < r.len() && k1 != k2 && #[trigger] r[k1] is Some
                && #[trigger] r[k2] is Some implies r[k1]->0 != r[k2]->0 by {
            assert(r[k1] == rest.1[k1 - 1]);
            assert(r[k2] == rest.1[k2 - 1]);
        }
        assert forall|a: Seq<Option<usize>>|
            valid(w, index, mask, a) && (a[0] is None || (a[0]->0 as int) < c) implies score(
            w,
            index,
            a,
        ) <= res.0 by {
            lemma_tail_valid_none(w, index, mask, a);
        }
    } else {
        lemma_step(w, index, mask, (c - 1) as nat);
        let prev = step(w, index, mask, (c - 1) as nat);
        let cl = (c - 1) as int;
        assert(cl < 64) by {
            assert(w[index as int].len() <= 64);
        }
        if bit(mask, cl) {
            assert forall|a: Seq<Option<usize>>|
                valid(w, index, mask, a) && (a[0] is None || (a[0]->0 as int) < c) implies score(
                w,
                index,
                a,
            ) <= res.0 by {
                if a[0] is Some && a[0]->0 as int == cl {
                    assert(a.len() > 0);
                    assert(!bit(mask, a[0]->0 as int));
                }
            }
        } else {
            let m2 = mask | (1u64 << (cl as u64));
            lemma_solve(w, index + 1, m2);
            let rest = solve(w, index + 1, m2);
            assert forall|x: int| 0 <= x < 64 implies bit(m2, x) == (bit(mask, x) || x == cl) by {
                lemma_bit_or(mask, cl as u64, x as u64);
            }
            let scr = w[index as int][cl] + rest.0;
            if scr > prev.0 {
                let r = res.1;
                assert(r == seq![Some(cl as usize)] + rest.1);
                assert(r.drop_first() =~= rest.1);
                assert forall|k: int| 0 <= k < r.len() && #[trigger] r[k] is Some implies (
                r[k]->0 as int) < w[index + k].len() && !bit(mask, r[k]->0 as int) by {
                    if k > 0 {
                        assert(r[k] == rest.1[k - 1]);
                        assert(rest.1[k - 1] is Some);
                        assert(!bit(m2, rest.1[k - 1]->0 as int));
                    }
                }
                assert forall|k1: int, k2: int|
                    0 <= k1 < r.len() && 0 <= k2 < r.len() && k1 != k2 && #[trigger] r[k1] is Some
                        && #[trigger] r[k2] is Some implies r[k1]->0 != r[k2]->0 by {
                    if k1 > 0 && k2 > 0 {
                        assert(r[k1] == rest.1[k1 - 1]);
                        assert(r[k2] == rest.1[k2 - 1]);
                    } else if k1 == 0 {
                        assert(r[k2] == rest.1[k2 - 1]);
                        assert(!bit(m2, rest.1[k2 - 1]->0 as int));
                        assert((rest.1[k2 - 1]->0 as int) < w[index + k2].len());
                        assert(w[index + k2].len() <= 64);
                    } else {
                        assert(r[k1] == rest.1[k1 - 1]);
                        assert(!bit(m2, rest.1[k1 - 1]->0 as int));
                        assert(w[index + k1].len() <= 64);
                    }
                }
                assert(score(w, index, r) == w[index as int][cl] + score(w, index + 1, rest.1));
            }
            assert forall|a: Seq<Option<usize>>|
                valid(w, index, mask, a) && (a[0] is None || (a[0]->0 as int) < c) implies score(
                w,
                index,
                a,
            ) <= res.0 by {
                if a[0] is Some && a[0]->0 as int == cl {
                    lemma_tail_valid_some(w, index, mask, a, cl);
                }
            }
        }
    }
}

/// Dropping an unassigned first row keeps the rest valid.
proof fn lemma_tail_valid_none(w: Seq<Seq<i64>>, index: nat, mask: u64, a: Seq<Option<usize>>)
    requires
        narrow(w),
        index < w.len(),
        valid(w, index, mask, a),
        a[0] is None,
    ensures
        valid(w, index + 1, mask, a.drop_first()),
        score(w, index, a) == score(w, index + 1, a.drop_first()),
{
    let t = a.drop_first();
    assert forall|k: int| 0 <= k < t.len() && #[trigger] t[k] is Some implies (t[k]->0 as int)
        < w[index + 1 + k].len() && !bit(mask, t[k]->0 as int) by {
        assert(t[k] == a[k + 1]);
    }
    assert forall|k1: int, k2: int|
        0 <= k1 < t.len() && 0 <= k2 < t.len() && k1 != k2 && #[trigger] t[k1] is Some
            && #[trigger] t[k2] is Some implies t[k1]->0 != t[k2]->0 by {
        assert(t[k1] == a[k1 + 1]);
        assert(t[k2] == a[k2 + 1]);
    }
}

/// Dropping a first row assigned to `cl` keeps the rest valid with `cl` marked used.
proof fn lemma_tail_valid_some(
    w: Seq<Seq<i64>>,
    index: nat,
    mask: u64,
    a: Seq<Option<usize>>,
    cl: int,
)
    requires
        narrow(w),
        index < w.len(),
        valid(w, index, mask, a),
        a[0] == Some(cl as usize),
        0 <= cl < 64,
        forall|x: int|
            0 <= x < 64 ==> bit(mask | (1u64 << (cl as u64)), x) == (bit(mask, x) || x == cl),
    ensures
        valid(w, index + 1, mask | (1u64 << (cl as u64)), a.drop_first()),
        score(w, index, a) == w[index as int][cl] + score(w, index + 1, a.drop_first()),
{
    let t = a.drop_first();
    let m2 = mask | (1u64 << (cl as u64));
    assert forall|k: int| 0 <= k < t.len() && #[trigger] t[k] is Some implies (t[k]->0 as int)
        < w[index + 1 + k].len() && !bit(m2, t[k]->0 as int) by {
        assert(t[k] == a[k + 1]);
        assert(a[0] is Some);
        assert(a[k + 1]->0 != a[0]->0);
        assert(w[index + 1 + k].len() <= 64);
    }
    assert forall|k1: int, k2: int|
        0 <= k1 < t.len() && 0 <= k2 < t.len() && k1 != k2 && #[trigger] t[k1] is Some
            && #[trigger] t[k2] is Some implies t[k1]->0 != t[k2]->0 by {
        assert(t[k1] == a[k1 + 1]);
        assert(t[k2] == a[k2 + 1]);
    }
}

/// A valid assignment's score is bounded by its length times the weight bound.
proof fn lemma_score_bound(w: Seq<Seq<i64>>, index: nat, mask: u64, a: Seq<Option<usize>>)
    requires
        bounded(w),
        valid(w, index, mask, a),
    ensures
        -(a.len() * weight_bound(w)) <= score(w, index, a) <= a.len() * weight_bound(w),
    decreases a.len(),
{
    if a.len() > 0 {
        let t = a.drop_first();
        assert forall|k: int| 0 <= k < t.len() && #[trigger] t[k] is Some implies (t[k]->0 as int)
            < w[index + 1 + k].len() && !bit(mask, t[k]->0 as int) by {
            assert(t[k] == a[k + 1]);
        }
        assert forall|k1: int, k2: int|
            0 <= k1 < t.len() && 0 <= k2 < t.len() && k1 != k2 && #[trigger] t[k1] is Some
                && #[trigger] t[k2] is Some implies t[k1]->0 != t[k2]->0 by {
            assert(t[k1] == a[k1 + 1]);
            assert(t[k2] == a[k2 + 1]);
        }
        lemma_score_bound(w, index + 1, mask, t);
        if a[0] is Some {
            assert(0 <= (a[0]->0 as int) < w[index as int].len());
        }
        assert((a.len() - 1) * weight_bound(w) + weight_bound(w) == a.len() * weight_bound(w))
            by (nonlinear_arith);
    }
}

proof fn lemma_solve_bound(w: Seq<Seq<i64>>, index: nat, mask: u64)
    requires
        narrow(w),
        bounded(w),
        index <= w.len(),
    ensures
        -((w.len() - index) * weight_bound(w)) <= solve(w, index, mask).0 <= (w.len() - index)
            * weight_bound(w),
{
    lemma_solve(w, index, mask);
    lemma_score_bound(w, index, mask, solve(w, index, mask).1);
}

fn solve_from(weights: &[Vec<i64>], index: usize, mask: u64) -> (result: (i64, Vec<Option<usize>>))
    requires
        narrow(rows(weights@)),
        bounded(rows(weights@)),
        index <= weights@.len(),
    ensures
        result.0 == solve(rows(weights@), index as nat, mask).0,
        result.1@ == solve(rows(weights@), index as nat, mask).1,
    decreases weights@.len() - index,
{
    let ghost w = rows(weights@);
    if index == weights.len() {
        return (0, Vec::new());
    }
    let (mut best_score, mut best_tail) = solve_from(weights, index + 1, mask);
    best_tail.insert(0, None);
    let row = &weights[index];
    assert(row@ == w[index as int]);
    let row_len = row.len();
    assert(row_len <= 64) by {
        assert(w[index as int].len() <= 64);
    }
    proof {
        assert(best_tail@ =~= seq![None::<usize>] + solve(w, (index + 1) as nat, mask).1);
    }
    let n_rows = weights.len();
    let mut cluster: usize = 0;
    while cluster < row_len
        invariant
            n_rows == weights@.len(),
            w == rows(weights@),
            narrow(w),
            bounded(w),
            index < weights@.len(),
            row@ == w[index as int],
            row_len == row@.len(),
            row_len <= 64,
            cluster <= row_len,
            best_score == step(w, index as nat, mask, cluster as nat).0,
            best_tail@ == step(w, index as nat, mask, cluster as nat).1,
        decreases row_len - cluster,
    {
        let ghost cl = cluster as int;
        let bitv: u64 = 1u64 << (cluster as u64);
        if mask & bitv != 0 {
            cluster += 1;
            continue;
        }
        let next_mask = mask | bitv;
        let (tail_score, mut tail) = solve_from(weights, index + 1, next_mask);
        proof {
            lemma_solve_bound(w, (index + 1) as nat, next_mask);
            let b = weight_bound(w);
            assert(-b <= w[index as int][cl] <= b);
            let n = w.len();
            assert(b * (n + 1) <= i64::MAX) by (nonlinear_arith)
                requires
                    b == (i64::MAX as int) / ((n + 1) as int),
                    n >= 0,
            ;
            assert((n - index - 1) * b + b <= n * b) by (nonlinear_arith)
                requires
                    0 <= index < n,
                    b >= 0,
            ;
            assert(n * b <= b * (n + 1)) by (nonlinear_arith)
                requires
                    b >= 0,
                    n >= 0,
            ;
            assert(row@[cl] == w[index as int][cl]);
        }
        let s = row[cluster] + tail_score;
        if s > best_score {
            best_score = s;
            tail.insert(0, Some(cluster));
            best_tail = tail;
            proof {
                assert(best_tail@ =~= seq![Some(cluster)] + solve(w, (index + 1) as nat, next_mask).1);
            }
        }
        cluster += 1;
    }
    (best_score, best_tail)
}

/// The assignment of ground-truth speakers (rows) to diarizer clusters
/// (columns) with the greatest total weight, each cluster used at most once and
/// each row left unassigned where that scores better.
pub fn maximum_weight_assignment(weights: &[Vec<i64>]) -> (result: Vec<Option<usize>>)
    requires
        narrow(rows(weights@)),
        bounded(rows(weights@)),
    ensures
        result@ == solve(rows(weights@), 0, 0).1,
        valid(rows(weights@), 0, 0, result@),
        forall|a: Seq<Option<usize>>|
            valid(rows(weights@), 0, 0, a) ==> score(rows(weights@), 0, a) <= score(
                rows(weights@),
                0,
                result@,
            ),
{
    proof {
        lemma_solve(rows(weights@), 0, 0);
    }
    solve_from(weights, 0, 0).1
}

/// The expected speakers of `original` that `mapping` does not cover, in order.
pub open spec fn unmapped_keys(original: Seq<Seq<char>>, m: Seq<(Seq<char>, Seq<char>)>) -> Seq<
    Seq<char>,
>
    decreases original.len(),
{
    if original.len() == 0 {
        seq![]
    } else {
        let rest = unmapped_keys(original.drop_last(), m);
        if lookup(m, original.last()) is None {
            rest.push(original.last())
        } else {
            rest
        }
    }
}

/// The mapped names of the expected speakers that `mapping` covers, in order.
pub open spec fn mapped_values(original: Seq<Seq<char>>, m: Seq<(Seq<char>, Seq<char>)>) -> Seq<
    Seq<char>,
>
    decreases original.len(),
{
    if original.len() == 0 {
        seq![]
    } else {
        let rest = mapped_values(original.drop_last(), m);
        match lookup(m, original.last()) {
            Some(v) => rest.push(v),
            None => rest,
        }
    }
}

/// Outcome for one meeting of comparing accepted speakers with the expected ones.
#[derive(Debug, Clone)]
pub struct SpeakerAcceptanceMeetingStatus {
    pub scorable: bool,
    pub reason: Option<&'static str>,
    pub mapped_expected_speakers: usize,
    pub total_expected_speakers: usize,
    pub unmapped_expected_speakers: Vec<String>,
}

/// Per-meeting speaker-acceptance verdict.
#[derive(Debug, Clone)]
pub struct SpeakerAcceptanceEvaluation {
    pub status: SpeakerAcceptanceMeetingStatus,
    pub failed: Option<bool>,
    pub false_new: bool,
    pub missed_real: bool,
}

/// Renames each expected speaker through `mapping`, or lists the ones it does not cover.
pub fn map_expected_speakers(original: &Vec<String>, mapping: &Vec<(String, String)>) -> (result:
    Result<Vec<String>, Vec<String>>)
    ensures
        match result {
            Ok(expected) => {
                &&& unmapped_keys(views(original@), pair_views(mapping@)).len() == 0
                &&& strictly_sorted(views(expected@))
                &&& views(expected@).to_set() == mapped_values(
                    views(original@),
                    pair_views(mapping@),
                ).to_set()
            },
            Err(unmapped) => {
                &&& unmapped_keys(views(original@), pair_views(mapping@)).len() > 0
                &&& views(unmapped@) == unmapped_keys(views(original@), pair_views(mapping@))
            },
        },
{
    let ghost o = views(original@);
    let ghost m = pair_views(mapping@);
    let mut unmapped: Vec<String> = Vec::new();
    let mut i: usize = 0;
    while i < original.len()
        invariant
            i <= original@.len(),
            o == views(original@),
            m == pair_views(mapping@),
            views(unmapped@) == unmapped_keys(o.subrange(0, i as int), m),
        decreases original@.len() - i,
    {
        assert(o.subrange(0, i + 1).drop_last() =~= o.subrange(0, i as int));
        assert(o.subrange(0, i + 1).last() == original@[i as int]@);
        if lookup_str(mapping, original[i].as_str()).is_none() {
            unmapped.push(original[i].clone());
            assert(views(unmapped@) =~= unmapped_keys(o.subrange(0, i + 1), m));
        }
        i += 1;
    }
    assert(o.subrange(0, original@.len() as int) =~= o);
    if unmapped.len() > 0 {
        return Err(unmapped);
    }
    let mut expected: Vec<String> = Vec::new();
    let mut j: usize = 0;
    while j < original.len()
        invariant
            j <= original@.len(),
            o == views(original@),
            m == pair_views(mapping@),
            strictly_sorted(views(expected@)),
            views(expected@).to_set() == mapped_values(o.subrange(0, j as int), m).to_set(),
        decreases original@.len() - j,
    {
        let ghost prefix = o.subrange(0, j + 1);
        assert(prefix.drop_last() =~= o.subrange(0, j as int));
        assert(prefix.last() == original@[j as int]@);
        match lookup_str(mapping, original[j].as_str()) {
            Some(value) => {
                insert_sorted(&mut expected, value.clone());
                proof {
                    let mv = mapped_values(o.subrange(0, j as int), m);
                    mv.lemma_push_to_set_commute(value@);
                }
            },
            None => {},
        }
        j += 1;
    }
    Ok(expected)
}

/// A speaker in `predicted` that no expected speaker maps to.
pub open spec fn has_false_new(expected: Set<Seq<char>>, predicted: Seq<Seq<char>>) -> bool {
    exists|i: int| 0 <= i < predicted.len() && !expected.contains(#[trigger] predicted[i])
}

/// An expected speaker that `predicted` misses.
pub open spec fn has_missed_real(expected: Set<Seq<char>>, predicted: Seq<Seq<char>>) -> bool {
    exists|e: Seq<char>| expected.contains(e) && !predicted.contains(e)
}

fn any_not_in(items: &Vec<String>, within: &Vec<String>) -> (result: bool)
    ensures
        result == exists|i: int| 0 <= i < items@.len() && !views(within@).contains(#[trigger] views(items@)[i]),
{
    let mut i: usize = 0;
    while i < items.len()
        invariant
            i <= items@.len(),
            forall|k: int| 0 <= k < i ==> views(within@).contains(#[trigger] views(items@)[k]),
        decreases items@.len() - i,
    {
        if !contains_str(within, items[i].as_str()) {
            assert(!views(within@).contains(views(items@)[i as int]));
            return true;
        }
        i += 1;
    }
    false
}

/// Scores one meeting's accepted speakers against its expected speakers once
/// ground-truth speakers were aligned to diarizer clusters by `mapping`.
pub fn evaluate_speaker_acceptance(
    original: &Vec<String>,
    mapping: &Vec<(String, String)>,
    predicted: &Vec<String>,
) -> (result: SpeakerAcceptanceEvaluation)
    requires
        views(original@).no_duplicates(),
    ensures
        original@.len() == 0 ==> {
            &&& !result.status.scorable
            &&& result.status.reason == Some("no_expected_speakers")
            &&& result.status.mapped_expected_speakers == 0
            &&& result.status.total_expected_speakers == 0
            &&& result.status.unmapped_expected_speakers@.len() == 0
            &&& result.failed is None
            &&& !result.false_new
            &&& !result.missed_real
        },
        original@.len() > 0 && unmapped_keys(views(original@), pair_views(mapping@)).len() == 0
            ==> {
            let expected = mapped_values(views(original@), pair_views(mapping@)).to_set();
            &&& result.status.scorable
            &&& result.status.reason is None
            &&& result.status.mapped_expected_speakers == expected.len()
            &&& result.status.total_expected_speakers == original@.len()
            &&& result.status.unmapped_expected_speakers@.len() == 0
            &&& result.false_new == has_false_new(expected, views(predicted@))
            &&& result.missed_real == has_missed_real(expected, views(predicted@))
            &&& result.failed == Some(result.false_new || result.missed_real)
        },
        original@.len() > 0 && unmapped_keys(views(original@), pair_views(mapping@)).len() > 0
            ==> {
            let unmapped = unmapped_keys(views(original@), pair_views(mapping@));
            &&& !result.status.scorable
            &&& result.status.reason == Some("partial_speaker_alignment")
            &&& result.status.mapped_expected_speakers == original@.len() - unmapped.len()
            &&& result.status.total_expected_speakers == original@.len()
            &&& views(result.status.unmapped_expected_speakers@) == unmapped
            &&& result.failed is None
            &&& !result.false_new
            &&& !result.missed_real
        },
{
    if original.len() == 0 {
        return SpeakerAcceptanceEvaluation {
            status: SpeakerAcceptanceMeetingStatus {
                scorable: false,
                reason: Some("no_expected_speakers"),
                mapped_expected_speakers: 0,
                total_expected_speakers: 0,
                unmapped_expected_speakers: Vec::new(),
            },
            failed: None,
            false_new: false,
            missed_real: false,
        };
    }
    match map_expected_speakers(original, mapping) {
        Ok(expected) => {
            let ghost ex = mapped_values(views(original@), pair_views(mapping@)).to_set();
            let false_new = any_not_in(predicted, &expected);
            let missed_real = any_not_in(&expected, predicted);
            proof {
                crate::database::key_remap::lemma_sorted_no_duplicates(views(expected@));
                views(expected@).unique_seq_to_set();
                if missed_real {
                    let i = choose|i: int| 0 <= i < expected@.len() && !views(predicted@).contains(#[trigger] views(expected@)[i]);
                    assert(views(expected@).to_set().contains(views(expected@)[i]));
                }
                if has_missed_real(ex, views(predicted@)) {
                    let e = choose|e: Seq<char>| ex.contains(e) && !views(predicted@).contains(e);
                    assert(views(expected@).to_set().contains(e));
                    let i = choose|i: int| 0 <= i < views(expected@).len() && views(expected@)[i] == e;
                    assert(!views(predicted@).contains(views(expected@)[i]));
                }
                if has_false_new(ex, views(predicted@)) {
                    let i = choose|i: int| 0 <= i < views(predicted@).len() && !ex.contains(#[trigger] views(predicted@)[i]);
                    assert(!views(expected@).contains(views(predicted@)[i]));
                }
                if false_new {
                    let i = choose|i: int| 0 <= i < predicted@.len() && !views(expected@).contains(#[trigger] views(predicted@)[i]);
                    if ex.contains(views(predicted@)[i]) {
                        assert(views(expected@).to_set().contains(views(predicted@)[i]));
                    }
                }
            }
            let total = original.len();
            let mapped = expected.len();
            SpeakerAcceptanceEvaluation {
                status: SpeakerAcceptanceMeetingStatus {
                    scorable: true,
                    reason: None,
                    mapped_expected_speakers: mapped,
                    total_expected_speakers: total,
                    unmapped_expected_speakers: Vec::new(),
                },
                failed: Some(false_new || missed_real),
                false_new,
                missed_real,
            }
        },
        Err(unmapped) => {
            proof {
                lemma_unmapped_len(views(original@), pair_views(mapping@));
            }
            let total = original.len();
            let mapped = total - unmapped.len();
            SpeakerAcceptanceEvaluation {
                status: SpeakerAcceptanceMeetingStatus {
                    scorable: false,
                    reason: Some("partial_speaker_alignment"),
                    mapped_expected_speakers: mapped,
                    total_expected_speakers: total,
                    unmapped_expected_speakers: unmapped,
                },
                failed: None,
                false_new: false,
                missed_real: false,
            }
        },
    }
}

proof fn lemma_unmapped_len(original: Seq<Seq<char>>, m: Seq<(Seq<char>, Seq<char>)>)
    ensures
        unmapped_keys(original, m).len() <= original.len(),
    decreases original.len(),
{
    if original.len() > 0 {
        lemma_unmapped_len(original.drop_last(), m);
    }
}

} // verus!
