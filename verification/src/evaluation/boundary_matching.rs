//! Matching predicted utterance boundaries to reference boundaries.
//!
//! Each reference boundary, in order, takes the closest predicted boundary
//! not taken yet (within the collar, where there is one); among equally
//! close ones the earliest in time, and among equal ones the first listed.
//! A predicted boundary is taken at most once, so duplicates are matched
//! one by one, never merged.
use vstd::prelude::*;
use crate::evaluation::utterance_ground_truth::{GtUtterance, ScenarioBucket};

verus! {

/// How far predicted boundary `actual` lies from `expected`.
pub open spec fn gap(actual: i64, expected: i64) -> int {
    if actual >= expected {
        actual - expected
    } else {
        expected - actual
    }
}

/// Predicted boundary `i` may match `expected`: not taken, and within the
/// collar where there is one.
pub open spec fn eligible(predicted: Seq<i64>, used: Seq<bool>, expected: i64, collar: Option<i64>, i: int) -> bool {
    &&& !used[i]
    &&& match collar {
        Some(c) => gap(predicted[i], expected) <= c,
        None => true,
    }
}

/// Predicted boundary `i` is strictly closer to `expected` than `j`, or as
/// close and earlier.
pub open spec fn closer(predicted: Seq<i64>, expected: i64, i: int, j: int) -> bool {
    let gi = gap(predicted[i], expected);
    let gj = gap(predicted[j], expected);
    gi < gj || (gi == gj && predicted[i] < predicted[j])
}

/// The first of the closest eligible boundaries among `predicted[..k]`.
pub open spec fn closest(predicted: Seq<i64>, used: Seq<bool>, expected: i64, collar: Option<i64>, k: int) -> Option<int>
    decreases k,
{
    if k <= 0 {
        None
    } else {
        let p = closest(predicted, used, expected, collar, k - 1);
        if eligible(predicted, used, expected, collar, k - 1) {
            match p {
                None => Some(k - 1),
                Some(b) => if closer(predicted, expected, k - 1, b) {
                    Some(k - 1)
                } else {
                    p
                },
            }
        } else {
            p
        }
    }
}

/// The predicted boundaries taken and the errors recorded after the first
/// `n` reference boundaries.
pub open spec fn matching(reference: Seq<i64>, predicted: Seq<i64>, collar: Option<i64>, n: int) -> (Seq<bool>, Seq<int>)
    decreases n,
{
    if n <= 0 {
        (Seq::new(predicted.len(), |i: int| false), Seq::empty())
    } else {
        let (used, errors) = matching(reference, predicted, collar, n - 1);
        match closest(predicted, used, reference[n - 1], collar, predicted.len() as int) {
            Some(i) => (used.update(i, true), errors.push(gap(predicted[i], reference[n - 1]))),
            None => (used, errors),
        }
    }
}

/// Every distance between a reference and a predicted boundary fits an `i64`.
pub open spec fn distances_fit(reference: Seq<i64>, predicted: Seq<i64>) -> bool {
    forall|a: int, b: int| 0 <= a < reference.len() && 0 <= b < predicted.len() ==> gap(#[trigger] predicted[b], #[trigger] reference[a]) <= i64::MAX
}

/// The number of taken flags among `used[..k]`.
pub open spec fn taken(used: Seq<bool>, k: int) -> int
    decreases k,
{
    if k <= 0 {
        0
    } else {
        taken(used, k - 1) + if used[k - 1] {
            1int
        } else {
            0
        }
    }
}

proof fn lemma_closest(predicted: Seq<i64>, used: Seq<bool>, expected: i64, collar: Option<i64>, k: int)
    requires
        0 <= k <= predicted.len(),
    ensures
        match closest(predicted, used, expected, collar, k) {
            Some(i) => 0 <= i < k && eligible(predicted, used, expected, collar, i),
            None => true,
        },
    decreases k,
{
    if k > 0 {
        lemma_closest(predicted, used, expected, collar, k - 1);
    }
}

proof fn lemma_taken_update(used: Seq<bool>, i: int, k: int)
    requires
        0 <= i < used.len(),
        0 <= k <= used.len(),
        !used[i],
    ensures
        taken(used.update(i, true), k) == taken(used, k) + if i < k {
            1int
        } else {
            0
        },
    decreases k,
{
    if k > 0 {
        lemma_taken_update(used, i, k - 1);
    }
}

proof fn lemma_taken_bound(used: Seq<bool>, k: int)
    requires
        0 <= k,
    ensures
        0 <= taken(used, k) <= k,
    decreases k,
{
    if k > 0 {
        lemma_taken_bound(used, k - 1);
    }
}

proof fn lemma_none_taken(n: nat, k: int)
    requires
        0 <= k <= n,
    ensures
        taken(Seq::new(n, |i: int| false), k) == 0,
    decreases k,
{
    if k > 0 {
        lemma_none_taken(n, k - 1);
    }
}

/// What the matching keeps after every step: one flag per predicted
/// boundary, one error per taken boundary, none beyond the collar.
proof fn lemma_matching(reference: Seq<i64>, predicted: Seq<i64>, collar: Option<i64>, n: int)
    requires
        0 <= n <= reference.len(),
    ensures
        ({
            let (used, errors) = matching(reference, predicted, collar, n);
            &&& used.len() == predicted.len()
            &&& errors.len() == taken(used, predicted.len() as int)
            &&& errors.len() <= n
            &&& forall|e: int| 0 <= e < errors.len() ==> 0 <= #[trigger] errors[e] && match collar {
                Some(c) => errors[e] <= c,
                None => true,
            }
        }),
    decreases n,
{
    if n == 0 {
        lemma_none_taken(predicted.len(), predicted.len() as int);
    } else {
        lemma_matching(reference, predicted, collar, n - 1);
        let (used, errors) = matching(reference, predicted, collar, n - 1);
        lemma_closest(predicted, used, reference[n - 1], collar, predicted.len() as int);
        match closest(predicted, used, reference[n - 1], collar, predicted.len() as int) {
            Some(i) => {
                lemma_taken_update(used, i, predicted.len() as int);
            },
            None => {},
        }
    }
}

/// Matches each reference boundary, in order, to the closest predicted
/// boundary not taken yet (within `collar_ms` where it is given; on equal
/// distance the earlier boundary, then the first listed), and returns the
/// distance of each match in ms, in reference order. Boundaries left
/// unmatched on either side add nothing.
pub fn match_boundary_errors(reference: &[i64], predicted: &[i64], collar_ms: Option<i64>) -> (result: Vec<i64>)
    requires
        distances_fit(reference@, predicted@),
    ensures
        result@.map_values(|e: i64| e as int) == matching(reference@, predicted@, collar_ms, reference@.len() as int).1,
        result@.len() <= reference@.len(),
        result@.len() <= predicted@.len(),
        forall|e: int| 0 <= e < result@.len() ==> 0 <= #[trigger] result@[e] && match collar_ms {
            Some(c) => result@[e] <= c,
            None => true,
        },
{
    let mut used: Vec<bool> = Vec::new();
    let mut k: usize = 0;
    while k < predicted.len()
        invariant
            k <= predicted@.len(),
            used@ == Seq::new(k as nat, |i: int| false),
        decreases predicted@.len() - k,
    {
        used.push(false);
        k += 1;
    }
    let mut errors: Vec<i64> = Vec::new();
    proof {
        assert(used@ =~= matching(reference@, predicted@, collar_ms, 0).0);
        assert(errors@.map_values(|e: i64| e as int) =~= matching(reference@, predicted@, collar_ms, 0).1);
    }
    let mut n: usize = 0;
    while n < reference.len()
        invariant
            n <= reference@.len(),
            distances_fit(reference@, predicted@),
            used@ == matching(reference@, predicted@, collar_ms, n as int).0,
            errors@.map_values(|e: i64| e as int) == matching(reference@, predicted@, collar_ms, n as int).1,
        decreases reference@.len() - n,
    {
        let expected = reference[n];
        let ghost u = used@;
        proof {
            lemma_matching(reference@, predicted@, collar_ms, n as int);
        }
        let mut best: Option<usize> = None;
        let mut best_error: i64 = 0;
        let mut i: usize = 0;
        while i < predicted.len()
            invariant
                n < reference@.len(),
                expected == reference@[n as int],
                used@ == u,
                u.len() == predicted@.len(),
                i <= predicted@.len(),
                distances_fit(reference@, predicted@),
                match best {
                    Some(b) => b < i && closest(predicted@, u, expected, collar_ms, i as int) == Some(b as int) && best_error == gap(
                        predicted@[b as int],
                        expected,
                    ),
                    None => closest(predicted@, u, expected, collar_ms, i as int) is None,
                },
            decreases predicted@.len() - i,
        {
            if !used[i] {
                let actual = predicted[i];
                assert(gap(predicted@[i as int], reference@[n as int]) <= i64::MAX);
                let error: i64 = if actual >= expected {
                    actual - expected
                } else {
                    expected - actual
                };
                let within = match collar_ms {
                    Some(c) => error <= c,
                    None => true,
                };
                if within {
                    match best {
                        None => {
                            best = Some(i);
                            best_error = error;
                        },
                        Some(b) => {
                            if error < best_error || (error == best_error && actual < predicted[b]) {
                                best = Some(i);
                                best_error = error;
                            }
                        },
                    }
                }
            }
            i += 1;
        }
        match best {
            Some(b) => {
                let ghost before = errors@;
                used.set(b, true);
                errors.push(best_error);
                assert(errors@.map_values(|e: i64| e as int) =~= before.map_values(|e: i64| e as int).push(best_error as int));
            },
            None => {},
        }
        n += 1;
    }
    proof {
        lemma_matching(reference@, predicted@, collar_ms, reference@.len() as int);
        lemma_taken_bound(used@, predicted@.len() as int);
        let m = matching(reference@, predicted@, collar_ms, reference@.len() as int).1;
        assert forall|e: int| 0 <= e < errors@.len() implies 0 <= #[trigger] errors@[e] && match collar_ms {
            Some(c) => errors@[e] <= c,
            None => true,
        } by {
            assert(m[e] == errors@[e] as int);
        }
    }
    errors
}

/// A boundary counts towards a scenario: always when no bucket is asked
/// for, and otherwise when it falls within one of the selected utterances,
/// both ends included.
pub fn boundary_in_selected(timestamp_ms: i64, selected: &[&GtUtterance], bucket: Option<ScenarioBucket>) -> (result: bool)
    ensures
        result == (bucket is None || exists|i: int|
            0 <= i < selected@.len() && (#[trigger] selected@[i]).start_ms <= timestamp_ms <= selected@[i].end_ms),
{
    if bucket.is_none() {
        return true;
    }
    let mut i: usize = 0;
    while i < selected.len()
        invariant
            i <= selected@.len(),
            forall|k: int| 0 <= k < i ==> !((#[trigger] selected@[k]).start_ms <= timestamp_ms <= selected@[k].end_ms),
        decreases selected@.len() - i,
    {
        if timestamp_ms >= selected[i].start_ms && timestamp_ms <= selected[i].end_ms {
            return true;
        }
        i += 1;
    }
    false
}

/// Predicted boundary `j` may still match `expected`: not taken, and within
/// the collar where there is one.
pub open spec fn free_within(predicted: Seq<i64>, used: Seq<bool>, expected: i64, collar: Option<i64>, j: int) -> bool {
    &&& 0 <= j < predicted.len()
    &&& !used[j]
    &&& match collar {
        Some(c) => gap(predicted[j], expected) <= c,
        None => true,
    }
}

proof fn lemma_closest_is_nearest(predicted: Seq<i64>, used: Seq<bool>, expected: i64, collar: Option<i64>, k: int)
    requires
        0 <= k <= predicted.len(),
    ensures
        match closest(predicted, used, expected, collar, k) {
            Some(i) => 0 <= i < k && free_within(predicted, used, expected, collar, i) && forall|j: int|
                0 <= j < k && j != i && free_within(predicted, used, expected, collar, j) ==> gap(predicted[j], expected)
                    > gap(predicted[i], expected) || (gap(predicted[j], expected) == gap(predicted[i], expected) && (
                predicted[j] > predicted[i] || (predicted[j] == predicted[i] && j > i))),
            None => forall|j: int| 0 <= j < k ==> !free_within(predicted, used, expected, collar, j),
        },
    decreases k,
{
    if k > 0 {
        lemma_closest_is_nearest(predicted, used, expected, collar, k - 1);
    }
}

/// Each reference boundary, in order, takes the nearest predicted boundary
/// that is still free and within the collar, and records its distance; on
/// equal distance the earlier boundary, then the first listed. Where no
/// predicted boundary is free and within the collar, nothing is taken or
/// recorded.
pub proof fn law_each_reference_takes_the_nearest_free_prediction(
    reference: Seq<i64>,
    predicted: Seq<i64>,
    collar: Option<i64>,
    n: int,
)
    requires
        0 < n <= reference.len(),
    ensures
        ({
            let (used, errors) = matching(reference, predicted, collar, n - 1);
            let (used2, errors2) = matching(reference, predicted, collar, n);
            let r = reference[n - 1];
            ||| ((forall|j: int| 0 <= j < predicted.len() ==> !free_within(predicted, used, r, collar, j)) && used2
                == used && errors2 == errors)
            ||| exists|i: int|
                #![trigger predicted[i]]
                free_within(predicted, used, r, collar, i) && used2 == used.update(i, true) && errors2 == errors.push(
                    gap(predicted[i], r),
                ) && forall|j: int|
                    0 <= j < predicted.len() && j != i && free_within(predicted, used, r, collar, j) ==> gap(
                        predicted[j],
                        r,
                    ) > gap(predicted[i], r) || (gap(predicted[j], r) == gap(predicted[i], r) && (predicted[j]
                        > predicted[i] || (predicted[j] == predicted[i] && j > i)))
        }),
{
    let (used, errors) = matching(reference, predicted, collar, n - 1);
    lemma_closest_is_nearest(predicted, used, reference[n - 1], collar, predicted.len() as int);
    match closest(predicted, used, reference[n - 1], collar, predicted.len() as int) {
        Some(i) => {
            assert(predicted[i] == predicted[i]);
        },
        None => {},
    }
}

} // verus!
