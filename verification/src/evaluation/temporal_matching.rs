//! One-to-one temporal matching of predictions to ground-truth rows.
//!
//! Candidate pairs arrive ranked best first (the ranking compares temporal
//! scores and is decided by the caller). Each row is decided at its first
//! ranked pair: it takes that pair's prediction unless an earlier match took
//! it, and otherwise stays unmatched; a prediction is matched at most once.
use vstd::prelude::*;

verus! {

/// The matching state after the first `k` ranked pairs: the rows already
/// decided, each row's prediction, and the predictions taken.
pub open spec fn greedy_state(
    n_rows: nat,
    n_predictions: nat,
    edges: Seq<(usize, usize)>,
    k: int,
) -> (Seq<bool>, Seq<Option<usize>>, Seq<bool>)
    decreases k,
{
    if k <= 0 {
        (Seq::new(n_rows, |i: int| false), Seq::new(n_rows, |i: int| None), Seq::new(n_predictions, |i: int| false))
    } else {
        let (seen, m, used) = greedy_state(n_rows, n_predictions, edges, k - 1);
        let (r, p) = edges[k - 1];
        if seen[r as int] {
            (seen, m, used)
        } else if used[p as int] {
            (seen.update(r as int, true), m, used)
        } else {
            (seen.update(r as int, true), m.update(r as int, Some(p)), used.update(p as int, true))
        }
    }
}

/// Every ranked pair names a row and a prediction that exist.
pub open spec fn edges_in_range(n_rows: nat, n_predictions: nat, edges: Seq<(usize, usize)>) -> bool {
    forall|e: int| 0 <= e < edges.len() ==> (#[trigger] edges[e]).0 < n_rows && edges[e].1 < n_predictions
}

/// What the state keeps: lengths, a prediction is taken exactly when some
/// row holds it, a row holds one only once decided, and every match is a
/// ranked pair.
proof fn lemma_greedy_state(n_rows: nat, n_predictions: nat, edges: Seq<(usize, usize)>, k: int)
    requires
        0 <= k <= edges.len(),
        edges_in_range(n_rows, n_predictions, edges),
    ensures
        ({
            let (seen, m, used) = greedy_state(n_rows, n_predictions, edges, k);
            &&& seen.len() == n_rows && m.len() == n_rows && used.len() == n_predictions
            &&& forall|r: int| 0 <= r < n_rows && (#[trigger] m[r]) is Some ==> seen[r] && (m[r]->0 as int) < n_predictions
                && used[m[r]->0 as int] && exists|e: int| 0 <= e < k && #[trigger] edges[e] == (r as usize, m[r]->0)
            &&& forall|r1: int, r2: int|
                0 <= r1 < n_rows && 0 <= r2 < n_rows && r1 != r2 && (#[trigger] m[r1]) is Some && (#[trigger] m[r2]) is Some
                    ==> m[r1]->0 != m[r2]->0
        }),
    decreases k,
{
    if k > 0 {
        lemma_greedy_state(n_rows, n_predictions, edges, k - 1);
        let (seen, m, used) = greedy_state(n_rows, n_predictions, edges, k - 1);
        let (r, p) = edges[k - 1];
        assert(edges[k - 1].0 < n_rows && edges[k - 1].1 < n_predictions);
        let (seen2, m2, used2) = greedy_state(n_rows, n_predictions, edges, k);
        assert forall|x: int| 0 <= x < n_rows && (#[trigger] m2[x]) is Some implies seen2[x] && (m2[x]->0 as int)
            < n_predictions && used2[m2[x]->0 as int] && exists|e: int| 0 <= e < k && #[trigger] edges[e] == (
            x as usize,
            m2[x]->0,
        ) by {
            if !seen[r as int] && !used[p as int] && x == r as int {
                assert(edges[k - 1] == (x as usize, m2[x]->0));
            } else {
                assert(m2[x] == m[x]);
                let e = choose|e: int| 0 <= e < k - 1 && #[trigger] edges[e] == (x as usize, m[x]->0);
                assert(edges[e] == (x as usize, m2[x]->0));
            }
        }
    }
}

/// Matches rows to predictions through the ranked pairs `edges`, best first:
/// per row, `Some` of its prediction or `None`.
pub fn greedy_temporal_match(n_rows: usize, n_predictions: usize, edges: &[(usize, usize)]) -> (m: Vec<Option<usize>>)
    requires
        edges_in_range(n_rows as nat, n_predictions as nat, edges@),
    ensures
        m@ == greedy_state(n_rows as nat, n_predictions as nat, edges@, edges@.len() as int).1,
        m@.len() == n_rows,
        forall|r: int| 0 <= r < n_rows && (#[trigger] m@[r]) is Some ==> exists|e: int|
            0 <= e < edges@.len() && #[trigger] edges@[e] == (r as usize, m@[r]->0),
        forall|r1: int, r2: int|
            0 <= r1 < n_rows && 0 <= r2 < n_rows && r1 != r2 && (#[trigger] m@[r1]) is Some && (#[trigger] m@[r2]) is Some
                ==> m@[r1]->0 != m@[r2]->0,
{
    let ghost nr = n_rows as nat;
    let ghost np = n_predictions as nat;
    let mut seen: Vec<bool> = Vec::new();
    let mut m: Vec<Option<usize>> = Vec::new();
    let mut i: usize = 0;
    while i < n_rows
        invariant
            i <= n_rows,
            seen@ == Seq::new(i as nat, |x: int| false),
            m@ == Seq::new(i as nat, |x: int| None::<usize>),
        decreases n_rows - i,
    {
        seen.push(false);
        m.push(None);
        i += 1;
        assert(seen@ =~= Seq::new(i as nat, |x: int| false));
        assert(m@ =~= Seq::new(i as nat, |x: int| None::<usize>));
    }
    let mut used: Vec<bool> = Vec::new();
    let mut j: usize = 0;
    while j < n_predictions
        invariant
            j <= n_predictions,
            used@ == Seq::new(j as nat, |x: int| false),
        decreases n_predictions - j,
    {
        used.push(false);
        j += 1;
        assert(used@ =~= Seq::new(j as nat, |x: int| false));
    }
    let mut k: usize = 0;
    while k < edges.len()
        invariant
            k <= edges@.len(),
            edges_in_range(nr, np, edges@),
            nr == n_rows,
            np == n_predictions,
            (seen@, m@, used@) == greedy_state(nr, np, edges@, k as int),
        decreases edges@.len() - k,
    {
        proof {
            lemma_greedy_state(nr, np, edges@, k as int);
        }
        let (r, p) = edges[k];
        assert(edges@[k as int].0 < nr && edges@[k as int].1 < np);
        if !seen[r] {
            seen.set(r, true);
            if !used[p] {
                m.set(r, Some(p));
                used.set(p, true);
            }
        }
        k += 1;
    }
    proof {
        lemma_greedy_state(nr, np, edges@, edges@.len() as int);
    }
    m
}

/// Row `r` appears in one of the first `k` ranked pairs.
pub open spec fn row_ranked(edges: Seq<(usize, usize)>, r: int, k: int) -> bool {
    exists|e: int| 0 <= e < k && (#[trigger] edges[e]).0 as int == r
}

/// Prediction `p` is held by some row of `m`.
pub open spec fn held(m: Seq<Option<usize>>, p: int) -> bool {
    exists|r: int| 0 <= r < m.len() && #[trigger] m[r] == Some(p as usize)
}

proof fn lemma_state_meaning(n_rows: nat, n_predictions: nat, edges: Seq<(usize, usize)>, k: int)
    requires
        0 <= k <= edges.len(),
        edges_in_range(n_rows, n_predictions, edges),
        n_predictions <= usize::MAX,
    ensures
        ({
            let (seen, m, used) = greedy_state(n_rows, n_predictions, edges, k);
            &&& forall|r: int| 0 <= r < n_rows ==> (#[trigger] seen[r] <==> row_ranked(edges, r, k))
            &&& forall|p: int| 0 <= p < n_predictions ==> (#[trigger] used[p] <==> held(m, p))
            &&& forall|r: int| 0 <= r < n_rows && !row_ranked(edges, r, k) ==> #[trigger] m[r] is None
        }),
    decreases k,
{
    lemma_greedy_state(n_rows, n_predictions, edges, k);
    if k > 0 {
        lemma_state_meaning(n_rows, n_predictions, edges, k - 1);
        lemma_greedy_state(n_rows, n_predictions, edges, k - 1);
        let (seen, m, used) = greedy_state(n_rows, n_predictions, edges, k - 1);
        let (seen2, m2, used2) = greedy_state(n_rows, n_predictions, edges, k);
        let (r0, p0) = edges[k - 1];
        assert(edges[k - 1].0 < n_rows && edges[k - 1].1 < n_predictions);
        assert forall|r: int| 0 <= r < n_rows implies (#[trigger] seen2[r] <==> row_ranked(edges, r, k)) by {
            if row_ranked(edges, r, k - 1) {
                let e = choose|e: int| 0 <= e < k - 1 && (#[trigger] edges[e]).0 as int == r;
                assert(edges[e].0 as int == r);
            }
            if row_ranked(edges, r, k) && !row_ranked(edges, r, k - 1) {
                let e = choose|e: int| 0 <= e < k && (#[trigger] edges[e]).0 as int == r;
                assert(e == k - 1);
            }
            if r == r0 as int {
                assert(edges[k - 1].0 as int == r);
            }
        }
        assert forall|p: int| 0 <= p < n_predictions implies (#[trigger] used2[p] <==> held(m2, p)) by {
            if held(m, p) {
                let r = choose|r: int| 0 <= r < m.len() && #[trigger] m[r] == Some(p as usize);
                assert(m2[r] == m[r]);
            }
            if held(m2, p) {
                let r = choose|r: int| 0 <= r < m2.len() && #[trigger] m2[r] == Some(p as usize);
                if m2[r] != m[r] {
                    assert(!seen[r0 as int] && !used[p0 as int]);
                    assert(r == r0 as int);
                    assert(m2[r] == Some(p0));
                    assert(p == p0 as int);
                } else {
                    assert(held(m, p));
                }
            }
            if !seen[r0 as int] && !used[p0 as int] && p == p0 as int {
                assert(m2[r0 as int] == Some(p0));
            }
        }
        assert forall|r: int| 0 <= r < n_rows && !row_ranked(edges, r, k) implies #[trigger] m2[r] is None by {
            assert(!row_ranked(edges, r, k - 1));
            if r == r0 as int {
                assert(edges[k - 1].0 as int == r);
            }
        }
    }
}

/// Each ranked pair decides its row if the row appears in no earlier pair:
/// the row takes the pair's prediction unless a row already holds it, and
/// stays unmatched otherwise. A pair whose row was decided before changes
/// nothing: in particular it never takes its prediction away from a later
/// row.
pub proof fn law_rows_decide_at_their_first_ranked_pair(
    n_rows: nat,
    n_predictions: nat,
    edges: Seq<(usize, usize)>,
    k: int,
)
    requires
        0 < k <= edges.len(),
        edges_in_range(n_rows, n_predictions, edges),
        n_predictions <= usize::MAX,
    ensures
        ({
            let m = greedy_state(n_rows, n_predictions, edges, k - 1).1;
            let m2 = greedy_state(n_rows, n_predictions, edges, k).1;
            let r = edges[k - 1].0 as int;
            let p = edges[k - 1].1 as int;
            &&& row_ranked(edges, r, k - 1) ==> m2 == m
            &&& !row_ranked(edges, r, k - 1) ==> m[r] is None && m2 == m.update(
                r,
                if held(m, p) {
                    None
                } else {
                    Some(p as usize)
                },
            )
        }),
{
    lemma_state_meaning(n_rows, n_predictions, edges, k - 1);
    lemma_greedy_state(n_rows, n_predictions, edges, k - 1);
    let (seen, m, used) = greedy_state(n_rows, n_predictions, edges, k - 1);
    assert(edges[k - 1].0 < n_rows && edges[k - 1].1 < n_predictions);
    let r = edges[k - 1].0 as int;
    if !row_ranked(edges, r, k - 1) {
        assert(m.update(r, None) =~= m);
    }
}

/// A prediction is taken only by the row matched to it: after any number of
/// ranked pairs, the predictions held are exactly those some row holds, and
/// every row without a ranked pair is unmatched.
pub proof fn law_taken_predictions_are_held(n_rows: nat, n_predictions: nat, edges: Seq<(usize, usize)>)
    requires
        edges_in_range(n_rows, n_predictions, edges),
        n_predictions <= usize::MAX,
    ensures
        ({
            let (seen, m, used) = greedy_state(n_rows, n_predictions, edges, edges.len() as int);
            &&& forall|p: int| 0 <= p < n_predictions ==> (#[trigger] used[p] <==> held(m, p))
            &&& forall|r: int| 0 <= r < n_rows && !row_ranked(edges, r, edges.len() as int) ==> #[trigger] m[r] is None
        }),
{
    lemma_state_meaning(n_rows, n_predictions, edges, edges.len() as int);
}

} // verus!
