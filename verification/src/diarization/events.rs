//! Identity of short timeline events that do not align with ASR rows: stable
//! ids from quantized boundaries, and one-to-one reconciliation of re-inferred
//! events with the events of an earlier pass.

use vstd::prelude::*;
use crate::diarization::types::SegmentKind;
use crate::diarization::short_turn::ShortTurnCandidateSource;
use crate::text::{char_len, char_slice, hex_lower, owned, str_eq, to_hex_lower};
use crate::hashing::{i64_le_bytes, le_bytes, sha256, sha256_spec};
use crate::database::key_remap::{grid, lemma_grid};
use vstd::utf8::encode_utf8;
use vstd::string::StringSliceAdditionalSpecFns;

verus! {

/// The part of a short-turn event that identity reconciliation reads and writes.
#[derive(Debug, Clone)]
pub struct EventIdentity {
    pub id: String,
    pub meeting_id: String,
    pub start_ms: i64,
    pub end_ms: i64,
    pub kind: SegmentKind,
    pub transcript_id: Option<String>,
}

pub open spec fn speech_like(k: SegmentKind) -> bool {
    k == SegmentKind::Speech || k == SegmentKind::Backchannel || k == SegmentKind::Unknown
}

/// Two kinds may name the same physical event: equal, or both speech-like.
pub open spec fn compatible(a: SegmentKind, b: SegmentKind) -> bool {
    a == b || (speech_like(a) && speech_like(b))
}

pub fn compatible_kind(left: &SegmentKind, right: &SegmentKind) -> (result: bool)
    ensures
        result == compatible(*left, *right),
{
    let l = *left;
    let r = *right;
    l == r || ((l == SegmentKind::Speech || l == SegmentKind::Backchannel || l
        == SegmentKind::Unknown) && (r == SegmentKind::Speech || r == SegmentKind::Backchannel
        || r == SegmentKind::Unknown))
}

pub open spec fn min_int(a: int, b: int) -> int {
    if a <= b {
        a
    } else {
        b
    }
}

pub open spec fn max_int(a: int, b: int) -> int {
    if a >= b {
        a
    } else {
        b
    }
}

/// Length of the intersection of two intervals, clamped to `0..=i64::MAX`.
pub open spec fn overlap_spec(a_start: int, a_end: int, b_start: int, b_end: int) -> int {
    let d = min_int(a_end, b_end) - max_int(a_start, b_start);
    if d <= 0 {
        0
    } else if d > i64::MAX {
        i64::MAX as int
    } else {
        d
    }
}

/// `a_end.min(b_end).saturating_sub(a_start.max(b_start)).max(0)`.
pub fn overlap_ms(a_start: i64, a_end: i64, b_start: i64, b_end: i64) -> (result: i64)
    ensures
        result == overlap_spec(a_start as int, a_end as int, b_start as int, b_end as int),
{
    let hi: i64 = if a_end <= b_end {
        a_end
    } else {
        b_end
    };
    let lo: i64 = if a_start >= b_start {
        a_start
    } else {
        b_start
    };
    let d: i128 = hi as i128 - lo as i128;
    if d <= 0 {
        0
    } else if d > i64::MAX as i128 {
        i64::MAX
    } else {
        d as i64
    }
}

/// Integer division rounding toward zero, as Rust's `/` does.
pub open spec fn trunc_div(a: int, b: int) -> int {
    if a >= 0 {
        a / b
    } else {
        -((-a) / b)
    }
}

/// Rounds a boundary to a multiple of 50 ms (`((value + 25) / 50) * 50`),
/// absorbing backend jitter.
pub open spec fn quantize_spec(value: int) -> int {
    trunc_div(value + 25, 50) * 50
}

pub fn quantize_ms(value: i64) -> (result: i64)
    requires
        value <= i64::MAX - 25,
    ensures
        result == quantize_spec(value as int),
{
    ((value + 25) / 50) * 50
}

pub open spec fn center(e: EventIdentity) -> int {
    e.start_ms + trunc_div(e.end_ms - e.start_ms, 2)
}

pub open spec fn center_distance(a: EventIdentity, b: EventIdentity) -> int {
    let d = center(a) - center(b);
    if d >= 0 {
        d
    } else {
        -d
    }
}

pub open spec fn pair_overlap(a: EventIdentity, b: EventIdentity) -> int {
    overlap_spec(a.start_ms as int, a.end_ms as int, b.start_ms as int, b.end_ms as int)
}

pub open spec fn shorter(a: EventIdentity, b: EventIdentity) -> int {
    max_int(1, min_int(a.end_ms - a.start_ms, b.end_ms - b.start_ms))
}

pub open spec fn union_span(a: EventIdentity, b: EventIdentity) -> int {
    max_int(a.end_ms as int, b.end_ms as int) - min_int(a.start_ms as int, b.start_ms as int)
}

/// Intersection over union in millionths.
pub open spec fn iou_millionths(a: EventIdentity, b: EventIdentity) -> int {
    pair_overlap(a, b) * 1_000_000 / max_int(union_span(a, b), 1)
}

/// 1 when both events cite the same transcript row.
pub open spec fn transcript_bonus(a: EventIdentity, b: EventIdentity) -> int {
    match (a.transcript_id, b.transcript_id) {
        (Some(x), Some(y)) => if x@ == y@ {
            1
        } else {
            0
        },
        _ => 0,
    }
}

/// A re-inferred event may inherit an earlier event's id: same meeting,
/// compatible kind, overlapping at least half of the shorter one, and centers
/// at most 200 ms apart.
pub open spec fn may_inherit(new: EventIdentity, old: EventIdentity) -> bool {
    &&& new.meeting_id@ == old.meeting_id@
    &&& compatible(new.kind, old.kind)
    &&& pair_overlap(new, old) * 2 >= shorter(new, old)
    &&& center_distance(new, old) <= 200
}

/// The value fits an `i64`.
pub open spec fn fits_i64(x: int) -> bool {
    i64::MIN <= x <= i64::MAX
}

/// Weighing `new` against `old` overflows nothing. For events of one
/// meeting with compatible kinds, both lengths and the distance of the
/// centers fit, so does twice the overlap, and for a pairing that passes
/// the overlap and center tests so do the union of the spans and the
/// overlap in millionths. Other pairs are never weighed.
pub open spec fn arithmetic_fits(new: EventIdentity, old: EventIdentity) -> bool {
    (new.meeting_id@ == old.meeting_id@ && compatible(new.kind, old.kind)) ==> {
        &&& fits_i64(new.end_ms - new.start_ms)
        &&& fits_i64(old.end_ms - old.start_ms)
        &&& -i64::MAX <= center(new) - center(old) <= i64::MAX
        &&& pair_overlap(new, old) * 2 <= i64::MAX
        &&& (pair_overlap(new, old) * 2 >= shorter(new, old) && center_distance(new, old) <= 200) ==> (
        union_span(new, old) <= i64::MAX && pair_overlap(new, old) * 1_000_000 <= i64::MAX)
    }
}

/// Every pairing of a re-inferred event with an earlier one can be weighed.
pub open spec fn all_pairs_fit(inferred: Seq<EventIdentity>, previous: Seq<EventIdentity>) -> bool {
    forall|n: int, o: int|
        0 <= n < inferred.len() && 0 <= o < previous.len() ==> #[trigger] arithmetic_fits(inferred[n], previous[o])
}

/// A candidate pairing: preference key (IoU, -center distance, transcript
/// bonus), then the indices of the new and the old event.
pub type Edge = (i64, i64, i64, usize, usize);

pub open spec fn edge_from(a: EventIdentity, b: EventIdentity, n: int, o: int) -> Edge {
    (
        iou_millionths(a, b) as i64,
        (-center_distance(a, b)) as i64,
        transcript_bonus(a, b) as i64,
        n as usize,
        o as usize,
    )
}

pub open spec fn edge_of(inferred: Seq<EventIdentity>, previous: Seq<EventIdentity>, n: int, o: int) -> Edge {
    edge_from(inferred[n], previous[o], n, o)
}

/// `a` is considered before `b`: larger preference key first, then smaller indices.
pub open spec fn before(a: Edge, b: Edge) -> bool {
    a.0 > b.0 || (a.0 == b.0 && (a.1 > b.1 || (a.1 == b.1 && (a.2 > b.2 || (a.2 == b.2 && (a.3
        < b.3 || (a.3 == b.3 && a.4 < b.4)))))))
}

fn edge_before(a: &Edge, b: &Edge) -> (result: bool)
    ensures
        result == before(*a, *b),
{
    a.0 > b.0 || (a.0 == b.0 && (a.1 > b.1 || (a.1 == b.1 && (a.2 > b.2 || (a.2 == b.2 && (a.3
        < b.3 || (a.3 == b.3 && a.4 < b.4)))))))
}

/// `m[n] == Some(o)` gives each re-inferred event `n` the earlier event `o`
/// whose id it inherits. The matching is one-to-one, uses only admissible
/// pairs, and is the greedy one: every admissible pair left out has an end
/// already taken by a pair considered before it.
pub open spec fn is_greedy_matching(
    inferred: Seq<EventIdentity>,
    previous: Seq<EventIdentity>,
    m: Seq<Option<usize>>,
) -> bool {
    &&& m.len() == inferred.len()
    &&& forall|n: int|
        0 <= n < m.len() && #[trigger] m[n] is Some ==> (m[n]->0 as int) < previous.len()
            && may_inherit(inferred[n], previous[m[n]->0 as int])
    &&& forall|n1: int, n2: int|
        0 <= n1 < m.len() && 0 <= n2 < m.len() && n1 != n2 && #[trigger] m[n1] is Some
            && #[trigger] m[n2] is Some ==> m[n1]->0 != m[n2]->0
    &&& forall|n: int, o: int|
        0 <= n < inferred.len() && 0 <= o < previous.len() && #[trigger] may_inherit(
            inferred[n],
            previous[o],
        ) && m[n] != Some(o as usize) ==> blocked(inferred, previous, m, n, o)
}

/// Pair `(n, o)` lost to an earlier-considered pair sharing one of its ends.
pub open spec fn blocked(
    inferred: Seq<EventIdentity>,
    previous: Seq<EventIdentity>,
    m: Seq<Option<usize>>,
    n: int,
    o: int,
) -> bool {
    (m[n] is Some && before(
        edge_of(inferred, previous, n, m[n]->0 as int),
        edge_of(inferred, previous, n, o),
    )) || exists|n2: int|
        0 <= n2 < m.len() && #[trigger] m[n2] == Some(o as usize) && before(
            edge_of(inferred, previous, n2, o),
            edge_of(inferred, previous, n, o),
        )
}

fn same_transcript(a: &Option<String>, b: &Option<String>) -> (result: bool)
    ensures
        result == match (*a, *b) {
            (Some(x), Some(y)) => x@ == y@,
            _ => false,
        },
{
    match (a, b) {
        (Some(x), Some(y)) => str_eq(x.as_str(), y.as_str()),
        _ => false,
    }
}

/// The preference key of a pairing, or `None` where `new` may not inherit `old`'s id.
fn pair_edge(new: &EventIdentity, old: &EventIdentity, n: usize, o: usize) -> (result: Option<Edge>)
    requires
        arithmetic_fits(*new, *old),
    ensures
        match result {
            Some(e) => may_inherit(*new, *old) && e == edge_from(*new, *old, n as int, o as int),
            None => !may_inherit(*new, *old),
        },
{
    if !str_eq(new.meeting_id.as_str(), old.meeting_id.as_str()) || !compatible_kind(&new.kind, &old.kind) {
        return None;
    }
    let overlap = overlap_ms(new.start_ms, new.end_ms, old.start_ms, old.end_ms);
    let new_len = new.end_ms - new.start_ms;
    let old_len = old.end_ms - old.start_ms;
    let shortest = if new_len <= old_len {
        new_len
    } else {
        old_len
    };
    let shorter_len = if shortest >= 1 {
        shortest
    } else {
        1
    };
    let new_center = new.start_ms + new_len / 2;
    let old_center = old.start_ms + old_len / 2;
    let distance = if new_center >= old_center {
        new_center - old_center
    } else {
        old_center - new_center
    };
    if overlap * 2 < shorter_len || distance > 200 {
        return None;
    }
    let hi = if new.end_ms >= old.end_ms {
        new.end_ms
    } else {
        old.end_ms
    };
    let lo = if new.start_ms <= old.start_ms {
        new.start_ms
    } else {
        old.start_ms
    };
    let union = hi - lo;
    let denominator = if union >= 1 {
        union
    } else {
        1
    };
    let iou = overlap * 1_000_000 / denominator;
    let bonus: i64 = if same_transcript(&new.transcript_id, &old.transcript_id) {
        1
    } else {
        0
    };
    Some((iou, -distance, bonus, n, o))
}

/// `before` is a strict order.
proof fn lemma_before_order(a: Edge, b: Edge, c: Edge)
    ensures
        !before(a, a),
        before(a, b) ==> !before(b, a),
        before(a, b) && before(b, c) ==> before(a, c),
        (a.3 != b.3 || a.4 != b.4) ==> before(a, b) || before(b, a),
{
}

/// A vector of edges strictly ordered by `before`.
pub open spec fn sorted_edges(v: Seq<Edge>) -> bool {
    forall|i: int, j: int| 0 <= i < j < v.len() ==> before(#[trigger] v[i], #[trigger] v[j])
}

/// Every entry of `v` is an admissible pairing with its exact key.
pub open spec fn edges_valid(inferred: Seq<EventIdentity>, previous: Seq<EventIdentity>, v: Seq<Edge>) -> bool {
    forall|j: int|
        0 <= j < v.len() ==> {
            &&& (#[trigger] v[j]).3 < inferred.len()
            &&& v[j].4 < previous.len()
            &&& may_inherit(inferred[v[j].3 as int], previous[v[j].4 as int])
            &&& v[j] == edge_of(inferred, previous, v[j].3 as int, v[j].4 as int)
        }
}

/// Every admissible pairing of the new event `n` with an old event `o` occurs in `v`.
pub open spec fn edge_listed(inferred: Seq<EventIdentity>, previous: Seq<EventIdentity>, v: Seq<Edge>, n: int, o: int) -> bool {
    exists|j: int| 0 <= j < v.len() && #[trigger] v[j] == edge_of(inferred, previous, n, o)
}

proof fn lemma_insert_edge(
    ii: Seq<EventIdentity>,
    pp: Seq<EventIdentity>,
    old_edges: Seq<Edge>,
    v: Seq<Edge>,
    edge: Edge,
    p: int,
    n: int,
    o: int,
)
    requires
        0 <= p <= old_edges.len(),
        ii.len() <= usize::MAX,
        pp.len() <= usize::MAX,
        v == old_edges.insert(p, edge),
        sorted_edges(old_edges),
        edges_valid(ii, pp, old_edges),
        forall|j: int| 0 <= j < p ==> before(#[trigger] old_edges[j], edge),
        forall|j: int| p <= j < old_edges.len() ==> before(edge, #[trigger] old_edges[j]),
        0 <= n < ii.len(),
        0 <= o < pp.len(),
        may_inherit(ii[n], pp[o]),
        edge == edge_of(ii, pp, n, o),
        forall|j: int| 0 <= j < old_edges.len() ==> (#[trigger] old_edges[j]).3 < n || (old_edges[j].3 == n && old_edges[j].4 < o),
        forall|a: int, b: int|
            ((0 <= a < n && 0 <= b < pp.len()) || (a == n && 0 <= b < o)) && #[trigger] may_inherit(ii[a], pp[b])
                ==> edge_listed(ii, pp, old_edges, a, b),
    ensures
        sorted_edges(v),
        edges_valid(ii, pp, v),
        forall|j: int| 0 <= j < v.len() ==> (#[trigger] v[j]).3 < n || (v[j].3 == n && v[j].4 < o + 1),
        forall|a: int, b: int|
            ((0 <= a < n && 0 <= b < pp.len()) || (a == n && 0 <= b < o + 1)) && #[trigger] may_inherit(ii[a], pp[b])
                ==> edge_listed(ii, pp, v, a, b),
{
    assert forall|j: int| 0 <= j < v.len() implies #[trigger] v[j] == (if j < p { old_edges[j] } else if j == p { edge } else { old_edges[j - 1] }) by {}
    assert forall|j: int| 0 <= j < v.len() implies {
        &&& (#[trigger] v[j]).3 < ii.len()
        &&& v[j].4 < pp.len()
        &&& may_inherit(ii[v[j].3 as int], pp[v[j].4 as int])
        &&& v[j] == edge_of(ii, pp, v[j].3 as int, v[j].4 as int)
    } by {
        if j < p {
            assert(v[j] == old_edges[j]);
        } else if j == p {
            assert(v[j] == edge);
        } else {
            assert(v[j] == old_edges[j - 1]);
        }
    }
    assert forall|i: int, j: int| 0 <= i < j < v.len() implies before(#[trigger] v[i], #[trigger] v[j]) by {
        if i < p && j > p {
            lemma_before_order(v[i], edge, v[j]);
        }
    }
    assert forall|a: int, b: int|
        ((0 <= a < n && 0 <= b < pp.len()) || (a == n && 0 <= b < o + 1)) && #[trigger] may_inherit(ii[a], pp[b])
            implies edge_listed(ii, pp, v, a, b) by {
        if a == n && b == o {
            assert(v[p] == edge_of(ii, pp, a, b));
        } else {
            let j = choose|j: int| 0 <= j < old_edges.len() && #[trigger] old_edges[j] == edge_of(ii, pp, a, b);
            if j < p {
                assert(v[j] == old_edges[j]);
            } else {
                assert(v[j + 1] == old_edges[j]);
            }
        }
    }
}

/// All admissible pairings, strictly ordered by preference.
fn candidate_edges(inferred: &Vec<EventIdentity>, previous: &[EventIdentity]) -> (result: Vec<Edge>)
    requires
        all_pairs_fit(inferred@, previous@),
    ensures
        sorted_edges(result@),
        edges_valid(inferred@, previous@, result@),
        forall|n: int, o: int|
            0 <= n < inferred@.len() && 0 <= o < previous@.len() && #[trigger] may_inherit(
                inferred@[n],
                previous@[o],
            ) ==> edge_listed(inferred@, previous@, result@, n, o),
{
    let ghost ii = inferred@;
    let ghost pp = previous@;
    let inferred_len = inferred.len();
    let previous_len = previous.len();
    let mut edges: Vec<Edge> = Vec::new();
    let mut n: usize = 0;
    while n < inferred.len()
        invariant
            ii == inferred@,
            pp == previous@,
            inferred_len == ii.len(),
            previous_len == pp.len(),
            n <= ii.len(),
            all_pairs_fit(ii, pp),
            sorted_edges(edges@),
            edges_valid(ii, pp, edges@),
            forall|j: int| 0 <= j < edges@.len() ==> (#[trigger] edges@[j]).3 < n,
            forall|a: int, b: int|
                0 <= a < n && 0 <= b < pp.len() && #[trigger] may_inherit(ii[a], pp[b])
                    ==> edge_listed(ii, pp, edges@, a, b),
        decreases ii.len() - n,
    {
        let mut o: usize = 0;
        while o < previous.len()
            invariant
                ii == inferred@,
                pp == previous@,
                inferred_len == ii.len(),
                previous_len == pp.len(),
                n < ii.len(),
                o <= pp.len(),
                all_pairs_fit(ii, pp),
                sorted_edges(edges@),
                edges_valid(ii, pp, edges@),
                forall|j: int| 0 <= j < edges@.len() ==> (#[trigger] edges@[j]).3 < n || (edges@[j].3 == n && edges@[j].4 < o),
                forall|a: int, b: int|
                    ((0 <= a < n && 0 <= b < pp.len()) || (a == n && 0 <= b < o)) && #[trigger] may_inherit(ii[a], pp[b])
                        ==> edge_listed(ii, pp, edges@, a, b),
            decreases pp.len() - o,
        {
            match pair_edge(&inferred[n], &previous[o], n, o) {
                Some(edge) => {
                    let mut p: usize = 0;
                    while p < edges.len() && !edge_before(&edge, &edges[p])
                        invariant
                            p <= edges@.len(),
                            forall|j: int| 0 <= j < p ==> !before(edge, #[trigger] edges@[j]),
                        decreases edges@.len() - p,
                    {
                        p += 1;
                    }
                    let ghost old_edges = edges@;
                    proof {
                        assert forall|j: int| 0 <= j < p implies before(#[trigger] old_edges[j], edge) by {
                            lemma_before_order(old_edges[j], edge, edge);
                        }
                        assert forall|j: int| p <= j < old_edges.len() implies before(edge, #[trigger] old_edges[j]) by {
                            lemma_before_order(edge, old_edges[p as int], old_edges[j]);
                        }
                    }
                    edges.insert(p, edge);
                    proof {
                        lemma_insert_edge(ii, pp, old_edges, edges@, edge, p as int, n as int, o as int);
                    }
                },
                None => {},
            }
            o += 1;
        }
        n += 1;
    }
    edges
}

/// The greedy one-to-one matching of re-inferred events to earlier events:
/// pairings are taken in order of preference whenever both events are still free.
pub fn match_event_ids(inferred: &Vec<EventIdentity>, previous: &[EventIdentity]) -> (result: Vec<Option<usize>>)
    requires
        all_pairs_fit(inferred@, previous@),
    ensures
        is_greedy_matching(inferred@, previous@, result@),
{
    let ghost ii = inferred@;
    let ghost pp = previous@;
    let previous_len = previous.len();
    let edges = candidate_edges(inferred, previous);
    let mut m: Vec<Option<usize>> = Vec::new();
    let mut used_new: Vec<bool> = Vec::new();
    let mut i: usize = 0;
    while i < inferred.len()
        invariant
            i <= ii.len(),
            ii == inferred@,
            m@.len() == i,
            used_new@.len() == i,
            forall|k: int| 0 <= k < i ==> #[trigger] m@[k] is None,
            forall|k: int| 0 <= k < i ==> !#[trigger] used_new@[k],
        decreases ii.len() - i,
    {
        m.push(None);
        used_new.push(false);
        i += 1;
    }
    let mut used_old: Vec<bool> = Vec::new();
    let mut i2: usize = 0;
    while i2 < previous.len()
        invariant
            i2 <= pp.len(),
            pp == previous@,
            used_old@.len() == i2,
            forall|k: int| 0 <= k < i2 ==> !#[trigger] used_old@[k],
        decreases pp.len() - i2,
    {
        used_old.push(false);
        i2 += 1;
    }
    assert forall|o: int| 0 <= o < pp.len() implies (used_old@[o] <==> exists|n: int| 0 <= n < ii.len() && #[trigger] m@[n] == Some(o as usize)) by {
        if exists|n: int| 0 <= n < ii.len() && #[trigger] m@[n] == Some(o as usize) {
            let n = choose|n: int| 0 <= n < ii.len() && #[trigger] m@[n] == Some(o as usize);
            assert(m@[n] is None);
        }
    }
    let mut k: usize = 0;
    while k < edges.len()
        invariant
            ii == inferred@,
            pp == previous@,
            previous_len == pp.len(),
            k <= edges@.len(),
            sorted_edges(edges@),
            edges_valid(ii, pp, edges@),
            m@.len() == ii.len(),
            used_new@.len() == ii.len(),
            used_old@.len() == pp.len(),
            forall|n: int| 0 <= n < ii.len() ==> (used_new@[n] <==> #[trigger] m@[n] is Some),
            forall|o: int| 0 <= o < pp.len() ==> (used_old@[o] <==> exists|n: int| 0 <= n < ii.len() && #[trigger] m@[n] == Some(o as usize)),
            forall|n: int|
                0 <= n < m@.len() && #[trigger] m@[n] is Some ==> (m@[n]->0 as int) < pp.len()
                    && may_inherit(ii[n], pp[m@[n]->0 as int])
                    && exists|j: int| 0 <= j < k && #[trigger] edges@[j] == edge_of(ii, pp, n, m@[n]->0 as int),
            forall|n1: int, n2: int|
                0 <= n1 < m@.len() && 0 <= n2 < m@.len() && n1 != n2 && #[trigger] m@[n1] is Some
                    && #[trigger] m@[n2] is Some ==> m@[n1]->0 != m@[n2]->0,
            forall|j: int| 0 <= j < k ==> {
                let e = #[trigger] edges@[j];
                m@[e.3 as int] == Some(e.4) || blocked(ii, pp, m@, e.3 as int, e.4 as int)
            },
        decreases edges@.len() - k,
    {
        let e = edges[k];
        let n = e.3;
        let o = e.4;
        let ghost old_m = m@;
        if !used_new[n] && !used_old[o] {
            m.set(n, Some(o));
            used_new.set(n, true);
            used_old.set(o, true);
            proof {
                assert(m@ =~= old_m.update(n as int, Some(o)));
                assert(m@[n as int] == Some(o));
                assert forall|x: int| 0 <= x < pp.len() implies (used_old@[x] <==> exists|y: int| 0 <= y < ii.len() && #[trigger] m@[y] == Some(x as usize)) by {
                    if x == o {
                        assert(m@[n as int] == Some(o));
                    } else {
                        if exists|y: int| 0 <= y < ii.len() && #[trigger] m@[y] == Some(x as usize) {
                            let y = choose|y: int| 0 <= y < ii.len() && #[trigger] m@[y] == Some(x as usize);
                            if y == n {
                                assert(m@[y] == Some(o));
                                assert(x as usize == o);
                            }
                            assert(old_m[y] == Some(x as usize));
                        }
                        if exists|y: int| 0 <= y < ii.len() && #[trigger] old_m[y] == Some(x as usize) {
                            let y = choose|y: int| 0 <= y < ii.len() && #[trigger] old_m[y] == Some(x as usize);
                            assert(m@[y] == Some(x as usize));
                        }
                    }
                }
                assert forall|x: int|
                    0 <= x < m@.len() && #[trigger] m@[x] is Some implies (m@[x]->0 as int) < pp.len()
                        && may_inherit(ii[x], pp[m@[x]->0 as int])
                        && exists|j: int| 0 <= j < k + 1 && #[trigger] edges@[j] == edge_of(ii, pp, x, m@[x]->0 as int) by {
                    if x == n {
                        assert(edges@[k as int] == edge_of(ii, pp, x, o as int));
                    } else {
                        assert(old_m[x] == m@[x]);
                    }
                }
                assert forall|n1: int, n2: int|
                    0 <= n1 < m@.len() && 0 <= n2 < m@.len() && n1 != n2 && #[trigger] m@[n1] is Some
                        && #[trigger] m@[n2] is Some implies m@[n1]->0 != m@[n2]->0 by {
                    if n1 == n {
                        assert(old_m[n2] == m@[n2]);
                        if m@[n2]->0 == o {
                            assert(old_m[n2] == Some(o));
                        }
                    } else if n2 == n {
                        assert(old_m[n1] == m@[n1]);
                        if m@[n1]->0 == o {
                            assert(old_m[n1] == Some(o));
                        }
                    }
                }
                assert forall|j: int| 0 <= j < k + 1 implies {
                    let e2 = #[trigger] edges@[j];
                    m@[e2.3 as int] == Some(e2.4) || blocked(ii, pp, m@, e2.3 as int, e2.4 as int)
                } by {
                    let e2 = edges@[j];
                    if j < k {
                        assert(old_m[e2.3 as int] == Some(e2.4) || blocked(ii, pp, old_m, e2.3 as int, e2.4 as int));
                        if old_m[e2.3 as int] == Some(e2.4) {
                            assert(e2.3 != n);
                        } else if old_m[e2.3 as int] is Some && before(edge_of(ii, pp, e2.3 as int, old_m[e2.3 as int]->0 as int), edge_of(ii, pp, e2.3 as int, e2.4 as int)) {
                            assert(e2.3 != n);
                            assert(m@[e2.3 as int] == old_m[e2.3 as int]);
                        } else {
                            let n2 = choose|n2: int| 0 <= n2 < old_m.len() && #[trigger] old_m[n2] == Some(e2.4) && before(
                                edge_of(ii, pp, n2, e2.4 as int),
                                edge_of(ii, pp, e2.3 as int, e2.4 as int));
                            assert(n2 != n);
                            assert(m@[n2] == Some(e2.4));
                        }
                    }
                }
            }
        } else {
            proof {
                assert(e == edge_of(ii, pp, n as int, o as int));
                if used_new@[n as int] {
                    let o2 = m@[n as int]->0 as int;
                    let j = choose|j: int| 0 <= j < k && #[trigger] edges@[j] == edge_of(ii, pp, n as int, o2);
                    assert(before(edges@[j], edges@[k as int]));
                } else {
                    let n2 = choose|n2: int| 0 <= n2 < ii.len() && #[trigger] m@[n2] == Some(o);
                    let j = choose|j: int| 0 <= j < k && #[trigger] edges@[j] == edge_of(ii, pp, n2, o as int);
                    assert(before(edges@[j], edges@[k as int]));
                }
            }
        }
        k += 1;
    }
    proof {
        assert forall|n: int, o: int|
            0 <= n < ii.len() && 0 <= o < pp.len() && #[trigger] may_inherit(ii[n], pp[o])
                && m@[n] != Some(o as usize) implies blocked(ii, pp, m@, n, o) by {
            let j = choose|j: int| 0 <= j < edges@.len() && #[trigger] edges@[j] == edge_of(ii, pp, n, o);
            let e = edges@[j];
            assert(e.3 == n && e.4 == o);
        }
    }
    m
}

fn copy_with_id(e: &EventIdentity, id: String) -> (result: EventIdentity)
    ensures
        result.id == id,
        result.meeting_id == e.meeting_id,
        result.start_ms == e.start_ms,
        result.end_ms == e.end_ms,
        result.kind == e.kind,
        result.transcript_id == e.transcript_id,
{
    let transcript_id = match &e.transcript_id {
        Some(t) => Some(t.clone()),
        None => None,
    };
    EventIdentity {
        id,
        meeting_id: e.meeting_id.clone(),
        start_ms: e.start_ms,
        end_ms: e.end_ms,
        kind: e.kind,
        transcript_id,
    }
}

/// The id an event carries after reconciliation under matching `m`.
pub open spec fn reconciled_id(
    inferred: Seq<EventIdentity>,
    previous: Seq<EventIdentity>,
    m: Seq<Option<usize>>,
    n: int,
) -> Seq<char> {
    match m[n] {
        Some(o) => previous[o as int].id@,
        None => inferred[n].id@,
    }
}

/// Gives re-inferred events the ids of the earlier events they greedily match,
/// so that manual annotations survive boundary jitter between passes. Nothing
/// but ids changes, and no earlier id is handed to two events.
pub fn reconcile_event_ids(inferred: &mut Vec<EventIdentity>, previous: &[EventIdentity])
    requires
        all_pairs_fit(old(inferred)@, previous@),
    ensures
        final(inferred)@.len() == old(inferred)@.len(),
        exists|m: Seq<Option<usize>>|
            is_greedy_matching(old(inferred)@, previous@, m) && forall|n: int|
                0 <= n < final(inferred)@.len() ==> (#[trigger] final(inferred)@[n]).id@
                    == reconciled_id(old(inferred)@, previous@, m, n),
        forall|n: int|
            0 <= n < final(inferred)@.len() ==> {
                let a = #[trigger] final(inferred)@[n];
                let b = old(inferred)@[n];
                &&& a.meeting_id == b.meeting_id
                &&& a.start_ms == b.start_ms
                &&& a.end_ms == b.end_ms
                &&& a.kind == b.kind
                &&& a.transcript_id == b.transcript_id
            },
{
    let m = match_event_ids(inferred, previous);
    let ghost before_vec = inferred@;
    let mut out: Vec<EventIdentity> = Vec::new();
    let mut n: usize = 0;
    while n < inferred.len()
        invariant
            inferred@ == before_vec,
            is_greedy_matching(before_vec, previous@, m@),
            n <= before_vec.len(),
            out@.len() == n,
            forall|k: int| 0 <= k < n ==> (#[trigger] out@[k]).id@ == reconciled_id(before_vec, previous@, m@, k),
            forall|k: int|
                0 <= k < n ==> {
                    let a = #[trigger] out@[k];
                    let b = before_vec[k];
                    &&& a.meeting_id == b.meeting_id
                    &&& a.start_ms == b.start_ms
                    &&& a.end_ms == b.end_ms
                    &&& a.kind == b.kind
                    &&& a.transcript_id == b.transcript_id
                },
        decreases before_vec.len() - n,
    {
        let id = match m[n] {
            Some(o) => previous[o].id.clone(),
            None => inferred[n].id.clone(),
        };
        let e = copy_with_id(&inferred[n], id);
        out.push(e);
        n += 1;
    }
    *inferred = out;
}

/// `short_turn_` and the first 24 hex digits of SHA-256 over the meeting id's
/// UTF-8 bytes and the little-endian quantized start and end.
pub open spec fn stable_event_id_spec(meeting_id: Seq<char>, start_ms: i64, end_ms: i64) -> Seq<char> {
    let data = encode_utf8(meeting_id) + le_bytes(((quantize_spec(start_ms as int) as i64) as u64) as nat, 8)
        + le_bytes(((quantize_spec(end_ms as int) as i64) as u64) as nat, 8);
    "short_turn_"@ + hex_lower(sha256_spec(data)).subrange(0, 24)
}

proof fn lemma_hex_len(bytes: Seq<u8>)
    ensures
        hex_lower(bytes).len() == 2 * bytes.len(),
    decreases bytes.len(),
{
    if bytes.len() > 0 {
        lemma_hex_len(bytes.drop_last());
    }
}

/// A lowercase hexadecimal digit.
pub open spec fn is_lower_hex(c: char) -> bool {
    (48 <= c as int && c as int <= 57) || (97 <= c as int && c as int <= 102)
}

proof fn lemma_hex_digits(bytes: Seq<u8>)
    ensures
        forall|i: int| 0 <= i < hex_lower(bytes).len() ==> is_lower_hex(#[trigger] hex_lower(bytes)[i]),
    decreases bytes.len(),
{
    if bytes.len() > 0 {
        lemma_hex_digits(bytes.drop_last());
        let hi = bytes.last() / 16;
        let lo = bytes.last() % 16;
        assert(is_lower_hex(crate::text::hex_digit(hi))) by {
            if hi < 10 {
                assert(((48 + hi) as u8) as char as int == 48 + hi);
            } else {
                assert(((87 + hi) as u8) as char as int == 87 + hi);
            }
        }
        assert(is_lower_hex(crate::text::hex_digit(lo))) by {
            if lo < 10 {
                assert(((48 + lo) as u8) as char as int == 48 + lo);
            } else {
                assert(((87 + lo) as u8) as char as int == 87 + lo);
            }
        }
        let prev = hex_lower(bytes.drop_last());
        let h = hex_lower(bytes);
        assert(h == prev.push(crate::text::hex_digit(hi)).push(crate::text::hex_digit(lo)));
        lemma_hex_len(bytes.drop_last());
        assert forall|i: int| 0 <= i < h.len() implies is_lower_hex(#[trigger] h[i]) by {
            if i < prev.len() {
                assert(h[i] == prev[i]);
            }
        }
    }
}

/// An id of the shape `short_turn_` followed by 24 lowercase hex digits.
pub open spec fn event_id_shape(id: Seq<char>) -> bool {
    &&& id.len() == 35
    &&& id.subrange(0, 11) == "short_turn_"@
    &&& forall|i: int| 11 <= i < 35 ==> is_lower_hex(#[trigger] id[i])
}

/// A rerun-stable event id. Provenance and transcript segmentation are not
/// part of identity; boundaries are quantized to tolerate backend jitter.
pub fn stable_event_id(meeting_id: &str, start_ms: i64, end_ms: i64) -> (result: String)
    requires
        start_ms <= i64::MAX - 25,
        end_ms <= i64::MAX - 25,
    ensures
        result@ == stable_event_id_spec(meeting_id@, start_ms, end_ms),
        event_id_shape(result@),
{
    let mut data: Vec<u8> = Vec::new();
    let bytes = meeting_id.as_bytes();
    let mut i: usize = 0;
    while i < bytes.len()
        invariant
            i <= bytes@.len(),
            data@ == bytes@.subrange(0, i as int),
        decreases bytes@.len() - i,
    {
        data.push(bytes[i]);
        i += 1;
        assert(data@ =~= bytes@.subrange(0, i as int));
    }
    assert(bytes@.subrange(0, bytes@.len() as int) =~= bytes@);
    let start_bytes = i64_le_bytes(quantize_ms(start_ms));
    let end_bytes = i64_le_bytes(quantize_ms(end_ms));
    let ghost prefix = data@;
    let mut k: usize = 0;
    while k < 8
        invariant
            k <= 8,
            start_bytes@.len() == 8,
            data@ == prefix + start_bytes@.subrange(0, k as int),
        decreases 8 - k,
    {
        data.push(start_bytes[k]);
        k += 1;
        assert(data@ =~= prefix + start_bytes@.subrange(0, k as int));
    }
    let ghost prefix2 = data@;
    let mut k2: usize = 0;
    while k2 < 8
        invariant
            k2 <= 8,
            end_bytes@.len() == 8,
            data@ == prefix2 + end_bytes@.subrange(0, k2 as int),
        decreases 8 - k2,
    {
        data.push(end_bytes[k2]);
        k2 += 1;
        assert(data@ =~= prefix2 + end_bytes@.subrange(0, k2 as int));
    }
    proof {
        assert(start_bytes@.subrange(0, 8) =~= start_bytes@);
        assert(end_bytes@.subrange(0, 8) =~= end_bytes@);
    }
    let digest = sha256(data.as_slice());
    let hex = to_hex_lower(digest.as_slice());
    proof {
        lemma_hex_len(digest@);
        lemma_hex_digits(digest@);
        reveal_strlit("short_turn_");
    }
    let mut id = owned("short_turn_");
    id.append(char_slice(hex.as_str(), 0, 24));
    proof {
        assert(id@.subrange(0, 11) =~= "short_turn_"@);
        assert forall|i: int| 11 <= i < 35 implies is_lower_hex(#[trigger] id@[i]) by {
            assert(id@[i] == hex@[i - 11]);
        }
    }
    id
}

/// The distinct sources of `sources` in declaration order (`sort` then `dedup`).
pub open spec fn sorted_sources_spec(sources: Seq<ShortTurnCandidateSource>) -> Seq<ShortTurnCandidateSource> {
    let t = if sources.contains(ShortTurnCandidateSource::Transcript) {
        seq![ShortTurnCandidateSource::Transcript]
    } else {
        seq![]
    };
    let d = if sources.contains(ShortTurnCandidateSource::DiarizerTurn) {
        seq![ShortTurnCandidateSource::DiarizerTurn]
    } else {
        seq![]
    };
    let v = if sources.contains(ShortTurnCandidateSource::VadEvent) {
        seq![ShortTurnCandidateSource::VadEvent]
    } else {
        seq![]
    };
    t + d + v
}

fn has_source(sources: &[ShortTurnCandidateSource], wanted: ShortTurnCandidateSource) -> (result: bool)
    ensures
        result == sources@.contains(wanted),
{
    let mut i: usize = 0;
    while i < sources.len()
        invariant
            i <= sources@.len(),
            forall|k: int| 0 <= k < i ==> sources@[k] != wanted,
        decreases sources@.len() - i,
    {
        if sources[i] == wanted {
            assert(sources@[i as int] == wanted);
            return true;
        }
        i += 1;
    }
    false
}

/// Candidate sources sorted and without repeats.
pub fn sorted_sources(sources: &[ShortTurnCandidateSource]) -> (result: Vec<ShortTurnCandidateSource>)
    ensures
        result@ == sorted_sources_spec(sources@),
{
    let mut out: Vec<ShortTurnCandidateSource> = Vec::new();
    if has_source(sources, ShortTurnCandidateSource::Transcript) {
        out.push(ShortTurnCandidateSource::Transcript);
    }
    if has_source(sources, ShortTurnCandidateSource::DiarizerTurn) {
        out.push(ShortTurnCandidateSource::DiarizerTurn);
    }
    if has_source(sources, ShortTurnCandidateSource::VadEvent) {
        out.push(ShortTurnCandidateSource::VadEvent);
    }
    assert(out@ =~= sorted_sources_spec(sources@));
    out
}


/// The pairs on which two matchings disagree.
spec fn matching_diff(m1: Seq<Option<usize>>, m2: Seq<Option<usize>>, width: int) -> Set<(int, int)> {
    Set::new(
        |p: (int, int)|
            0 <= p.0 < m1.len() && 0 <= p.1 < width && (m1[p.0] == Some(p.1 as usize)) != (m2[p.0] == Some(
                p.1 as usize,
            )),
    )
}

/// A nonempty finite set of in-range pairs has one whose edge comes before
/// the edges of all the others.
proof fn lemma_earliest_edge(
    inferred: Seq<EventIdentity>,
    previous: Seq<EventIdentity>,
    d: Set<(int, int)>,
) -> (e: (int, int))
    requires
        d.finite(),
        d.len() > 0,
        forall|p: (int, int)| #[trigger] d.contains(p) ==> 0 <= p.0 <= usize::MAX && 0 <= p.1 <= usize::MAX,
    ensures
        d.contains(e),
        forall|x: (int, int)|
            #[trigger] d.contains(x) && x != e ==> before(
                edge_of(inferred, previous, e.0, e.1),
                edge_of(inferred, previous, x.0, x.1),
            ),
    decreases d.len(),
{
    let x = d.choose();
    let rest = d.remove(x);
    if rest.len() == 0 {
        rest.lemma_len0_is_empty();
        assert forall|y: (int, int)| #[trigger] d.contains(y) && y != x implies before(
            edge_of(inferred, previous, x.0, x.1),
            edge_of(inferred, previous, y.0, y.1),
        ) by {
            assert(rest.contains(y));
        }
        x
    } else {
        let y = lemma_earliest_edge(inferred, previous, rest);
        let ex = edge_of(inferred, previous, x.0, x.1);
        let ey = edge_of(inferred, previous, y.0, y.1);
        if before(ex, ey) {
            assert forall|z: (int, int)| #[trigger] d.contains(z) && z != x implies before(
                ex,
                edge_of(inferred, previous, z.0, z.1),
            ) by {
                assert(rest.contains(z));
            }
            x
        } else {
            assert(d.contains(y));
            assert(x != y);
            assert(before(ey, ex));
            assert forall|z: (int, int)| #[trigger] d.contains(z) && z != y implies before(
                ey,
                edge_of(inferred, previous, z.0, z.1),
            ) by {
                if z != x {
                    assert(rest.contains(z));
                }
            }
            y
        }
    }
}

/// A pair one greedy matching takes and the other does not has an earlier
/// pair on which the two disagree.
proof fn lemma_matching_disagreement(
    inferred: Seq<EventIdentity>,
    previous: Seq<EventIdentity>,
    m1: Seq<Option<usize>>,
    m2: Seq<Option<usize>>,
    n: int,
    o: int,
)
    requires
        is_greedy_matching(inferred, previous, m1),
        is_greedy_matching(inferred, previous, m2),
        0 <= n < m1.len(),
        0 <= o < previous.len(),
        o <= usize::MAX,
        m1[n] == Some(o as usize),
        m2[n] != Some(o as usize),
    ensures
        exists|x: (int, int)|
            #[trigger] matching_diff(m1, m2, previous.len() as int).contains(x) && before(
                edge_of(inferred, previous, x.0, x.1),
                edge_of(inferred, previous, n, o),
            ),
{
    let d = matching_diff(m1, m2, previous.len() as int);
    assert(m1[n] is Some);
    assert(may_inherit(inferred[n], previous[o]));
    assert(blocked(inferred, previous, m2, n, o));
    if m2[n] is Some && before(edge_of(inferred, previous, n, m2[n]->0 as int), edge_of(inferred, previous, n, o)) {
        let o2 = m2[n]->0 as int;
        assert(m2[n] is Some);
        assert(d.contains((n, o2)));
    } else {
        let n2 = choose|n2: int|
            0 <= n2 < m2.len() && #[trigger] m2[n2] == Some(o as usize) && before(
                edge_of(inferred, previous, n2, o),
                edge_of(inferred, previous, n, o),
            );
        assert(m2[n2] is Some);
        assert(m1[n2] != Some(o as usize)) by {
            if m1[n2] == Some(o as usize) {
                assert(m1[n] is Some && m1[n2] is Some);
            }
        }
        assert(d.contains((n2, o)));
    }
}

/// Reconciliation is deterministic: two passes over the same events admit
/// exactly one greedy matching, so ties never leave an inherited id open.
pub proof fn law_event_matching_unique(
    inferred: Seq<EventIdentity>,
    previous: Seq<EventIdentity>,
    m1: Seq<Option<usize>>,
    m2: Seq<Option<usize>>,
)
    requires
        is_greedy_matching(inferred, previous, m1),
        is_greedy_matching(inferred, previous, m2),
        inferred.len() <= usize::MAX,
        previous.len() <= usize::MAX,
    ensures
        m1 == m2,
{
    let width = previous.len() as int;
    let d = matching_diff(m1, m2, width);
    if !(m1 =~= m2) {
        let n = choose|n: int| 0 <= n < m1.len() && m1[n] != m2[n];
        let o: int = if m1[n] is Some {
            m1[n]->0 as int
        } else {
            m2[n]->0 as int
        };
        if m1[n] is Some {
            assert(m1[n] is Some);
        } else {
            assert(m2[n] is Some);
        }
        assert(d.contains((n, o)));
        lemma_grid(m1.len() as int, width);
        assert(d.subset_of(grid(m1.len() as int, width)));
        vstd::set_lib::lemma_len_subset(d, grid(m1.len() as int, width));
        let e = lemma_earliest_edge(inferred, previous, d);
        if m1[e.0] == Some(e.1 as usize) {
            lemma_matching_disagreement(inferred, previous, m1, m2, e.0, e.1);
        } else {
            lemma_matching_disagreement(inferred, previous, m2, m1, e.0, e.1);
            assert(matching_diff(m2, m1, width) =~= d);
        }
        let x = choose|x: (int, int)|
            #[trigger] d.contains(x) && before(edge_of(inferred, previous, x.0, x.1), edge_of(inferred, previous, e.0, e.1));
        assert(before(edge_of(inferred, previous, e.0, e.1), edge_of(inferred, previous, x.0, x.1)));
    }
}

/// Whether a refined short event is stored, and whether users see it: speech
/// and backchannels are stored and shown; an unknown event is kept hidden,
/// and only with strong internal evidence; noise is dropped.
pub fn materialization_outcome(kind: SegmentKind, strong_internal: bool) -> (result: (bool, bool))
    ensures
        result == (match kind {
            SegmentKind::Speech | SegmentKind::Backchannel => (true, true),
            SegmentKind::Unknown => (strong_internal, false),
            SegmentKind::Noise | SegmentKind::NonSpeechVocalization => (false, false),
        }),
        result.1 ==> result.0,
{
    match kind {
        SegmentKind::Speech | SegmentKind::Backchannel => (true, true),
        SegmentKind::Unknown => (strong_internal, false),
        SegmentKind::Noise | SegmentKind::NonSpeechVocalization => (false, false),
    }
}

/// An event is aligned with (rendered by) its transcript row only when a
/// transcript proposed it, the row is short (at most 1.2 s) and the two
/// overlap enough (`iou_at_least_min`, decided by the caller). An event
/// embedded in a longer row never takes over the row's rendering.
pub fn transcript_aligned(from_transcript: bool, transcript_start_ms: i64, transcript_end_ms: i64, iou_at_least_min: bool) -> (result: bool)
    ensures
        result == (from_transcript && transcript_end_ms - transcript_start_ms <= 1_200 && iou_at_least_min),
{
    from_transcript && (transcript_end_ms as i128) - (transcript_start_ms as i128) <= 1_200 && iou_at_least_min
}

} // verus!
