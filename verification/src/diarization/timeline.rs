//! Overlap-based reconciliation of transcript segments with the speaker
//! timeline: each transcript takes the speaker segment that covers the
//! largest portion of it, never simply the one at its start.
use vstd::prelude::*;
use crate::strings::{lemma_seq_lt_order, seq_lt, str_lt};

verus! {

/// A speaker segment as reconciliation reads it. `confidence_rank` orders
/// the segments' backend confidences (a higher rank for a higher
/// confidence, the lowest for none); the caller derives it.
#[derive(Debug, Clone)]
pub struct TimelineSegment {
    pub start_ms: i64,
    pub end_ms: i64,
    pub speaker_key: String,
    pub confidence_rank: u64,
}

/// The time segment `s` covers of the transcript `start..end`, 0 where none.
pub open spec fn covered_ms(start: i64, end: i64, s: TimelineSegment) -> int {
    let hi = if end < s.end_ms { end as int } else { s.end_ms as int };
    let lo = if start > s.start_ms { start as int } else { s.start_ms as int };
    if hi - lo > 0 {
        hi - lo
    } else {
        0
    }
}

/// Segment `i` wins over segment `j`: it covers more, or as much with a
/// higher confidence rank, or a smaller key, or comes first.
pub open spec fn outranks(start: i64, end: i64, segs: Seq<TimelineSegment>, i: int, j: int) -> bool {
    let a = segs[i];
    let b = segs[j];
    let ca = covered_ms(start, end, a);
    let cb = covered_ms(start, end, b);
    ca > cb || (ca == cb && (a.confidence_rank > b.confidence_rank || (a.confidence_rank == b.confidence_rank && (
    seq_lt(a.speaker_key@, b.speaker_key@) || (a.speaker_key@ == b.speaker_key@ && i < j)))))
}

/// Segment `i` is the transcript's dominant speaker segment: it covers part
/// of it and wins over every other segment that does.
pub open spec fn is_dominant(start: i64, end: i64, segs: Seq<TimelineSegment>, i: int) -> bool {
    &&& 0 <= i < segs.len()
    &&& covered_ms(start, end, segs[i]) > 0
    &&& forall|j: int| 0 <= j < segs.len() && j != i && covered_ms(start, end, #[trigger] segs[j]) > 0 ==> outranks(start, end, segs, i, j)
}

/// Two different segments both cover part of the transcript.
pub open spec fn contested(start: i64, end: i64, segs: Seq<TimelineSegment>) -> bool {
    exists|i: int, j: int|
        0 <= i < segs.len() && 0 <= j < segs.len() && i != j && covered_ms(start, end, #[trigger] segs[i]) > 0
            && covered_ms(start, end, #[trigger] segs[j]) > 0
}

proof fn lemma_outranks_order(start: i64, end: i64, segs: Seq<TimelineSegment>, i: int, j: int, k: int)
    requires
        0 <= i < segs.len(),
        0 <= j < segs.len(),
        0 <= k < segs.len(),
    ensures
        i != j ==> outranks(start, end, segs, i, j) || outranks(start, end, segs, j, i),
        outranks(start, end, segs, i, j) && outranks(start, end, segs, j, k) ==> outranks(start, end, segs, i, k),
{
    lemma_seq_lt_order(segs[i].speaker_key@, segs[j].speaker_key@, segs[k].speaker_key@);
    lemma_seq_lt_order(segs[j].speaker_key@, segs[i].speaker_key@, segs[k].speaker_key@);
}

fn covered(start: i64, end: i64, s: &TimelineSegment) -> (result: i128)
    ensures
        result == covered_ms(start, end, *s),
{
    let hi: i128 = if end < s.end_ms { end as i128 } else { s.end_ms as i128 };
    let lo: i128 = if start > s.start_ms { start as i128 } else { s.start_ms as i128 };
    if hi - lo > 0 {
        hi - lo
    } else {
        0
    }
}

/// The dominant speaker segment of the transcript `start..end` (`None`
/// where no segment covers any of it), and whether more than one segment
/// covers part of it.
pub fn dominant_segment(start: i64, end: i64, segs: &[TimelineSegment]) -> (result: (Option<usize>, bool))
    ensures
        match result.0 {
            Some(i) => is_dominant(start, end, segs@, i as int),
            None => forall|j: int| 0 <= j < segs@.len() ==> covered_ms(start, end, #[trigger] segs@[j]) <= 0,
        },
        result.1 == contested(start, end, segs@),
{
    let mut best: Option<usize> = None;
    let mut best_cover: i128 = 0;
    let mut count: usize = 0;
    let mut i: usize = 0;
    while i < segs.len()
        invariant
            i <= segs@.len(),
            count <= i,
            match best {
                Some(b) => b < i && covered_ms(start, end, segs@[b as int]) > 0 && best_cover == covered_ms(start, end, segs@[b as int])
                    && forall|j: int| 0 <= j < i && j != b && covered_ms(start, end, #[trigger] segs@[j]) > 0 ==> outranks(start, end, segs@, b as int, j),
                None => forall|j: int| 0 <= j < i ==> covered_ms(start, end, #[trigger] segs@[j]) <= 0,
            },
            count == 0 <==> best is None,
            count >= 2 <==> exists|a: int, c: int|
                0 <= a < i && 0 <= c < i && a != c && covered_ms(start, end, #[trigger] segs@[a]) > 0
                    && covered_ms(start, end, #[trigger] segs@[c]) > 0,
        decreases segs@.len() - i,
    {
        let c = covered(start, end, &segs[i]);
        if c > 0 {
            let ghost old_best = best;
            match best {
                None => {
                    best = Some(i);
                    best_cover = c;
                },
                Some(b) => {
                    let wins = if c != best_cover {
                        c > best_cover
                    } else if segs[i].confidence_rank != segs[b].confidence_rank {
                        segs[i].confidence_rank > segs[b].confidence_rank
                    } else {
                        str_lt(segs[i].speaker_key.as_str(), segs[b].speaker_key.as_str())
                    };
                    proof {
                        if segs@[i as int].speaker_key@ == segs@[b as int].speaker_key@ {
                            lemma_seq_lt_order(segs@[i as int].speaker_key@, segs@[b as int].speaker_key@, segs@[b as int].speaker_key@);
                        }
                        assert(wins == outranks(start, end, segs@, i as int, b as int));
                        lemma_outranks_order(start, end, segs@, i as int, b as int, b as int);
                        assert forall|j: int| 0 <= j < i + 1 && j != (if wins { i as int } else { b as int }) && covered_ms(start, end, #[trigger] segs@[j]) > 0
                            implies outranks(start, end, segs@, if wins { i as int } else { b as int }, j) by {
                            lemma_outranks_order(start, end, segs@, i as int, b as int, j);
                            lemma_outranks_order(start, end, segs@, b as int, i as int, j);
                        }
                        assert(covered_ms(start, end, segs@[b as int]) > 0 && covered_ms(start, end, segs@[i as int]) > 0);
                    }
                    if wins {
                        best = Some(i);
                        best_cover = c;
                    }
                },
            }
            if count < 2 {
                count += 1;
            }
        }
        i += 1;
    }
    (best, count >= 2)
}

/// The dominant segment covers the largest portion of the transcript: no
/// other segment covers more of it.
pub proof fn law_dominant_covers_most(start: i64, end: i64, segs: Seq<TimelineSegment>, i: int, j: int)
    requires
        is_dominant(start, end, segs, i),
        0 <= j < segs.len(),
    ensures
        covered_ms(start, end, segs[j]) <= covered_ms(start, end, segs[i]),
{
    if j != i && covered_ms(start, end, segs[j]) > 0 {
        assert(outranks(start, end, segs, i, j));
    }
}

} // verus!
