//! Aligning a meeting's ground-truth speakers with the diarizer's clusters.
//!
//! Only reference rows (clean single-speaker intervals) vote: each
//! ground-truth speaker's weight on a cluster is the time its reference rows
//! share with the cluster's turns. The best one-to-one assignment of
//! speakers to clusters is used where there are at most 20 clusters; a pair
//! maps only where its weight is positive.
use vstd::prelude::*;
use crate::database::key_remap::{insert_sorted, lemma_sorted_no_duplicates, strictly_sorted};
use crate::evaluation::alignment::{bounded, maximum_weight_assignment, narrow, rows, solve, unmapped_keys, valid};
use crate::evaluation::production_artifact::ArtifactTurnSpan;
use crate::strings::{lookup, lookup_str, pair_views, views};
use crate::text::{owned, str_eq};

verus! {

/// A manifest row of one meeting, as speaker alignment reads it.
#[derive(Debug, Clone)]
pub struct AlignmentRow {
    pub speaker: Option<String>,
    pub start_ms: i64,
    pub end_ms: i64,
    /// The row may serve as a speaker reference (decided by its ground-truth
    /// kind, length, certainty and overlap tags).
    pub is_reference: bool,
}

/// How a meeting's ground-truth speakers were aligned with its clusters.
#[derive(Debug, Clone)]
pub struct SpeakerAlignmentCoverage {
    pub mapped_speakers: usize,
    pub total_gt_speakers: usize,
    pub unmapped_gt_speakers: Vec<String>,
    pub reference_intervals: usize,
    pub reference_duration_ms: i64,
    /// Ground-truth speaker to cluster key, ascending by speaker.
    pub mapping: Vec<(String, String)>,
}

/// Row `r` is a reference row of `speaker`.
pub open spec fn is_reference_of(r: AlignmentRow, speaker: Seq<char>) -> bool {
    r.is_reference && (r.speaker matches Some(s) && s@ == speaker)
}

/// The speakers named by `manifest[..n]`; only reference rows count when
/// `references_only`.
pub open spec fn speaker_set(manifest: Seq<AlignmentRow>, n: int, references_only: bool) -> Set<Seq<char>>
    decreases n,
{
    if n <= 0 {
        Set::empty()
    } else {
        let prev = speaker_set(manifest, n - 1, references_only);
        let r = manifest[n - 1];
        if (r.is_reference || !references_only) && r.speaker is Some {
            prev.insert(r.speaker->0@)
        } else {
            prev
        }
    }
}

/// The cluster keys of `turns[..n]`.
pub open spec fn cluster_set(turns: Seq<ArtifactTurnSpan>, n: int) -> Set<Seq<char>>
    decreases n,
{
    if n <= 0 {
        Set::empty()
    } else {
        cluster_set(turns, n - 1).insert(turns[n - 1].speaker_key@)
    }
}

/// The time two intervals share.
pub open spec fn interval_overlap(a_start: int, a_end: int, b_start: int, b_end: int) -> int {
    let end = if a_end < b_end {
        a_end
    } else {
        b_end
    };
    let start = if a_start > b_start {
        a_start
    } else {
        b_start
    };
    if end - start > 0 {
        end - start
    } else {
        0
    }
}

/// The time row `r` shares with the turns of `turns[..m]` under `key`.
pub open spec fn row_overlap(r: AlignmentRow, turns: Seq<ArtifactTurnSpan>, key: Seq<char>, m: int) -> int
    decreases m,
{
    if m <= 0 {
        0
    } else {
        row_overlap(r, turns, key, m - 1) + if turns[m - 1].speaker_key@ == key {
            interval_overlap(r.start_ms as int, r.end_ms as int, turns[m - 1].start_ms as int, turns[m - 1].end_ms as int)
        } else {
            0
        }
    }
}

/// The weight of ground-truth `speaker` on cluster `key`: the time the
/// speaker's reference rows among `manifest[..n]` share with the cluster.
pub open spec fn speaker_weight(
    manifest: Seq<AlignmentRow>,
    turns: Seq<ArtifactTurnSpan>,
    speaker: Seq<char>,
    key: Seq<char>,
    n: int,
) -> int
    decreases n,
{
    if n <= 0 {
        0
    } else {
        speaker_weight(manifest, turns, speaker, key, n - 1) + if is_reference_of(manifest[n - 1], speaker) {
            row_overlap(manifest[n - 1], turns, key, turns.len() as int)
        } else {
            0
        }
    }
}

/// The weights of every ground-truth speaker on every cluster.
pub open spec fn weight_matrix(
    manifest: Seq<AlignmentRow>,
    turns: Seq<ArtifactTurnSpan>,
    gt: Seq<Seq<char>>,
    clusters: Seq<Seq<char>>,
) -> Seq<Seq<i64>> {
    Seq::new(
        gt.len(),
        |i: int| Seq::new(clusters.len(), |c: int| speaker_weight(manifest, turns, gt[i], clusters[c], manifest.len() as int) as i64),
    )
}

/// The assignment used: the best one over at most 20 clusters, none beyond.
pub open spec fn chosen_assignment(w: Seq<Seq<i64>>, clusters: nat) -> Seq<Option<usize>> {
    if clusters <= 20 {
        solve(w, 0, 0).1
    } else {
        Seq::new(w.len(), |i: int| None)
    }
}

/// The (speaker, cluster) pairs of `a[..n]` with positive weight, in speaker order.
pub open spec fn mapping_pairs(
    gt: Seq<Seq<char>>,
    clusters: Seq<Seq<char>>,
    w: Seq<Seq<i64>>,
    a: Seq<Option<usize>>,
    n: int,
) -> Seq<(Seq<char>, Seq<char>)>
    decreases n,
{
    if n <= 0 {
        seq![]
    } else {
        let prev = mapping_pairs(gt, clusters, w, a, n - 1);
        match a[n - 1] {
            Some(c) => if (c as int) < clusters.len() && w[n - 1][c as int] > 0 {
                prev.push((gt[n - 1], clusters[c as int]))
            } else {
                prev
            },
            None => prev,
        }
    }
}

/// The number of reference rows among `manifest[..n]`.
pub open spec fn reference_count(manifest: Seq<AlignmentRow>, n: int) -> nat
    decreases n,
{
    if n <= 0 {
        0
    } else {
        reference_count(manifest, n - 1) + if manifest[n - 1].is_reference {
            1nat
        } else {
            0nat
        }
    }
}

/// The summed length of the reference rows among `manifest[..n]`.
pub open spec fn reference_duration(manifest: Seq<AlignmentRow>, n: int) -> int
    decreases n,
{
    if n <= 0 {
        0
    } else {
        reference_duration(manifest, n - 1) + if manifest[n - 1].is_reference {
            manifest[n - 1].end_ms - manifest[n - 1].start_ms
        } else {
            0
        }
    }
}

/// Every weight fits an `i64`, and, where the assignment is searched, is
/// small enough that no sum of one weight per speaker overflows.
pub open spec fn weights_fit(manifest: Seq<AlignmentRow>, turns: Seq<ArtifactTurnSpan>) -> bool {
    let speakers = speaker_set(manifest, manifest.len() as int, true);
    let clusters = cluster_set(turns, turns.len() as int);
    forall|s: Seq<char>, k: Seq<char>|
        #![trigger speakers.contains(s), clusters.contains(k)]
        speakers.contains(s) && clusters.contains(k) ==> {
            &&& speaker_weight(manifest, turns, s, k, manifest.len() as int) <= i64::MAX
            &&& clusters.len() <= 20 ==> speaker_weight(manifest, turns, s, k, manifest.len() as int) <= (i64::MAX as int)
                / ((speakers.len() + 1) as int)
        }
}

/// `result` is the alignment of the meeting over the ascending speakers
/// `gt` (reference rows), `all_gt` (all rows) and clusters `clusters`.
pub open spec fn alignment_of(
    manifest: Seq<AlignmentRow>,
    turns: Seq<ArtifactTurnSpan>,
    gt: Seq<Seq<char>>,
    all_gt: Seq<Seq<char>>,
    clusters: Seq<Seq<char>>,
    result: SpeakerAlignmentCoverage,
) -> bool {
    let w = weight_matrix(manifest, turns, gt, clusters);
    &&& strictly_sorted(gt)
    &&& gt.to_set() == speaker_set(manifest, manifest.len() as int, true)
    &&& strictly_sorted(all_gt)
    &&& all_gt.to_set() == speaker_set(manifest, manifest.len() as int, false)
    &&& strictly_sorted(clusters)
    &&& clusters.to_set() == cluster_set(turns, turns.len() as int)
    &&& pair_views(result.mapping@) == mapping_pairs(gt, clusters, w, chosen_assignment(w, clusters.len()), gt.len() as int)
    &&& result.mapped_speakers == result.mapping@.len()
    &&& result.total_gt_speakers == all_gt.len()
    &&& views(result.unmapped_gt_speakers@) == unmapped_keys(all_gt, pair_views(result.mapping@))
    &&& result.reference_intervals == reference_count(manifest, manifest.len() as int)
    &&& result.reference_duration_ms == reference_duration(manifest, manifest.len() as int)
}

proof fn lemma_row_overlap_monotone(r: AlignmentRow, turns: Seq<ArtifactTurnSpan>, key: Seq<char>, m: int, m2: int)
    requires
        0 <= m <= m2 <= turns.len(),
    ensures
        0 <= row_overlap(r, turns, key, m) <= row_overlap(r, turns, key, m2),
    decreases m2,
{
    if m2 > m {
        lemma_row_overlap_monotone(r, turns, key, m, m2 - 1);
    } else if m > 0 {
        lemma_row_overlap_monotone(r, turns, key, m - 1, m - 1);
    }
}

proof fn lemma_weight_monotone(
    manifest: Seq<AlignmentRow>,
    turns: Seq<ArtifactTurnSpan>,
    speaker: Seq<char>,
    key: Seq<char>,
    n: int,
    n2: int,
)
    requires
        0 <= n <= n2 <= manifest.len(),
    ensures
        0 <= speaker_weight(manifest, turns, speaker, key, n) <= speaker_weight(manifest, turns, speaker, key, n2),
    decreases n2,
{
    if n2 > n {
        lemma_weight_monotone(manifest, turns, speaker, key, n, n2 - 1);
        lemma_row_overlap_monotone(manifest[n2 - 1], turns, key, 0, turns.len() as int);
    } else if n > 0 {
        lemma_weight_monotone(manifest, turns, speaker, key, n - 1, n - 1);
        lemma_row_overlap_monotone(manifest[n - 1], turns, key, 0, turns.len() as int);
    }
}

/// The distinct speakers of the manifest, ascending; only those of
/// reference rows when `references_only`.
fn sorted_speakers(manifest: &[AlignmentRow], references_only: bool) -> (result: Vec<String>)
    ensures
        strictly_sorted(views(result@)),
        views(result@).to_set() == speaker_set(manifest@, manifest@.len() as int, references_only),
{
    let mut out: Vec<String> = Vec::new();
    let mut i: usize = 0;
    while i < manifest.len()
        invariant
            i <= manifest@.len(),
            strictly_sorted(views(out@)),
            views(out@).to_set() == speaker_set(manifest@, i as int, references_only),
        decreases manifest@.len() - i,
    {
        let r = &manifest[i];
        if r.is_reference || !references_only {
            match &r.speaker {
                Some(s) => {
                    insert_sorted(&mut out, owned(s.as_str()));
                },
                None => {},
            }
        }
        i += 1;
    }
    out
}

/// The distinct cluster keys of `turns`, ascending.
fn sorted_clusters(turns: &[ArtifactTurnSpan]) -> (result: Vec<String>)
    ensures
        strictly_sorted(views(result@)),
        views(result@).to_set() == cluster_set(turns@, turns@.len() as int),
{
    let mut out: Vec<String> = Vec::new();
    let mut i: usize = 0;
    while i < turns.len()
        invariant
            i <= turns@.len(),
            strictly_sorted(views(out@)),
            views(out@).to_set() == cluster_set(turns@, i as int),
        decreases turns@.len() - i,
    {
        insert_sorted(&mut out, owned(turns[i].speaker_key.as_str()));
        i += 1;
    }
    out
}

/// The weight of `speaker` on cluster `key`.
fn weight_of(manifest: &[AlignmentRow], turns: &[ArtifactTurnSpan], speaker: &str, key: &str) -> (result: i64)
    requires
        speaker_weight(manifest@, turns@, speaker@, key@, manifest@.len() as int) <= i64::MAX,
    ensures
        result == speaker_weight(manifest@, turns@, speaker@, key@, manifest@.len() as int),
{
    let ghost total = speaker_weight(manifest@, turns@, speaker@, key@, manifest@.len() as int);
    let mut acc: i64 = 0;
    let mut n: usize = 0;
    while n < manifest.len()
        invariant
            n <= manifest@.len(),
            total == speaker_weight(manifest@, turns@, speaker@, key@, manifest@.len() as int),
            total <= i64::MAX,
            acc == speaker_weight(manifest@, turns@, speaker@, key@, n as int),
        decreases manifest@.len() - n,
    {
        proof {
            lemma_weight_monotone(manifest@, turns@, speaker@, key@, n + 1, manifest@.len() as int);
            lemma_weight_monotone(manifest@, turns@, speaker@, key@, n as int, n + 1);
        }
        let r = &manifest[n];
        let is_ref = r.is_reference && match &r.speaker {
            Some(s) => str_eq(s.as_str(), speaker),
            None => false,
        };
        if is_ref {
            let ghost cap = speaker_weight(manifest@, turns@, speaker@, key@, n + 1);
            let mut m: usize = 0;
            while m < turns.len()
                invariant
                    n < manifest@.len(),
                    m <= turns@.len(),
                    *r == manifest@[n as int],
                    is_reference_of(*r, speaker@),
                    cap == speaker_weight(manifest@, turns@, speaker@, key@, n + 1),
                    cap <= i64::MAX,
                    cap == speaker_weight(manifest@, turns@, speaker@, key@, n as int) + row_overlap(
                        *r,
                        turns@,
                        key@,
                        turns@.len() as int,
                    ),
                    acc == speaker_weight(manifest@, turns@, speaker@, key@, n as int) + row_overlap(*r, turns@, key@, m as int),
                decreases turns@.len() - m,
            {
                proof {
                    lemma_row_overlap_monotone(*r, turns@, key@, m + 1, turns@.len() as int);
                    lemma_row_overlap_monotone(*r, turns@, key@, m as int, m + 1);
                    lemma_weight_monotone(manifest@, turns@, speaker@, key@, 0, n as int);
                }
                let t = &turns[m];
                if str_eq(t.speaker_key.as_str(), key) {
                    let end: i128 = if r.end_ms < t.end_ms {
                        r.end_ms as i128
                    } else {
                        t.end_ms as i128
                    };
                    let start: i128 = if r.start_ms > t.start_ms {
                        r.start_ms as i128
                    } else {
                        t.start_ms as i128
                    };
                    if end - start > 0 {
                        assert(turns@[m as int] == *t);
                        let d = (end - start) as i64;
                        acc = acc + d;
                    }
                }
                m += 1;
            }
        }
        n += 1;
    }
    acc
}


/// The weight of every speaker of `gt` on every cluster of `clusters`.
fn weights_of(
    manifest: &[AlignmentRow],
    turns: &[ArtifactTurnSpan],
    gt: &Vec<String>,
    clusters: &Vec<String>,
) -> (result: Vec<Vec<i64>>)
    requires
        forall|i: int, c: int|
            0 <= i < gt@.len() && 0 <= c < clusters@.len() ==> speaker_weight(
                manifest@,
                turns@,
                #[trigger] gt@[i]@,
                #[trigger] clusters@[c]@,
                manifest@.len() as int,
            ) <= i64::MAX,
    ensures
        rows(result@) == weight_matrix(manifest@, turns@, views(gt@), views(clusters@)),
{
    let ghost w = weight_matrix(manifest@, turns@, views(gt@), views(clusters@));
    let mut out: Vec<Vec<i64>> = Vec::new();
    let mut i: usize = 0;
    while i < gt.len()
        invariant
            i <= gt@.len(),
            w == weight_matrix(manifest@, turns@, views(gt@), views(clusters@)),
            forall|a: int, c: int|
                0 <= a < gt@.len() && 0 <= c < clusters@.len() ==> speaker_weight(
                    manifest@,
                    turns@,
                    #[trigger] gt@[a]@,
                    #[trigger] clusters@[c]@,
                    manifest@.len() as int,
                ) <= i64::MAX,
            out@.len() == i,
            forall|a: int| 0 <= a < i ==> (#[trigger] out@[a])@ == w[a],
        decreases gt@.len() - i,
    {
        let mut row: Vec<i64> = Vec::new();
        let mut c: usize = 0;
        while c < clusters.len()
            invariant
                i < gt@.len(),
                c <= clusters@.len(),
                w == weight_matrix(manifest@, turns@, views(gt@), views(clusters@)),
                forall|a: int, c2: int|
                    0 <= a < gt@.len() && 0 <= c2 < clusters@.len() ==> speaker_weight(
                        manifest@,
                        turns@,
                        #[trigger] gt@[a]@,
                        #[trigger] clusters@[c2]@,
                        manifest@.len() as int,
                    ) <= i64::MAX,
                row@.len() == c,
                forall|b: int| 0 <= b < c ==> #[trigger] row@[b] == w[i as int][b],
            decreases clusters@.len() - c,
        {
            let v = weight_of(manifest, turns, gt[i].as_str(), clusters[c].as_str());
            proof {
                lemma_weight_monotone(manifest@, turns@, gt@[i as int]@, clusters@[c as int]@, 0, manifest@.len() as int);
            }
            row.push(v);
            c += 1;
        }
        assert(row@ =~= w[i as int]);
        out.push(row);
        i += 1;
    }
    assert(rows(out@) =~= w);
    out
}

/// The pairs of the assignment with positive weight, in speaker order.
fn mapping_of(gt: &Vec<String>, clusters: &Vec<String>, weights: &Vec<Vec<i64>>, a: &Vec<Option<usize>>) -> (result: Vec<
    (String, String),
>)
    requires
        a@.len() == gt@.len(),
        weights@.len() == gt@.len(),
        forall|i: int| 0 <= i < weights@.len() ==> (#[trigger] weights@[i])@.len() == clusters@.len(),
    ensures
        pair_views(result@) == mapping_pairs(views(gt@), views(clusters@), rows(weights@), a@, gt@.len() as int),
{
    let mut out: Vec<(String, String)> = Vec::new();
    let mut i: usize = 0;
    while i < gt.len()
        invariant
            i <= gt@.len(),
            a@.len() == gt@.len(),
            weights@.len() == gt@.len(),
            forall|k: int| 0 <= k < weights@.len() ==> (#[trigger] weights@[k])@.len() == clusters@.len(),
            pair_views(out@) == mapping_pairs(views(gt@), views(clusters@), rows(weights@), a@, i as int),
        decreases gt@.len() - i,
    {
        let ghost before = out@;
        match a[i] {
            Some(c) => {
                if c < clusters.len() && weights[i][c] > 0 {
                    out.push((owned(gt[i].as_str()), owned(clusters[c].as_str())));
                    assert(pair_views(out@) =~= pair_views(before).push((gt@[i as int]@, clusters@[c as int]@)));
                }
            },
            None => {},
        }
        i += 1;
    }
    out
}

/// The speakers of `all_gt` that `mapping` leaves unmapped, in order.
fn unmapped_of(all_gt: &Vec<String>, mapping: &Vec<(String, String)>) -> (result: Vec<String>)
    ensures
        views(result@) == unmapped_keys(views(all_gt@), pair_views(mapping@)),
{
    let ghost o = views(all_gt@);
    let ghost m = pair_views(mapping@);
    let mut out: Vec<String> = Vec::new();
    let mut i: usize = 0;
    while i < all_gt.len()
        invariant
            i <= all_gt@.len(),
            o == views(all_gt@),
            m == pair_views(mapping@),
            views(out@) == unmapped_keys(o.subrange(0, i as int), m),
        decreases all_gt@.len() - i,
    {
        assert(o.subrange(0, i + 1).drop_last() =~= o.subrange(0, i as int));
        assert(o.subrange(0, i + 1).last() == all_gt@[i as int]@);
        if lookup_str(mapping, all_gt[i].as_str()).is_none() {
            out.push(owned(all_gt[i].as_str()));
            assert(views(out@) =~= unmapped_keys(o.subrange(0, i + 1), m));
        }
        i += 1;
    }
    assert(o.subrange(0, all_gt@.len() as int) =~= o);
    out
}

/// How many reference rows there are, and their summed length.
fn reference_totals(manifest: &[AlignmentRow]) -> (result: (usize, i64))
    requires
        forall|n: int| 0 <= n <= manifest@.len() ==> i64::MIN <= #[trigger] reference_duration(manifest@, n) <= i64::MAX,
    ensures
        result.0 == reference_count(manifest@, manifest@.len() as int),
        result.1 == reference_duration(manifest@, manifest@.len() as int),
{
    let mut count: usize = 0;
    let mut total: i64 = 0;
    let mut i: usize = 0;
    while i < manifest.len()
        invariant
            i <= manifest@.len(),
            forall|n: int| 0 <= n <= manifest@.len() ==> i64::MIN <= #[trigger] reference_duration(manifest@, n) <= i64::MAX,
            count == reference_count(manifest@, i as int),
            count <= i,
            total == reference_duration(manifest@, i as int),
        decreases manifest@.len() - i,
    {
        let r = &manifest[i];
        if r.is_reference {
            count += 1;
            assert(i64::MIN <= reference_duration(manifest@, i + 1) <= i64::MAX);
            let next: i128 = total as i128 + (r.end_ms as i128 - r.start_ms as i128);
            total = next as i64;
        }
        i += 1;
    }
    (count, total)
}

/// Aligns one meeting's ground-truth speakers with the diarizer's clusters:
/// the reference rows' speakers and the clusters, each ascending, weigh
/// each pair by shared time; the best one-to-one assignment is searched
/// where there are at most 20 clusters, and a pair maps only with positive
/// weight. Also reports every speaker of the meeting left unmapped and the
/// reference rows' count and summed length.
pub fn align_meeting_speakers(manifest: &[AlignmentRow], turns: &[ArtifactTurnSpan]) -> (result: SpeakerAlignmentCoverage)
    requires
        weights_fit(manifest@, turns@),
        forall|n: int| 0 <= n <= manifest@.len() ==> i64::MIN <= #[trigger] reference_duration(manifest@, n) <= i64::MAX,
    ensures
        exists|gt: Seq<Seq<char>>, all_gt: Seq<Seq<char>>, clusters: Seq<Seq<char>>|
            #[trigger] alignment_of(manifest@, turns@, gt, all_gt, clusters, result),
{
    let gt = sorted_speakers(manifest, true);
    let all_gt = sorted_speakers(manifest, false);
    let clusters = sorted_clusters(turns);
    let ghost g = views(gt@);
    let ghost k = views(clusters@);
    let ghost speakers = speaker_set(manifest@, manifest@.len() as int, true);
    let ghost cset = cluster_set(turns@, turns@.len() as int);
    proof {
        lemma_sorted_no_duplicates(g);
        g.unique_seq_to_set();
        lemma_sorted_no_duplicates(k);
        k.unique_seq_to_set();
        assert forall|i: int, c: int| 0 <= i < gt@.len() && 0 <= c < clusters@.len() implies speaker_weight(
            manifest@,
            turns@,
            #[trigger] gt@[i]@,
            #[trigger] clusters@[c]@,
            manifest@.len() as int,
        ) <= i64::MAX && (cset.len() <= 20 ==> speaker_weight(manifest@, turns@, gt@[i]@, clusters@[c]@, manifest@.len() as int)
            <= (i64::MAX as int) / ((speakers.len() + 1) as int)) by {
            assert(g.to_set().contains(g[i]));
            assert(k.to_set().contains(k[c]));
        }
    }
    let weights = weights_of(manifest, turns, &gt, &clusters);
    let ghost w = rows(weights@);
    proof {
        assert(w == weight_matrix(manifest@, turns@, g, k));
        assert forall|i: int| 0 <= i < weights@.len() implies (#[trigger] weights@[i])@.len() == clusters@.len() by {
            assert(w[i] == weights@[i]@);
            assert(w[i].len() == k.len());
        }
    }
    let assignment: Vec<Option<usize>> = if clusters.len() <= 20 {
        proof {
            assert forall|i: int| 0 <= i < w.len() implies #[trigger] w[i].len() <= 64 by {}
            assert forall|i: int, c: int| 0 <= i < w.len() && 0 <= c < w[i].len() implies -crate::evaluation::alignment::weight_bound(w)
                <= #[trigger] w[i][c] <= crate::evaluation::alignment::weight_bound(w) by {
                lemma_weight_monotone(manifest@, turns@, g[i], k[c], 0, manifest@.len() as int);
                assert(gt@[i]@ == g[i]);
                assert(clusters@[c]@ == k[c]);
            }
        }
        maximum_weight_assignment(weights.as_slice())
    } else {
        let mut none: Vec<Option<usize>> = Vec::new();
        let mut i: usize = 0;
        while i < gt.len()
            invariant
                i <= gt@.len(),
                none@.len() == i,
                forall|a: int| 0 <= a < i ==> none@[a] is None,
            decreases gt@.len() - i,
        {
            none.push(None);
            i += 1;
        }
        assert(none@ =~= Seq::new(w.len(), |i: int| None));
        none
    };
    proof {
        if clusters.len() <= 20 {
            crate::evaluation::alignment::lemma_solve(w, 0, 0);
        }
    }
    let mapping = mapping_of(&gt, &clusters, &weights, &assignment);
    let unmapped = unmapped_of(&all_gt, &mapping);
    let (reference_intervals, reference_duration_ms) = reference_totals(manifest);
    let result = SpeakerAlignmentCoverage {
        mapped_speakers: mapping.len(),
        total_gt_speakers: all_gt.len(),
        unmapped_gt_speakers: unmapped,
        reference_intervals,
        reference_duration_ms,
        mapping,
    };
    proof {
        assert(alignment_of(manifest@, turns@, g, views(all_gt@), k, result));
    }
    result
}

/// A ground-truth speaker renamed through the alignment: its cluster key,
/// or `None` where the speaker is unmapped.
pub fn mapped_speaker(mapping: &Vec<(String, String)>, speaker: &Option<String>) -> (result: Option<String>)
    ensures
        match speaker {
            Some(s) => match lookup(pair_views(mapping@), s@) {
                Some(v) => result matches Some(r) && r@ == v,
                None => result is None,
            },
            None => result is None,
        },
{
    match speaker {
        Some(s) => match lookup_str(mapping, s.as_str()) {
            Some(v) => Some(owned(v.as_str())),
            None => None,
        },
        None => None,
    }
}

/// Each speaker renamed through the alignment where it is mapped, and kept
/// as it is otherwise.
pub fn rename_mapped(mapping: &Vec<(String, String)>, speakers: &Vec<String>) -> (result: Vec<String>)
    ensures
        result@.len() == speakers@.len(),
        forall|i: int|
            0 <= i < speakers@.len() ==> (#[trigger] result@[i])@ == match lookup(pair_views(mapping@), speakers@[i]@) {
                Some(v) => v,
                None => speakers@[i]@,
            },
{
    let mut out: Vec<String> = Vec::new();
    let mut i: usize = 0;
    while i < speakers.len()
        invariant
            i <= speakers@.len(),
            out@.len() == i,
            forall|a: int|
                0 <= a < i ==> (#[trigger] out@[a])@ == match lookup(pair_views(mapping@), speakers@[a]@) {
                    Some(v) => v,
                    None => speakers@[a]@,
                },
        decreases speakers@.len() - i,
    {
        match lookup_str(mapping, speakers[i].as_str()) {
            Some(v) => out.push(owned(v.as_str())),
            None => out.push(owned(speakers[i].as_str())),
        }
        i += 1;
    }
    out
}


/// Each pair of `mapping_pairs(.., n)` is some speaker `k < n` with the
/// cluster the assignment gives it.
proof fn lemma_mapping_pair_origin(
    gt: Seq<Seq<char>>,
    clusters: Seq<Seq<char>>,
    w: Seq<Seq<i64>>,
    a: Seq<Option<usize>>,
    n: int,
    p: int,
)
    requires
        0 <= n <= a.len(),
        0 <= p < mapping_pairs(gt, clusters, w, a, n).len(),
    ensures
        exists|k: int|
            0 <= k < n && #[trigger] a[k] is Some && (a[k]->0 as int) < clusters.len() && mapping_pairs(gt, clusters, w, a, n)[p] == (
                gt[k],
                clusters[a[k]->0 as int],
            ),
    decreases n,
{
    let prev = mapping_pairs(gt, clusters, w, a, n - 1);
    if p < prev.len() {
        lemma_mapping_pair_origin(gt, clusters, w, a, n - 1, p);
        let k = choose|k: int|
            0 <= k < n - 1 && #[trigger] a[k] is Some && (a[k]->0 as int) < clusters.len() && prev[p] == (
                gt[k],
                clusters[a[k]->0 as int],
            );
        assert(mapping_pairs(gt, clusters, w, a, n)[p] == prev[p]);
        assert(a[k] is Some);
    } else {
        assert(a[n - 1] is Some);
    }
}

/// No two pairs share a first or a second component.
pub open spec fn pairs_distinct(ps: Seq<(Seq<char>, Seq<char>)>) -> bool {
    forall|i: int, j: int| 0 <= i < j < ps.len() ==> #[trigger] ps[i].0 != #[trigger] ps[j].0 && ps[i].1 != ps[j].1
}

/// Distinct speakers and distinct clusters, with no cluster assigned twice,
/// give pairs that repeat neither a speaker nor a cluster.
proof fn lemma_mapping_pairs_distinct(
    gt: Seq<Seq<char>>,
    clusters: Seq<Seq<char>>,
    w: Seq<Seq<i64>>,
    a: Seq<Option<usize>>,
    n: int,
)
    requires
        0 <= n <= a.len(),
        a.len() <= gt.len(),
        gt.no_duplicates(),
        clusters.no_duplicates(),
        forall|k1: int, k2: int|
            0 <= k1 < a.len() && 0 <= k2 < a.len() && k1 != k2 && #[trigger] a[k1] is Some && #[trigger] a[k2] is Some
                ==> a[k1]->0 != a[k2]->0,
    ensures
        pairs_distinct(mapping_pairs(gt, clusters, w, a, n)),
    decreases n,
{
    if n > 0 {
        lemma_mapping_pairs_distinct(gt, clusters, w, a, n - 1);
        let prev = mapping_pairs(gt, clusters, w, a, n - 1);
        let cur = mapping_pairs(gt, clusters, w, a, n);
        if cur.len() > prev.len() {
            assert(a[n - 1] is Some);
            let c = a[n - 1]->0 as int;
            assert(c < clusters.len() && w[n - 1][c] > 0);
            assert(cur == prev.push((gt[n - 1], clusters[c])));
            assert forall|i: int, j: int| 0 <= i < j < cur.len() implies #[trigger] cur[i].0 != #[trigger] cur[j].0 && cur[i].1 != cur[j].1 by {
                assert(pairs_distinct(prev));
                if j == prev.len() {
                    lemma_mapping_pair_origin(gt, clusters, w, a, n - 1, i);
                    let k = choose|k: int|
                        0 <= k < n - 1 && #[trigger] a[k] is Some && (a[k]->0 as int) < clusters.len() && prev[i] == (
                            gt[k],
                            clusters[a[k]->0 as int],
                        );
                    assert(cur[i] == prev[i]);
                    assert(cur[j] == (gt[n - 1], clusters[c]));
                    assert(a[k] is Some && a[n - 1] is Some);
                    assert(a[k]->0 != a[n - 1]->0);
                    assert(gt[k] != gt[n - 1]);
                    assert(clusters[a[k]->0 as int] != clusters[c]);
                } else {
                    assert(cur[i] == prev[i]);
                    assert(cur[j] == prev[j]);
                    assert(prev[i].0 != prev[j].0 && prev[i].1 != prev[j].1);
                }
            }
        } else {
            assert(cur == prev);
        }
    }
}

/// The alignment is one-to-one: no ground-truth speaker is mapped twice and
/// no cluster stands for two speakers.
pub proof fn law_alignment_one_to_one(
    manifest: Seq<AlignmentRow>,
    turns: Seq<ArtifactTurnSpan>,
    gt: Seq<Seq<char>>,
    all_gt: Seq<Seq<char>>,
    clusters: Seq<Seq<char>>,
    result: SpeakerAlignmentCoverage,
)
    requires
        alignment_of(manifest, turns, gt, all_gt, clusters, result),
    ensures
        forall|i: int, j: int|
            0 <= i < j < result.mapping@.len() ==> #[trigger] result.mapping@[i].0@ != #[trigger] result.mapping@[j].0@
                && result.mapping@[i].1@ != result.mapping@[j].1@,
{
    let w = weight_matrix(manifest, turns, gt, clusters);
    let a = chosen_assignment(w, clusters.len());
    let m = pair_views(result.mapping@);
    lemma_sorted_no_duplicates(gt);
    lemma_sorted_no_duplicates(clusters);
    if clusters.len() <= 20 {
        assert(narrow(w));
        crate::evaluation::alignment::lemma_solve(w, 0, 0);
        assert(valid(w, 0, 0, a));
    } else {
        assert forall|k1: int, k2: int|
            0 <= k1 < a.len() && 0 <= k2 < a.len() && k1 != k2 && #[trigger] a[k1] is Some && #[trigger] a[k2] is Some
                implies a[k1]->0 != a[k2]->0 by {}
    }
    lemma_mapping_pairs_distinct(gt, clusters, w, a, gt.len() as int);
    assert forall|i: int, j: int| 0 <= i < j < result.mapping@.len() implies #[trigger] result.mapping@[i].0@
        != #[trigger] result.mapping@[j].0@ && result.mapping@[i].1@ != result.mapping@[j].1@ by {
        let mp = mapping_pairs(gt, clusters, w, a, gt.len() as int);
        assert(m == mp);
        assert(pairs_distinct(mp));
        assert(mp[i].0 != mp[j].0 && mp[i].1 != mp[j].1);
        assert(m[i] == (result.mapping@[i].0@, result.mapping@[i].1@));
        assert(m[j] == (result.mapping@[j].0@, result.mapping@[j].1@));
    }
}

} // verus!
