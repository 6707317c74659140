//! Frozen utterance ground truth: its types, the structural checks that bind
//! it to one frozen reconstruction artifact, the completion gates, and the
//! meeting-level split between calibration and evaluation.
use vstd::prelude::*;
use crate::strings::views;
use crate::text::{all_ws, concat, is_blank, owned, starts_with, starts_with_spec, str_eq};

verus! {

/// The ground-truth file schema this code reads and writes.
pub const UTTERANCE_GROUND_TRUTH_SCHEMA_VERSION: u32 = 1;

#[derive(Debug, Clone, Copy, PartialEq, Eq, Structural)]
pub enum DatasetSplit {
    Calibration,
    Evaluation,
}

#[derive(Debug, Clone, Copy, PartialEq, Eq, Structural)]
pub enum ScenarioBucket {
    CleanSingleSpeaker,
    SameSpeakerContinuity,
    SameSpeakerBoundary,
    AsrFragmentation,
    VadFragmentation,
    SpeakerHandoff,
    Backchannel,
    ShortSpeech,
    TrueOverlap,
    NoisySpeech,
    Chinese,
    English,
    ChineseEnglishMixed,
    TimingUnavailableFallback,
}

#[derive(Debug, Clone, Copy, PartialEq, Eq, Structural)]
pub enum GtAnnotationStatus {
    Pending,
    ConfirmedBlind,
    Reviewed,
}

impl Default for GtAnnotationStatus {
    fn default() -> (result: Self)
        ensures
            result == GtAnnotationStatus::Pending,
    {
        GtAnnotationStatus::Pending
    }
}

#[derive(Debug, Clone, Copy, PartialEq, Eq, Structural)]
pub enum GtBoundaryKind {
    Utterance,
    SpeakerHandoff,
    ShortSpeech,
}

#[derive(Debug, Clone, Copy, PartialEq, Eq, Structural)]
pub enum AnnotationViewMode {
    Blind,
    Review,
}

#[derive(Debug, Clone, Copy, PartialEq, Eq, Structural)]
pub enum ErrorTaxonomy {
    TimingError,
    DiarizationError,
    AlignmentThresholdError,
    TrueOverlap,
    BackchannelError,
    ShortSpeechError,
    BoundaryOverSegmentation,
    BoundaryUnderSegmentation,
    LexicalGroupingError,
    TimingUnavailable,
    Unknown,
}

#[derive(Debug, Clone)]
pub struct GtSpeaker {
    pub key: String,
    pub description: String,
}

#[derive(Debug, Clone)]
pub struct GtSpeakerInterval {
    pub id: String,
    pub start_ms: i64,
    pub end_ms: i64,
    pub gt_speaker_key: String,
    pub overlap: bool,
    pub uncertain: bool,
    pub status: GtAnnotationStatus,
}

#[derive(Debug, Clone)]
pub struct GtUtteranceBoundary {
    pub id: String,
    pub timestamp_ms: i64,
    pub boundary_kind: GtBoundaryKind,
    pub uncertain: bool,
    pub status: GtAnnotationStatus,
}

#[derive(Debug, Clone)]
pub struct GtUtterance {
    pub id: String,
    pub start_ms: i64,
    pub end_ms: i64,
    pub gt_speaker_key: String,
    pub boundary_start_uncertain: bool,
    pub boundary_end_uncertain: bool,
    pub contains_backchannel: bool,
    pub overlap: bool,
    pub buckets: Vec<ScenarioBucket>,
    pub status: GtAnnotationStatus,
}

#[derive(Debug, Clone)]
pub struct UtteranceGroundTruth {
    pub schema_version: u32,
    pub annotation_version: String,
    pub meeting_id: String,
    pub reconstruction_artifact_id: String,
    pub reconstruction_artifact_sha256: String,
    pub source_audio_sha256: String,
    pub dataset_split: DatasetSplit,
    pub blind_complete: bool,
    pub review_complete: bool,
    pub qa_passed: bool,
    pub speakers: Vec<GtSpeaker>,
    pub speaker_intervals: Vec<GtSpeakerInterval>,
    pub utterances: Vec<GtUtterance>,
    pub boundaries: Vec<GtUtteranceBoundary>,
}

#[derive(Debug, Clone)]
pub struct FrozenFileIdentity {
    pub sha256: String,
    pub duration_ms: Option<i64>,
}

#[derive(Debug, Clone)]
pub struct SourceProductionArtifactIdentity {
    pub artifact_id: String,
    pub sha256: String,
    pub schema_version: u32,
}

/// A row of the ground-truth manifest: one meeting bound to one frozen
/// artifact, its audio, the annotation version and the split.
#[derive(Debug, Clone)]
pub struct UtteranceGroundTruthManifestRow {
    pub meeting_id: String,
    pub reconstruction_artifact_id: String,
    pub artifact_sha256: String,
    pub source_audio_sha256: String,
    pub annotation_version: String,
    pub dataset_split: DatasetSplit,
}

/// What the ground truth is checked against of its frozen reconstruction
/// artifact: the artifact's own validation outcome for this meeting, its id,
/// its integrity hash and its source media.
#[derive(Debug, Clone)]
pub struct FrozenArtifactBinding {
    pub artifact_problem: Option<String>,
    pub artifact_id: String,
    pub integrity_sha256: String,
    pub source_media: FrozenFileIdentity,
}

/// The worst error cases a benchmark reports.
#[derive(Debug, Clone)]
pub struct WorstCase {
    pub meeting_id: String,
    pub category: ErrorTaxonomy,
    pub start_ms: i64,
    pub end_ms: i64,
    pub source_transcript_ids: Vec<String>,
    pub detail: String,
}

/// Requests of the ground-truth commands; paths are carried as strings.
#[derive(Debug, Clone)]
pub struct ExportReconstructionArtifactRequest {
    pub meeting_id: String,
    pub source_production_artifact_path: String,
    pub source_media_path: String,
    pub output_path: String,
}

#[derive(Debug, Clone)]
pub struct RunBenchmarkRequest {
    pub artifact_path: String,
    pub ground_truth_path: String,
    pub output_directory: String,
}

#[derive(Debug, Clone)]
pub struct SaveGroundTruthRequest {
    pub artifact_path: String,
    pub ground_truth_path: String,
    pub ground_truth: UtteranceGroundTruth,
}

#[derive(Debug, Clone)]
pub struct LoadGroundTruthRequest {
    pub artifact_path: String,
    pub ground_truth_path: String,
    pub source_media_path: String,
    pub mode: AnnotationViewMode,
}

#[derive(Debug, Clone)]
pub struct InitializeGroundTruthRequest {
    pub artifact_path: String,
    pub ground_truth_path: String,
    pub dataset_split: DatasetSplit,
}

/// `"{label} is missing"` when `value` is blank.
pub fn require_id(label: &str, value: &str) -> (result: Result<(), String>)
    ensures
        result is Ok <==> !all_ws(value@),
        result matches Err(e) ==> e@ == label@ + " is missing"@,
{
    if is_blank(value) {
        Err(concat(label, " is missing"))
    } else {
        Ok(())
    }
}

pub open spec fn speaker_keys(s: Seq<GtSpeaker>) -> Seq<Seq<char>> {
    s.map_values(|g: GtSpeaker| g.key@)
}

/// Speaker keys are distinct and in the `gt_speaker_` namespace.
pub open spec fn speaker_map_ok(s: Seq<GtSpeaker>) -> bool {
    speaker_keys(s).no_duplicates() && forall|i: int|
        0 <= i < s.len() ==> starts_with_spec(#[trigger] s[i].key@, "gt_speaker_"@)
}

pub open spec fn span_in(start: i64, end: i64, duration: int) -> bool {
    start >= 0 && end > start && end <= duration
}

pub open spec fn interval_ids(v: Seq<GtSpeakerInterval>) -> Seq<Seq<char>> {
    v.map_values(|x: GtSpeakerInterval| x.id@)
}

pub open spec fn utterance_ids(v: Seq<GtUtterance>) -> Seq<Seq<char>> {
    v.map_values(|x: GtUtterance| x.id@)
}

pub open spec fn boundary_ids(v: Seq<GtUtteranceBoundary>) -> Seq<Seq<char>> {
    v.map_values(|x: GtUtteranceBoundary| x.id@)
}

/// The recording's length as the checks use it (unbounded when unknown).
pub open spec fn media_limit(b: FrozenArtifactBinding) -> int {
    match b.source_media.duration_ms {
        Some(d) => d as int,
        None => i64::MAX as int,
    }
}

pub open spec fn intervals_ok(g: UtteranceGroundTruth, limit: int) -> bool {
    let v = g.speaker_intervals@;
    interval_ids(v).no_duplicates() && forall|i: int|
        0 <= i < v.len() ==> span_in((#[trigger] v[i]).start_ms, v[i].end_ms, limit) && speaker_keys(
            g.speakers@,
        ).contains(v[i].gt_speaker_key@)
}

pub open spec fn utterances_ok(g: UtteranceGroundTruth, limit: int) -> bool {
    let v = g.utterances@;
    (interval_ids(g.speaker_intervals@) + utterance_ids(v)).no_duplicates() && forall|i: int|
        0 <= i < v.len() ==> span_in((#[trigger] v[i]).start_ms, v[i].end_ms, limit) && speaker_keys(
            g.speakers@,
        ).contains(v[i].gt_speaker_key@)
}

pub open spec fn boundaries_ok(g: UtteranceGroundTruth, limit: int) -> bool {
    let v = g.boundaries@;
    (interval_ids(g.speaker_intervals@) + utterance_ids(g.utterances@) + boundary_ids(v)).no_duplicates()
        && forall|i: int| 0 <= i < v.len() ==> 0 <= (#[trigger] v[i]).timestamp_ms <= limit
}

/// Everything the structural checks look at before the items.
pub open spec fn header_ok(g: UtteranceGroundTruth, b: FrozenArtifactBinding) -> bool {
    &&& b.artifact_problem is None
    &&& g.schema_version == UTTERANCE_GROUND_TRUTH_SCHEMA_VERSION
    &&& !all_ws(g.annotation_version@)
    &&& g.reconstruction_artifact_id@ == b.artifact_id@
    &&& g.reconstruction_artifact_sha256@ == b.integrity_sha256@
    &&& g.source_audio_sha256@ == b.source_media.sha256@
    &&& !(g.review_complete && !g.blind_complete)
    &&& !(g.qa_passed && !g.review_complete)
    &&& speaker_map_ok(g.speakers@)
}

/// The first structural reason the ground truth is refused, in the order the
/// checks run.
pub open spec fn structure_problem(g: UtteranceGroundTruth, b: FrozenArtifactBinding) -> Option<Seq<char>> {
    if b.artifact_problem is Some {
        Some(b.artifact_problem->0@)
    } else if g.schema_version != UTTERANCE_GROUND_TRUTH_SCHEMA_VERSION {
        Some("unsupported utterance ground-truth schema"@)
    } else if all_ws(g.annotation_version@) {
        Some("annotation_version"@ + " is missing"@)
    } else if g.reconstruction_artifact_id@ != b.artifact_id@ || g.reconstruction_artifact_sha256@
        != b.integrity_sha256@ || g.source_audio_sha256@ != b.source_media.sha256@ {
        Some("ground truth is bound to a different frozen artifact or source media"@)
    } else if g.review_complete && !g.blind_complete {
        Some("Review cannot complete before Blind"@)
    } else if g.qa_passed && !g.review_complete {
        Some("QA cannot pass before Review"@)
    } else if !speaker_map_ok(g.speakers@) {
        Some("ground-truth speaker map is invalid or unstable"@)
    } else if !intervals_ok(g, media_limit(b)) {
        Some("invalid ground-truth speaker interval"@)
    } else if !utterances_ok(g, media_limit(b)) {
        Some("invalid ground-truth utterance"@)
    } else if !boundaries_ok(g, media_limit(b)) {
        Some("invalid ground-truth boundary"@)
    } else {
        None
    }
}

pub open spec fn all_reviewed(g: UtteranceGroundTruth) -> bool {
    &&& forall|i: int| 0 <= i < g.speaker_intervals@.len() ==> (#[trigger] g.speaker_intervals@[i]).status == GtAnnotationStatus::Reviewed
    &&& forall|i: int| 0 <= i < g.utterances@.len() ==> (#[trigger] g.utterances@[i]).status == GtAnnotationStatus::Reviewed
    &&& forall|i: int| 0 <= i < g.boundaries@.len() ==> (#[trigger] g.boundaries@[i]).status == GtAnnotationStatus::Reviewed
}

pub open spec fn none_pending(g: UtteranceGroundTruth) -> bool {
    &&& forall|i: int| 0 <= i < g.speaker_intervals@.len() ==> (#[trigger] g.speaker_intervals@[i]).status != GtAnnotationStatus::Pending
    &&& forall|i: int| 0 <= i < g.utterances@.len() ==> (#[trigger] g.utterances@[i]).status != GtAnnotationStatus::Pending
    &&& forall|i: int| 0 <= i < g.boundaries@.len() ==> (#[trigger] g.boundaries@[i]).status != GtAnnotationStatus::Pending
}

/// Why completed ground truth may not feed a benchmark or an export.
pub open spec fn completion_problem(g: UtteranceGroundTruth, b: FrozenArtifactBinding) -> Option<Seq<char>> {
    match structure_problem(g, b) {
        Some(p) => Some(p),
        None => if !g.blind_complete || !g.review_complete || !g.qa_passed {
            Some("pending annotation blocks benchmark/export"@)
        } else if g.speakers@.len() == 0 || g.speaker_intervals@.len() == 0 || g.utterances@.len() == 0 {
            Some("completed ground truth must contain speakers, speaker intervals, and utterances"@)
        } else if !all_reviewed(g) {
            Some("pending annotation blocks benchmark/export"@)
        } else {
            None
        },
    }
}

/// Why a draft may not be saved: its structure, then pass flags that claim
/// more than the items show.
pub open spec fn draft_problem(g: UtteranceGroundTruth, b: FrozenArtifactBinding) -> Option<Seq<char>> {
    match structure_problem(g, b) {
        Some(p) => Some(p),
        None => if g.blind_complete && !none_pending(g) {
            Some("pending annotation blocks Blind completion"@)
        } else if g.review_complete && !all_reviewed(g) {
            Some("Review completion requires every annotation to be reviewed"@)
        } else if g.qa_passed {
            completion_problem(g, b)
        } else {
            None
        },
    }
}

fn key_listed(speakers: &Vec<GtSpeaker>, key: &str) -> (result: bool)
    ensures
        result == speaker_keys(speakers@).contains(key@),
{
    let mut i: usize = 0;
    while i < speakers.len()
        invariant
            i <= speakers@.len(),
            forall|k: int| 0 <= k < i ==> speakers@[k].key@ != key@,
        decreases speakers@.len() - i,
    {
        if str_eq(speakers[i].key.as_str(), key) {
            assert(speaker_keys(speakers@)[i as int] == key@);
            return true;
        }
        i += 1;
    }
    assert forall|k: int| 0 <= k < speaker_keys(speakers@).len() implies speaker_keys(speakers@)[k] != key@ by {
        assert(speaker_keys(speakers@)[k] == speakers@[k].key@);
    }
    false
}

fn speaker_map_valid(speakers: &Vec<GtSpeaker>) -> (result: bool)
    ensures
        result == speaker_map_ok(speakers@),
{
    let mut i: usize = 0;
    while i < speakers.len()
        invariant
            i <= speakers@.len(),
            forall|k: int| 0 <= k < i ==> starts_with_spec(#[trigger] speakers@[k].key@, "gt_speaker_"@),
            forall|p: int, q: int| 0 <= p < q < i ==> #[trigger] speaker_keys(speakers@)[p] != #[trigger] speaker_keys(speakers@)[q],
        decreases speakers@.len() - i,
    {
        if !starts_with(speakers[i].key.as_str(), "gt_speaker_") {
            return false;
        }
        let mut j: usize = 0;
        while j < i
            invariant
                i < speakers@.len(),
                j <= i,
                forall|p: int| 0 <= p < j ==> speaker_keys(speakers@)[p] != speaker_keys(speakers@)[i as int],
            decreases i - j,
        {
            assert(speaker_keys(speakers@)[j as int] == speakers@[j as int].key@);
            assert(speaker_keys(speakers@)[i as int] == speakers@[i as int].key@);
            if str_eq(speakers[j].key.as_str(), speakers[i].key.as_str()) {
                return false;
            }
            j += 1;
        }
        i += 1;
    }
    true
}

/// The ids seen so far (intervals, then utterances, then boundaries).
fn id_taken(ids: &Vec<String>, id: &str) -> (result: bool)
    ensures
        result == views(ids@).contains(id@),
{
    crate::strings::contains_str(ids, id)
}

impl UtteranceGroundTruth {
    /// The structural checks: the artifact itself, schema, annotation
    /// version, binding to the frozen artifact and audio, pass order, the
    /// speaker map, and every interval, utterance and boundary.
    pub fn validate_structure(&self, binding: &FrozenArtifactBinding) -> (result: Result<(), String>)
        ensures
            match result {
                Ok(_) => structure_problem(*self, *binding) is None,
                Err(e) => structure_problem(*self, *binding) == Some(e@),
            },
    {
        if let Some(p) = &binding.artifact_problem {
            return Err(owned(p.as_str()));
        }
        if self.schema_version != UTTERANCE_GROUND_TRUTH_SCHEMA_VERSION {
            return Err(owned("unsupported utterance ground-truth schema"));
        }
        match require_id("annotation_version", self.annotation_version.as_str()) {
            Err(e) => {
                return Err(e);
            },
            Ok(_) => {},
        }
        if !str_eq(self.reconstruction_artifact_id.as_str(), binding.artifact_id.as_str()) || !str_eq(
            self.reconstruction_artifact_sha256.as_str(),
            binding.integrity_sha256.as_str(),
        ) || !str_eq(self.source_audio_sha256.as_str(), binding.source_media.sha256.as_str()) {
            return Err(owned("ground truth is bound to a different frozen artifact or source media"));
        }
        if self.review_complete && !self.blind_complete {
            return Err(owned("Review cannot complete before Blind"));
        }
        if self.qa_passed && !self.review_complete {
            return Err(owned("QA cannot pass before Review"));
        }
        if !speaker_map_valid(&self.speakers) {
            return Err(owned("ground-truth speaker map is invalid or unstable"));
        }
        let limit: i64 = match binding.source_media.duration_ms {
            Some(d) => d,
            None => i64::MAX,
        };
        let mut ids: Vec<String> = Vec::new();
        let mut i: usize = 0;
        while i < self.speaker_intervals.len()
            invariant
                i <= self.speaker_intervals@.len(),
                limit as int == media_limit(*binding),
                header_ok(*self, *binding),
                views(ids@) == interval_ids(self.speaker_intervals@).subrange(0, i as int),
                views(ids@).no_duplicates(),
                forall|k: int|
                    0 <= k < i ==> span_in((#[trigger] self.speaker_intervals@[k]).start_ms, self.speaker_intervals@[k].end_ms, limit as int)
                        && speaker_keys(self.speakers@).contains(self.speaker_intervals@[k].gt_speaker_key@),
            decreases self.speaker_intervals@.len() - i,
        {
            let it = &self.speaker_intervals[i];
            assert(interval_ids(self.speaker_intervals@)[i as int] == it.id@);
            if id_taken(&ids, it.id.as_str()) || !(it.start_ms >= 0 && it.end_ms > it.start_ms && it.end_ms
                <= limit) || !key_listed(&self.speakers, it.gt_speaker_key.as_str()) {
                proof {
                    if views(ids@).contains(it.id@) {
                        let k = choose|k: int| 0 <= k < views(ids@).len() && views(ids@)[k] == it.id@;
                        assert(interval_ids(self.speaker_intervals@)[k] == interval_ids(self.speaker_intervals@)[i as int]);
                    }
                    assert(self.speaker_intervals@[i as int] == *it);
                }
                return Err(owned("invalid ground-truth speaker interval"));
            }
            let ghost before = views(ids@);
            ids.push(owned(it.id.as_str()));
            proof {
                assert(views(ids@) =~= before.push(it.id@));
                assert(views(ids@) =~= interval_ids(self.speaker_intervals@).subrange(0, i + 1));
                assert(self.speaker_intervals@[i as int] == *it);
            }
            i += 1;
        }
        proof {
            assert(interval_ids(self.speaker_intervals@).subrange(0, i as int) =~= interval_ids(self.speaker_intervals@));
            assert(intervals_ok(*self, limit as int));
        }
        let ghost base = interval_ids(self.speaker_intervals@);
        let mut j: usize = 0;
        while j < self.utterances.len()
            invariant
                j <= self.utterances@.len(),
                limit as int == media_limit(*binding),
                header_ok(*self, *binding),
                intervals_ok(*self, limit as int),
                base == interval_ids(self.speaker_intervals@),
                views(ids@) == base + utterance_ids(self.utterances@).subrange(0, j as int),
                views(ids@).no_duplicates(),
                forall|k: int|
                    0 <= k < j ==> span_in((#[trigger] self.utterances@[k]).start_ms, self.utterances@[k].end_ms, limit as int)
                        && speaker_keys(self.speakers@).contains(self.utterances@[k].gt_speaker_key@),
            decreases self.utterances@.len() - j,
        {
            let it = &self.utterances[j];
            assert(utterance_ids(self.utterances@)[j as int] == it.id@);
            if id_taken(&ids, it.id.as_str()) || !(it.start_ms >= 0 && it.end_ms > it.start_ms && it.end_ms
                <= limit) || !key_listed(&self.speakers, it.gt_speaker_key.as_str()) {
                proof {
                    let all = base + utterance_ids(self.utterances@);
                    assert(views(ids@) =~= all.subrange(0, base.len() + j));
                    if views(ids@).contains(it.id@) {
                        let k = choose|k: int| 0 <= k < views(ids@).len() && views(ids@)[k] == it.id@;
                        assert(all[k] == all[base.len() + j]);
                    }
                    assert(self.utterances@[j as int] == *it);
                }
                return Err(owned("invalid ground-truth utterance"));
            }
            let ghost before = views(ids@);
            ids.push(owned(it.id.as_str()));
            proof {
                assert(views(ids@) =~= before.push(it.id@));
                assert(views(ids@) =~= base + utterance_ids(self.utterances@).subrange(0, j + 1));
                assert(self.utterances@[j as int] == *it);
            }
            j += 1;
        }
        proof {
            assert(utterance_ids(self.utterances@).subrange(0, j as int) =~= utterance_ids(self.utterances@));
            assert(utterances_ok(*self, limit as int));
        }
        let ghost base2 = base + utterance_ids(self.utterances@);
        let mut m: usize = 0;
        while m < self.boundaries.len()
            invariant
                m <= self.boundaries@.len(),
                limit as int == media_limit(*binding),
                header_ok(*self, *binding),
                intervals_ok(*self, limit as int),
                utterances_ok(*self, limit as int),
                base2 == interval_ids(self.speaker_intervals@) + utterance_ids(self.utterances@),
                views(ids@) == base2 + boundary_ids(self.boundaries@).subrange(0, m as int),
                views(ids@).no_duplicates(),
                forall|k: int| 0 <= k < m ==> 0 <= (#[trigger] self.boundaries@[k]).timestamp_ms <= limit,
            decreases self.boundaries@.len() - m,
        {
            let it = &self.boundaries[m];
            assert(boundary_ids(self.boundaries@)[m as int] == it.id@);
            if id_taken(&ids, it.id.as_str()) || it.timestamp_ms < 0 || it.timestamp_ms > limit {
                proof {
                    let all = base2 + boundary_ids(self.boundaries@);
                    assert(views(ids@) =~= all.subrange(0, base2.len() + m));
                    if views(ids@).contains(it.id@) {
                        let k = choose|k: int| 0 <= k < views(ids@).len() && views(ids@)[k] == it.id@;
                        assert(all[k] == all[base2.len() + m]);
                    }
                    assert(self.boundaries@[m as int] == *it);
                }
                return Err(owned("invalid ground-truth boundary"));
            }
            let ghost before = views(ids@);
            ids.push(owned(it.id.as_str()));
            proof {
                assert(views(ids@) =~= before.push(it.id@));
                assert(views(ids@) =~= base2 + boundary_ids(self.boundaries@).subrange(0, m + 1));
                assert(self.boundaries@[m as int] == *it);
            }
            m += 1;
        }
        proof {
            assert(boundary_ids(self.boundaries@).subrange(0, m as int) =~= boundary_ids(self.boundaries@));
        }
        Ok(())
    }
}

fn status_ok(reviewed: bool, s: GtAnnotationStatus) -> (r: bool)
    ensures
        r == (if reviewed {
            s == GtAnnotationStatus::Reviewed
        } else {
            s != GtAnnotationStatus::Pending
        }),
{
    if reviewed {
        s == GtAnnotationStatus::Reviewed
    } else {
        s != GtAnnotationStatus::Pending
    }
}

fn statuses_all(g: &UtteranceGroundTruth, reviewed: bool) -> (result: bool)
    ensures
        result == (if reviewed {
            all_reviewed(*g)
        } else {
            none_pending(*g)
        }),
{
    let mut i: usize = 0;
    while i < g.speaker_intervals.len()
        invariant
            i <= g.speaker_intervals@.len(),
            forall|k: int| 0 <= k < i ==> (if reviewed {
                (#[trigger] g.speaker_intervals@[k]).status == GtAnnotationStatus::Reviewed
            } else {
                g.speaker_intervals@[k].status != GtAnnotationStatus::Pending
            }),
        decreases g.speaker_intervals@.len() - i,
    {
        if !status_ok(reviewed, g.speaker_intervals[i].status) {
            return false;
        }
        i += 1;
    }
    let mut j: usize = 0;
    while j < g.utterances.len()
        invariant
            j <= g.utterances@.len(),
            forall|k: int| 0 <= k < j ==> (if reviewed {
                (#[trigger] g.utterances@[k]).status == GtAnnotationStatus::Reviewed
            } else {
                g.utterances@[k].status != GtAnnotationStatus::Pending
            }),
        decreases g.utterances@.len() - j,
    {
        if !status_ok(reviewed, g.utterances[j].status) {
            return false;
        }
        j += 1;
    }
    let mut m: usize = 0;
    while m < g.boundaries.len()
        invariant
            m <= g.boundaries@.len(),
            forall|k: int| 0 <= k < m ==> (if reviewed {
                (#[trigger] g.boundaries@[k]).status == GtAnnotationStatus::Reviewed
            } else {
                g.boundaries@[k].status != GtAnnotationStatus::Pending
            }),
        decreases g.boundaries@.len() - m,
    {
        if !status_ok(reviewed, g.boundaries[m].status) {
            return false;
        }
        m += 1;
    }
    true
}

impl UtteranceGroundTruth {
    /// Completed ground truth: structurally valid, all three passes done,
    /// nonempty, and every item reviewed.
    pub fn validate(&self, binding: &FrozenArtifactBinding) -> (result: Result<(), String>)
        ensures
            match result {
                Ok(_) => completion_problem(*self, *binding) is None,
                Err(e) => completion_problem(*self, *binding) == Some(e@),
            },
    {
        match self.validate_structure(binding) {
            Err(e) => {
                return Err(e);
            },
            Ok(_) => {},
        }
        if !self.blind_complete || !self.review_complete || !self.qa_passed {
            return Err(owned("pending annotation blocks benchmark/export"));
        }
        if self.speakers.len() == 0 || self.speaker_intervals.len() == 0 || self.utterances.len() == 0 {
            return Err(owned("completed ground truth must contain speakers, speaker intervals, and utterances"));
        }
        if !statuses_all(self, true) {
            return Err(owned("pending annotation blocks benchmark/export"));
        }
        Ok(())
    }

    /// A draft that may be saved: valid structure, and pass flags no further
    /// than the item statuses allow.
    pub fn validate_draft(&self, binding: &FrozenArtifactBinding) -> (result: Result<(), String>)
        ensures
            match result {
                Ok(_) => draft_problem(*self, *binding) is None,
                Err(e) => draft_problem(*self, *binding) == Some(e@),
            },
    {
        match self.validate_structure(binding) {
            Err(e) => {
                return Err(e);
            },
            Ok(_) => {},
        }
        if self.blind_complete && !statuses_all(self, false) {
            return Err(owned("pending annotation blocks Blind completion"));
        }
        if self.review_complete && !statuses_all(self, true) {
            return Err(owned("Review completion requires every annotation to be reviewed"));
        }
        if self.qa_passed {
            return self.validate(binding);
        }
        Ok(())
    }
}

/// The manifest row of completed ground truth, bound to its artifact.
pub fn manifest_row(binding: &FrozenArtifactBinding, ground_truth: &UtteranceGroundTruth) -> (result: Result<UtteranceGroundTruthManifestRow, String>)
    ensures
        match result {
            Ok(row) => completion_problem(*ground_truth, *binding) is None && row.meeting_id@
                == ground_truth.meeting_id@ && row.reconstruction_artifact_id@ == binding.artifact_id@
                && row.artifact_sha256@ == binding.integrity_sha256@ && row.source_audio_sha256@
                == binding.source_media.sha256@ && row.annotation_version@
                == ground_truth.annotation_version@ && row.dataset_split == ground_truth.dataset_split,
            Err(e) => completion_problem(*ground_truth, *binding) == Some(e@),
        },
{
    match ground_truth.validate(binding) {
        Err(e) => Err(e),
        Ok(_) => Ok(
            UtteranceGroundTruthManifestRow {
                meeting_id: owned(ground_truth.meeting_id.as_str()),
                reconstruction_artifact_id: owned(binding.artifact_id.as_str()),
                artifact_sha256: owned(binding.integrity_sha256.as_str()),
                source_audio_sha256: owned(binding.source_media.sha256.as_str()),
                annotation_version: owned(ground_truth.annotation_version.as_str()),
                dataset_split: ground_truth.dataset_split,
            },
        ),
    }
}

pub open spec fn rows_in(rows: Seq<UtteranceGroundTruthManifestRow>, split: DatasetSplit) -> bool {
    forall|i: int| 0 <= i < rows.len() ==> (#[trigger] rows[i]).dataset_split == split
}

pub open spec fn row_meetings(rows: Seq<UtteranceGroundTruthManifestRow>) -> Seq<Seq<char>> {
    rows.map_values(|r: UtteranceGroundTruthManifestRow| r.meeting_id@)
}

/// Calibration and evaluation rows sit in their own partitions and share no meeting.
pub open spec fn split_problem(
    calibration: Seq<UtteranceGroundTruthManifestRow>,
    evaluation: Seq<UtteranceGroundTruthManifestRow>,
) -> Option<Seq<char>> {
    if !rows_in(calibration, DatasetSplit::Calibration) || !rows_in(evaluation, DatasetSplit::Evaluation) {
        Some("dataset split manifest contains a row in the wrong partition"@)
    } else if exists|i: int|
        0 <= i < evaluation.len() && row_meetings(calibration).contains(#[trigger] evaluation[i].meeting_id@) {
        Some("calibration and evaluation sets overlap at meeting level"@)
    } else {
        None
    }
}

fn all_in(rows: &[UtteranceGroundTruthManifestRow], split: DatasetSplit) -> (result: bool)
    ensures
        result == rows_in(rows@, split),
{
    let mut i: usize = 0;
    while i < rows.len()
        invariant
            i <= rows@.len(),
            forall|k: int| 0 <= k < i ==> (#[trigger] rows@[k]).dataset_split == split,
        decreases rows@.len() - i,
    {
        if rows[i].dataset_split != split {
            return false;
        }
        i += 1;
    }
    true
}

fn meeting_listed(rows: &[UtteranceGroundTruthManifestRow], meeting: &str) -> (result: bool)
    ensures
        result == row_meetings(rows@).contains(meeting@),
{
    let mut i: usize = 0;
    while i < rows.len()
        invariant
            i <= rows@.len(),
            forall|k: int| 0 <= k < i ==> rows@[k].meeting_id@ != meeting@,
        decreases rows@.len() - i,
    {
        if str_eq(rows[i].meeting_id.as_str(), meeting) {
            assert(row_meetings(rows@)[i as int] == meeting@);
            return true;
        }
        i += 1;
    }
    assert forall|k: int| 0 <= k < row_meetings(rows@).len() implies row_meetings(rows@)[k] != meeting@ by {
        assert(row_meetings(rows@)[k] == rows@[k].meeting_id@);
    }
    false
}

/// Calibration tunes, evaluation measures: no meeting may be in both.
pub fn validate_meeting_level_split(
    calibration: &[UtteranceGroundTruthManifestRow],
    evaluation: &[UtteranceGroundTruthManifestRow],
) -> (result: Result<(), String>)
    ensures
        match result {
            Ok(_) => split_problem(calibration@, evaluation@) is None,
            Err(e) => split_problem(calibration@, evaluation@) == Some(e@),
        },
{
    if !all_in(calibration, DatasetSplit::Calibration) || !all_in(evaluation, DatasetSplit::Evaluation) {
        return Err(owned("dataset split manifest contains a row in the wrong partition"));
    }
    let mut i: usize = 0;
    while i < evaluation.len()
        invariant
            i <= evaluation@.len(),
            rows_in(calibration@, DatasetSplit::Calibration),
            rows_in(evaluation@, DatasetSplit::Evaluation),
            forall|k: int| 0 <= k < i ==> !row_meetings(calibration@).contains(#[trigger] evaluation@[k].meeting_id@),
        decreases evaluation@.len() - i,
    {
        if meeting_listed(calibration, evaluation[i].meeting_id.as_str()) {
            return Err(owned("calibration and evaluation sets overlap at meeting level"));
        }
        i += 1;
    }
    Ok(())
}

} // verus!
