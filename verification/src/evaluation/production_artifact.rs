//! Production artifacts: versioned, privacy-minimised snapshots of a
//! completed meeting run, and the checks an artifact must pass before any
//! evaluation trusts it.
//!
//! Confidence values and the configuration snapshot hold floating-point
//! numbers; their checks arrive here as booleans and as the configuration
//! check's outcome.
use vstd::prelude::*;
use vstd::utf8::encode_utf8;
use vstd::string::StringSliceAdditionalSpecFns;
use crate::strings::views;
use crate::text::{
    all_ws, char_len, char_slice, concat, decimal, is_blank, owned, starts_with, starts_with_spec,
    str_eq, trim, trim_spec, u64_to_decimal,
};

verus! {

/// The artifact schema this code reads and writes.
pub const ARTIFACT_SCHEMA_VERSION: u32 = 2;

/// An ASR or diarization engine: name, model, and optional version or hash.
#[derive(Debug, Clone)]
pub struct ArtifactBackend {
    pub backend: String,
    pub model: String,
    pub version_or_hash: Option<String>,
}

/// The recording an artifact describes.
#[derive(Debug, Clone)]
pub struct SourceAudioMetadata {
    pub path_hint: Option<String>,
    pub duration_ms: i64,
    pub sha256: Option<String>,
}

/// Invariant counts a production run may have observed; `None` means the
/// run did not instrument that invariant.
#[derive(Debug, Clone, Copy, PartialEq, Eq, Structural)]
pub struct ProductionSafetyObservations {
    pub long_transcript_speaker_corruption_count: Option<usize>,
    pub manual_override_violation_count: Option<usize>,
}

impl Default for ProductionSafetyObservations {
    fn default() -> (result: Self)
        ensures
            result.long_transcript_speaker_corruption_count is None,
            result.manual_override_violation_count is None,
    {
        ProductionSafetyObservations {
            long_transcript_speaker_corruption_count: None,
            manual_override_violation_count: None,
        }
    }
}

/// A transcript row of the artifact; `confidence_valid` says whether its ASR
/// confidence is absent or a finite number in `[0, 1]`.
#[derive(Debug, Clone)]
pub struct ArtifactTranscriptSpan {
    pub id: String,
    pub start_ms: i64,
    pub end_ms: i64,
    pub confidence_valid: bool,
}

/// A raw diarizer turn of the artifact.
#[derive(Debug, Clone)]
pub struct ArtifactTurnSpan {
    pub speaker_key: String,
    pub start_ms: i64,
    pub end_ms: i64,
    pub confidence_valid: bool,
}

/// A voice-activity event of the artifact.
#[derive(Debug, Clone, Copy)]
pub struct ArtifactVadSpan {
    pub start_ms: i64,
    pub end_ms: i64,
    pub confidence_valid: bool,
}

/// What configuration validation reads of a production configuration
/// snapshot. The checks on its floating-point settings arrive decided.
#[derive(Debug, Clone)]
pub struct ProductionConfigFacts {
    pub min_candidate_ms: u64,
    pub very_short_ms: u64,
    pub max_short_turn_ms: u64,
    pub prototype_min_duration_ms: u64,
    pub duration_weight_20_until_ms: u64,
    pub duration_weight_35_until_ms: u64,
    pub duration_weight_55_until_ms: u64,
    pub nearby_gap_ms: u64,
    /// Both confidence thresholds are finite and within [0, 1], and the
    /// weak one is at most the high one.
    pub thresholds_valid: bool,
    pub vad_min_speech_ms: u64,
    pub vad_redemption_ms: u32,
    pub vad_max_candidate_ms: u64,
    /// The speaker-acceptance policy repeats the short-turn configuration
    /// exactly, and its overlap ratio is finite and within [0, 1].
    pub acceptance_consistent: bool,
    pub confident_min_longest_turn_ms: u64,
    pub missing_confidence_min_total_ms: u64,
    pub missing_confidence_min_turns: usize,
    /// Both candidate-matching ratios are finite and within [0, 1].
    pub matching_ratios_valid: bool,
    pub center_tolerance_ms: i64,
    /// Both materialization ratios are finite and within [0, 1].
    pub materialization_ratios_valid: bool,
    pub vad_implementation: String,
    /// The VAD runtime configuration snapshot is a JSON object.
    pub vad_runtime_is_object: bool,
}

/// Why a production configuration snapshot is refused, checked in order:
/// short-turn ranges, candidate VAD, speaker acceptance, matching, then
/// materialization and the VAD runtime.
pub open spec fn config_problem(c: ProductionConfigFacts) -> Option<Seq<char>> {
    if c.min_candidate_ms == 0 || c.very_short_ms == 0 || c.max_short_turn_ms == 0 || c.prototype_min_duration_ms == 0
        || c.duration_weight_20_until_ms == 0 || c.duration_weight_35_until_ms == 0 || c.duration_weight_55_until_ms == 0
        || c.nearby_gap_ms == 0 || c.min_candidate_ms > c.very_short_ms || c.very_short_ms > c.max_short_turn_ms
        || c.duration_weight_20_until_ms > c.duration_weight_35_until_ms
        || c.duration_weight_35_until_ms > c.duration_weight_55_until_ms || !c.thresholds_valid {
        Some("invalid short-turn config ranges or thresholds"@)
    } else if c.vad_min_speech_ms == 0 || c.vad_redemption_ms == 0 || c.vad_max_candidate_ms == 0
        || c.vad_min_speech_ms > c.vad_max_candidate_ms {
        Some("invalid short-candidate VAD config"@)
    } else if !c.acceptance_consistent || c.confident_min_longest_turn_ms == 0 || c.missing_confidence_min_total_ms == 0
        || c.missing_confidence_min_turns == 0 {
        Some("invalid or inconsistent speaker-acceptance config"@)
    } else if !c.matching_ratios_valid || c.center_tolerance_ms < 0 {
        Some("invalid candidate-matching config"@)
    } else if !c.materialization_ratios_valid || all_ws(c.vad_implementation@) || !c.vad_runtime_is_object {
        Some("invalid materialization or VAD runtime config"@)
    } else {
        None
    }
}

/// Validates a production configuration snapshot: every duration setting
/// positive and ordered, every ratio within range, the acceptance policy
/// consistent with the short-turn settings, and a VAD runtime recorded.
pub fn validate_production_config(c: &ProductionConfigFacts) -> (result: Result<(), String>)
    ensures
        match config_problem(*c) {
            None => result is Ok,
            Some(message) => result matches Err(e) && e@ == message,
        },
{
    if c.min_candidate_ms == 0 || c.very_short_ms == 0 || c.max_short_turn_ms == 0 || c.prototype_min_duration_ms == 0
        || c.duration_weight_20_until_ms == 0 || c.duration_weight_35_until_ms == 0 || c.duration_weight_55_until_ms == 0
        || c.nearby_gap_ms == 0 || c.min_candidate_ms > c.very_short_ms || c.very_short_ms > c.max_short_turn_ms
        || c.duration_weight_20_until_ms > c.duration_weight_35_until_ms
        || c.duration_weight_35_until_ms > c.duration_weight_55_until_ms || !c.thresholds_valid {
        return Err(owned("invalid short-turn config ranges or thresholds"));
    }
    if c.vad_min_speech_ms == 0 || c.vad_redemption_ms == 0 || c.vad_max_candidate_ms == 0
        || c.vad_min_speech_ms > c.vad_max_candidate_ms {
        return Err(owned("invalid short-candidate VAD config"));
    }
    if !c.acceptance_consistent || c.confident_min_longest_turn_ms == 0 || c.missing_confidence_min_total_ms == 0
        || c.missing_confidence_min_turns == 0 {
        return Err(owned("invalid or inconsistent speaker-acceptance config"));
    }
    if !c.matching_ratios_valid || c.center_tolerance_ms < 0 {
        return Err(owned("invalid candidate-matching config"));
    }
    if !c.materialization_ratios_valid || is_blank(c.vad_implementation.as_str()) || !c.vad_runtime_is_object {
        return Err(owned("invalid materialization or VAD runtime config"));
    }
    Ok(())
}

/// What artifact validation reads of a meeting production artifact.
#[derive(Debug, Clone)]
pub struct ArtifactFacts {
    pub schema_version: u32,
    pub artifact_id: String,
    pub transcription_run_id: String,
    pub meeting_id: String,
    pub source_audio: SourceAudioMetadata,
    pub created_at: String,
    pub app_commit_sha: String,
    pub asr: ArtifactBackend,
    pub diarization: ArtifactBackend,
    pub production_config: ProductionConfigFacts,
    pub transcripts: Vec<ArtifactTranscriptSpan>,
    pub raw_diarizer_turns: Vec<ArtifactTurnSpan>,
    pub vad_events: Vec<ArtifactVadSpan>,
    pub accepted_speakers: Vec<String>,
    pub visible_speakers: Vec<String>,
}

/// The summary shown when an artifact is inspected.
#[derive(Debug, Clone)]
pub struct ProductionArtifactInspection {
    pub meeting_id: String,
    pub artifact_id: String,
    pub schema_version: u32,
    pub transcription_run_id: String,
    pub duration_ms: i64,
    pub asr_backend: String,
    pub asr_model: String,
    pub diarization_backend: String,
    pub diarization_model: String,
    pub transcript_count: usize,
    pub diarizer_turn_count: usize,
    pub vad_event_count: usize,
}

pub open spec fn is_hex_byte(b: u8) -> bool {
    (48 <= b <= 57) || (65 <= b <= 70) || (97 <= b <= 102)
}

pub open spec fn all_hex_bytes(b: Seq<u8>) -> bool {
    forall|i: int| 0 <= i < b.len() ==> is_hex_byte(#[trigger] b[i])
}

fn bytes_all_hex(b: &[u8]) -> (result: bool)
    ensures
        result == all_hex_bytes(b@),
{
    let mut i: usize = 0;
    while i < b.len()
        invariant
            i <= b@.len(),
            forall|k: int| 0 <= k < i ==> is_hex_byte(#[trigger] b@[k]),
        decreases b@.len() - i,
    {
        let x = b[i];
        if !((48 <= x && x <= 57) || (65 <= x && x <= 70) || (97 <= x && x <= 102)) {
            return false;
        }
        i += 1;
    }
    true
}

/// Forty ASCII hex digits.
pub open spec fn valid_commit_sha_spec(value: Seq<char>) -> bool {
    encode_utf8(value).len() == 40 && all_hex_bytes(encode_utf8(value))
}

pub fn valid_commit_sha(value: &str) -> (result: bool)
    ensures
        result == valid_commit_sha_spec(value@),
{
    let b = value.as_bytes();
    b.len() == 40 && bytes_all_hex(b)
}

/// Absent, or nonblank; and a 64-byte value (after an optional `sha256:`)
/// must be all hex digits.
pub open spec fn valid_version_or_hash_spec(value: Option<Seq<char>>) -> bool {
    match value {
        None => true,
        Some(v) => {
            let t = trim_spec(v);
            let hash = if starts_with_spec(t, "sha256:"@) {
                t.subrange(7, t.len() as int)
            } else {
                t
            };
            t.len() > 0 && (encode_utf8(hash).len() != 64 || all_hex_bytes(encode_utf8(hash)))
        },
    }
}

pub open spec fn opt_str_view(o: Option<&str>) -> Option<Seq<char>> {
    match o {
        Some(s) => Some(s@),
        None => None,
    }
}

pub fn valid_version_or_hash(value: Option<&str>) -> (result: bool)
    ensures
        result == valid_version_or_hash_spec(opt_str_view(value)),
{
    match value {
        None => true,
        Some(v) => {
            let t = trim(v);
            let n = char_len(t.as_str());
            if n == 0 {
                return false;
            }
            proof {
                reveal_strlit("sha256:");
            }
            let hash = if starts_with(t.as_str(), "sha256:") {
                char_slice(t.as_str(), 7, n)
            } else {
                t.as_str()
            };
            let b = hash.as_bytes();
            b.len() != 64 || bytes_all_hex(b)
        },
    }
}

pub open spec fn span_ok(start: i64, end: i64, duration: i64, confidence_valid: bool) -> bool {
    start >= 0 && end > start && end <= duration && confidence_valid
}

/// Every transcript has a nonblank id used once, sound timing inside the
/// recording and a valid confidence; likewise every turn (with a nonblank
/// key) and every VAD event.
pub open spec fn evidence_ok(a: ArtifactFacts) -> bool {
    let d = a.source_audio.duration_ms;
    &&& forall|i: int|
        0 <= i < a.transcripts@.len() ==> {
            let t = #[trigger] a.transcripts@[i];
            !all_ws(t.id@) && span_ok(t.start_ms, t.end_ms, d, t.confidence_valid)
        }
    &&& forall|i: int, j: int|
        0 <= i < j < a.transcripts@.len() ==> (#[trigger] a.transcripts@[i]).id@
            != (#[trigger] a.transcripts@[j]).id@
    &&& forall|i: int|
        0 <= i < a.raw_diarizer_turns@.len() ==> {
            let t = #[trigger] a.raw_diarizer_turns@[i];
            !all_ws(t.speaker_key@) && span_ok(t.start_ms, t.end_ms, d, t.confidence_valid)
        }
    &&& forall|i: int|
        0 <= i < a.vad_events@.len() ==> {
            let e = #[trigger] a.vad_events@[i];
            span_ok(e.start_ms, e.end_ms, d, e.confidence_valid)
        }
}

pub open spec fn trimmed(v: Seq<String>) -> Seq<Seq<char>> {
    v.map_values(|s: String| trim_spec(s@))
}

pub open spec fn turn_keys(turns: Seq<ArtifactTurnSpan>) -> Seq<Seq<char>> {
    turns.map_values(|t: ArtifactTurnSpan| t.speaker_key@)
}

/// Accepted and visible speakers, trimmed, are nonempty and distinct, and
/// every visible speaker is a raw diarizer key or an accepted speaker.
pub open spec fn speakers_ok(a: ArtifactFacts) -> bool {
    let acc = trimmed(a.accepted_speakers@);
    let vis = trimmed(a.visible_speakers@);
    &&& acc.no_duplicates()
    &&& vis.no_duplicates()
    &&& !acc.contains(Seq::<char>::empty())
    &&& !vis.contains(Seq::<char>::empty())
    &&& forall|i: int|
        0 <= i < vis.len() ==> turn_keys(a.raw_diarizer_turns@).contains(#[trigger] vis[i])
            || acc.contains(vis[i])
}

/// The first reason an artifact is refused, in the order the checks run.
pub open spec fn artifact_problem(a: ArtifactFacts, expected_meeting: Option<Seq<char>>) -> Option<Seq<char>> {
    if a.schema_version != ARTIFACT_SCHEMA_VERSION {
        Some(
            "artifact schema "@ + decimal(a.schema_version as nat) + " is unsupported; expected 2"@,
        )
    } else if all_ws(a.artifact_id@) {
        Some("artifact id is missing"@)
    } else if all_ws(a.transcription_run_id@) {
        Some("artifact transcription run id is missing"@)
    } else if all_ws(a.meeting_id@) {
        Some("artifact meeting id is missing"@)
    } else if expected_meeting is Some && a.meeting_id@ != expected_meeting->0 {
        Some(
            "production artifact belongs to meeting '"@ + a.meeting_id@
                + "', but the requested Meeting ID is '"@ + expected_meeting->0 + "'"@,
        )
    } else if all_ws(a.created_at@) {
        Some("artifact creation timestamp is missing"@)
    } else if !valid_commit_sha_spec(a.app_commit_sha@) {
        Some("artifact app commit SHA is missing or invalid"@)
    } else if a.source_audio.duration_ms <= 0 {
        Some("artifact source audio duration must be greater than zero"@)
    } else if all_ws(a.asr.backend@) || all_ws(a.asr.model@) {
        Some("artifact ASR backend or model is missing"@)
    } else if !valid_version_or_hash_spec(opt_view(a.asr.version_or_hash)) {
        Some("artifact ASR version or hash is invalid"@)
    } else if all_ws(a.diarization.backend@) || all_ws(a.diarization.model@) {
        Some("artifact diarization backend or model is missing"@)
    } else if !valid_version_or_hash_spec(opt_view(a.diarization.version_or_hash)) {
        Some("artifact diarization version or hash is invalid"@)
    } else if all_ws(a.production_config.vad_implementation@) || !a.production_config.vad_runtime_is_object {
        Some("artifact VAD implementation or runtime config snapshot is missing"@)
    } else if config_problem(a.production_config) is Some {
        config_problem(a.production_config)
    } else if !evidence_ok(a) {
        Some("artifact contains duplicate transcript ids or invalid full-meeting evidence"@)
    } else if !speakers_ok(a) {
        Some("artifact speaker sets contain empty, duplicate, or unknown keys"@)
    } else {
        None
    }
}

pub open spec fn opt_view(o: Option<String>) -> Option<Seq<char>> {
    match o {
        Some(s) => Some(s@),
        None => None,
    }
}

fn version_ok(value: &Option<String>) -> (result: bool)
    ensures
        result == valid_version_or_hash_spec(opt_view(*value)),
{
    match value {
        Some(v) => valid_version_or_hash(Some(v.as_str())),
        None => valid_version_or_hash(None),
    }
}

fn spans_ok(a: &ArtifactFacts) -> (result: bool)
    ensures
        result == evidence_ok(*a),
{
    let d = a.source_audio.duration_ms;
    let mut i: usize = 0;
    while i < a.transcripts.len()
        invariant
            i <= a.transcripts@.len(),
            d == a.source_audio.duration_ms,
            forall|k: int|
                0 <= k < i ==> {
                    let t = #[trigger] a.transcripts@[k];
                    !all_ws(t.id@) && span_ok(t.start_ms, t.end_ms, d, t.confidence_valid)
                },
            forall|p: int, q: int|
                0 <= p < q < i ==> (#[trigger] a.transcripts@[p]).id@ != (#[trigger] a.transcripts@[q]).id@,
        decreases a.transcripts@.len() - i,
    {
        let t = &a.transcripts[i];
        if is_blank(t.id.as_str()) || !(t.start_ms >= 0 && t.end_ms > t.start_ms && t.end_ms <= d
            && t.confidence_valid) {
            assert(a.transcripts@[i as int] == *t);
            return false;
        }
        let mut j: usize = 0;
        while j < i
            invariant
                i < a.transcripts@.len(),
                j <= i,
                *t == a.transcripts@[i as int],
                forall|p: int| 0 <= p < j ==> a.transcripts@[p].id@ != t.id@,
            decreases i - j,
        {
            if str_eq(a.transcripts[j].id.as_str(), t.id.as_str()) {
                assert(a.transcripts@[j as int].id@ == a.transcripts@[i as int].id@);
                return false;
            }
            j += 1;
        }
        assert(a.transcripts@[i as int] == *t);
        i += 1;
    }
    let mut k: usize = 0;
    while k < a.raw_diarizer_turns.len()
        invariant
            k <= a.raw_diarizer_turns@.len(),
            d == a.source_audio.duration_ms,
            forall|q: int|
                0 <= q < k ==> {
                    let t = #[trigger] a.raw_diarizer_turns@[q];
                    !all_ws(t.speaker_key@) && span_ok(t.start_ms, t.end_ms, d, t.confidence_valid)
                },
        decreases a.raw_diarizer_turns@.len() - k,
    {
        let t = &a.raw_diarizer_turns[k];
        if is_blank(t.speaker_key.as_str()) || !(t.start_ms >= 0 && t.end_ms > t.start_ms && t.end_ms
            <= d && t.confidence_valid) {
            assert(a.raw_diarizer_turns@[k as int] == *t);
            return false;
        }
        assert(a.raw_diarizer_turns@[k as int] == *t);
        k += 1;
    }
    let mut m: usize = 0;
    while m < a.vad_events.len()
        invariant
            m <= a.vad_events@.len(),
            d == a.source_audio.duration_ms,
            forall|q: int|
                0 <= q < m ==> {
                    let e = #[trigger] a.vad_events@[q];
                    span_ok(e.start_ms, e.end_ms, d, e.confidence_valid)
                },
        decreases a.vad_events@.len() - m,
    {
        let e = &a.vad_events[m];
        if !(e.start_ms >= 0 && e.end_ms > e.start_ms && e.end_ms <= d && e.confidence_valid) {
            assert(a.vad_events@[m as int] == *e);
            return false;
        }
        assert(a.vad_events@[m as int] == *e);
        m += 1;
    }
    true
}

fn trim_all(v: &Vec<String>) -> (result: Vec<String>)
    ensures
        views(result@) == trimmed(v@),
{
    let mut out: Vec<String> = Vec::new();
    let mut i: usize = 0;
    while i < v.len()
        invariant
            i <= v@.len(),
            views(out@) == trimmed(v@).subrange(0, i as int),
        decreases v@.len() - i,
    {
        let t = trim(v[i].as_str());
        let ghost before = out@;
        out.push(t);
        proof {
            assert(out@ == before.push(t));
            assert(views(out@) =~= views(before).push(t@));
            assert(trimmed(v@)[i as int] == trim_spec(v@[i as int]@));
            assert(views(out@) =~= trimmed(v@).subrange(0, i + 1));
        }
        i += 1;
    }
    assert(trimmed(v@).subrange(0, v@.len() as int) =~= trimmed(v@));
    out
}

fn distinct_nonempty(v: &Vec<String>) -> (result: bool)
    ensures
        result == (views(v@).no_duplicates() && !views(v@).contains(Seq::<char>::empty())),
{
    let mut i: usize = 0;
    while i < v.len()
        invariant
            i <= v@.len(),
            forall|k: int| 0 <= k < i ==> (#[trigger] views(v@)[k]).len() > 0,
            forall|p: int, q: int| 0 <= p < q < i ==> #[trigger] views(v@)[p] != #[trigger] views(v@)[q],
        decreases v@.len() - i,
    {
        assert(views(v@)[i as int] == v@[i as int]@);
        if char_len(v[i].as_str()) == 0 {
            assert(views(v@)[i as int] =~= Seq::<char>::empty());
            return false;
        }
        let mut j: usize = 0;
        while j < i
            invariant
                i < v@.len(),
                j <= i,
                forall|p: int| 0 <= p < j ==> views(v@)[p] != views(v@)[i as int],
            decreases i - j,
        {
            assert(views(v@)[j as int] == v@[j as int]@);
            assert(views(v@)[i as int] == v@[i as int]@);
            if str_eq(v[j].as_str(), v[i].as_str()) {
                return false;
            }
            j += 1;
        }
        i += 1;
    }
    assert forall|k: int| 0 <= k < views(v@).len() implies views(v@)[k] != Seq::<char>::empty() by {
        assert(views(v@)[k].len() > 0);
    }
    true
}

fn key_in_turns(turns: &Vec<ArtifactTurnSpan>, key: &str) -> (result: bool)
    ensures
        result == turn_keys(turns@).contains(key@),
{
    let mut i: usize = 0;
    while i < turns.len()
        invariant
            i <= turns@.len(),
            forall|k: int| 0 <= k < i ==> turns@[k].speaker_key@ != key@,
        decreases turns@.len() - i,
    {
        if str_eq(turns[i].speaker_key.as_str(), key) {
            assert(turn_keys(turns@)[i as int] == key@);
            return true;
        }
        i += 1;
    }
    assert forall|k: int| 0 <= k < turn_keys(turns@).len() implies turn_keys(turns@)[k] != key@ by {
        assert(turn_keys(turns@)[k] == turns@[k].speaker_key@);
    }
    false
}

fn speaker_sets_ok(a: &ArtifactFacts) -> (result: bool)
    ensures
        result == speakers_ok(*a),
{
    let acc = trim_all(&a.accepted_speakers);
    let vis = trim_all(&a.visible_speakers);
    if !distinct_nonempty(&acc) || !distinct_nonempty(&vis) {
        return false;
    }
    let mut i: usize = 0;
    while i < vis.len()
        invariant
            i <= vis@.len(),
            views(vis@) == trimmed(a.visible_speakers@),
            views(acc@) == trimmed(a.accepted_speakers@),
            forall|k: int|
                0 <= k < i ==> turn_keys(a.raw_diarizer_turns@).contains(#[trigger] views(vis@)[k])
                    || views(acc@).contains(views(vis@)[k]),
        decreases vis@.len() - i,
    {
        assert(views(vis@)[i as int] == vis@[i as int]@);
        if !key_in_turns(&a.raw_diarizer_turns, vis[i].as_str()) && !crate::strings::contains_str(
            &acc,
            vis[i].as_str(),
        ) {
            return false;
        }
        i += 1;
    }
    true
}

/// Validates an artifact before any evaluation reads it.
pub fn validate_artifact(artifact: &ArtifactFacts, expected_meeting: Option<&str>) -> (result: Result<(), String>)
    ensures
        match result {
            Ok(_) => artifact_problem(
                *artifact,
                match expected_meeting {
                    Some(m) => Some(m@),
                    None => None,
                },
            ) is None,
            Err(e) => artifact_problem(
                *artifact,
                match expected_meeting {
                    Some(m) => Some(m@),
                    None => None,
                },
            ) == Some(e@),
        },
{
    let a = artifact;
    if a.schema_version != ARTIFACT_SCHEMA_VERSION {
        let mut msg = owned("artifact schema ");
        let v = u64_to_decimal(a.schema_version as u64);
        msg.append(v.as_str());
        msg.append(" is unsupported; expected 2");
        return Err(msg);
    }
    if is_blank(a.artifact_id.as_str()) {
        return Err(owned("artifact id is missing"));
    }
    if is_blank(a.transcription_run_id.as_str()) {
        return Err(owned("artifact transcription run id is missing"));
    }
    if is_blank(a.meeting_id.as_str()) {
        return Err(owned("artifact meeting id is missing"));
    }
    if let Some(expected) = expected_meeting {
        if !str_eq(a.meeting_id.as_str(), expected) {
            let mut msg = owned("production artifact belongs to meeting '");
            msg.append(a.meeting_id.as_str());
            msg.append("', but the requested Meeting ID is '");
            msg.append(expected);
            msg.append("'");
            return Err(msg);
        }
    }
    if is_blank(a.created_at.as_str()) {
        return Err(owned("artifact creation timestamp is missing"));
    }
    if !valid_commit_sha(a.app_commit_sha.as_str()) {
        return Err(owned("artifact app commit SHA is missing or invalid"));
    }
    if a.source_audio.duration_ms <= 0 {
        return Err(owned("artifact source audio duration must be greater than zero"));
    }
    if is_blank(a.asr.backend.as_str()) || is_blank(a.asr.model.as_str()) {
        return Err(owned("artifact ASR backend or model is missing"));
    }
    if !version_ok(&a.asr.version_or_hash) {
        return Err(owned("artifact ASR version or hash is invalid"));
    }
    if is_blank(a.diarization.backend.as_str()) || is_blank(a.diarization.model.as_str()) {
        return Err(owned("artifact diarization backend or model is missing"));
    }
    if !version_ok(&a.diarization.version_or_hash) {
        return Err(owned("artifact diarization version or hash is invalid"));
    }
    if is_blank(a.production_config.vad_implementation.as_str()) || !a.production_config.vad_runtime_is_object {
        return Err(owned("artifact VAD implementation or runtime config snapshot is missing"));
    }
    if let Err(e) = validate_production_config(&a.production_config) {
        return Err(e);
    }
    if !spans_ok(a) {
        return Err(owned("artifact contains duplicate transcript ids or invalid full-meeting evidence"));
    }
    if !speaker_sets_ok(a) {
        return Err(owned("artifact speaker sets contain empty, duplicate, or unknown keys"));
    }
    Ok(())
}

/// The inspection summary of an artifact.
pub fn inspection_of(artifact: &ArtifactFacts) -> (result: ProductionArtifactInspection)
    ensures
        result.meeting_id@ == artifact.meeting_id@,
        result.artifact_id@ == artifact.artifact_id@,
        result.schema_version == artifact.schema_version,
        result.transcription_run_id@ == artifact.transcription_run_id@,
        result.duration_ms == artifact.source_audio.duration_ms,
        result.asr_backend@ == artifact.asr.backend@,
        result.asr_model@ == artifact.asr.model@,
        result.diarization_backend@ == artifact.diarization.backend@,
        result.diarization_model@ == artifact.diarization.model@,
        result.transcript_count == artifact.transcripts@.len(),
        result.diarizer_turn_count == artifact.raw_diarizer_turns@.len(),
        result.vad_event_count == artifact.vad_events@.len(),
{
    ProductionArtifactInspection {
        meeting_id: owned(artifact.meeting_id.as_str()),
        artifact_id: owned(artifact.artifact_id.as_str()),
        schema_version: artifact.schema_version,
        transcription_run_id: owned(artifact.transcription_run_id.as_str()),
        duration_ms: artifact.source_audio.duration_ms,
        asr_backend: owned(artifact.asr.backend.as_str()),
        asr_model: owned(artifact.asr.model.as_str()),
        diarization_backend: owned(artifact.diarization.backend.as_str()),
        diarization_model: owned(artifact.diarization.model.as_str()),
        transcript_count: artifact.transcripts.len(),
        diarizer_turn_count: artifact.raw_diarizer_turns.len(),
        vad_event_count: artifact.vad_events.len(),
    }
}

/// A diarizer turn as the persisted timeline holds it.
#[derive(Debug, Clone)]
pub struct PersistedTurn {
    pub start_ms: i64,
    pub end_ms: i64,
    pub speaker_key: String,
}

/// Turn `i` overlaps a turn of another speaker.
pub open spec fn overlapped(turns: Seq<PersistedTurn>, i: int) -> bool {
    exists|j: int|
        0 <= j < turns.len() && j != i && (#[trigger] turns[j]).speaker_key@ != turns[i].speaker_key@
            && turns[j].start_ms < turns[i].end_ms && turns[j].end_ms > turns[i].start_ms
}

/// The overlap flag of every persisted turn: the diarizer reports overlap as
/// overlapping turns of different speakers, and the artifact keeps it as a flag.
pub fn overlap_flags(turns: &Vec<PersistedTurn>) -> (result: Vec<bool>)
    ensures
        result@.len() == turns@.len(),
        forall|i: int| 0 <= i < turns@.len() ==> result@[i] == overlapped(turns@, i),
{
    let mut out: Vec<bool> = Vec::new();
    let mut i: usize = 0;
    while i < turns.len()
        invariant
            i <= turns@.len(),
            out@.len() == i,
            forall|k: int| 0 <= k < i ==> out@[k] == overlapped(turns@, k),
        decreases turns@.len() - i,
    {
        let mut found = false;
        let mut j: usize = 0;
        while j < turns.len()
            invariant
                i < turns@.len(),
                j <= turns@.len(),
                found == exists|q: int|
                    0 <= q < j && q != i && (#[trigger] turns@[q]).speaker_key@ != turns@[i as int].speaker_key@
                        && turns@[q].start_ms < turns@[i as int].end_ms && turns@[q].end_ms > turns@[i as int].start_ms,
            decreases turns@.len() - j,
        {
            let other = &turns[j];
            let turn = &turns[i];
            if j != i && !str_eq(other.speaker_key.as_str(), turn.speaker_key.as_str()) && other.start_ms < turn.end_ms
                && other.end_ms > turn.start_ms {
                found = true;
            }
            j += 1;
        }
        out.push(found);
        i += 1;
    }
    out
}

pub open spec fn max_end(ends: Seq<i64>, n: int) -> i64
    decreases n,
{
    if n <= 0 {
        0
    } else if n == 1 {
        ends[0]
    } else if ends[n - 1] > max_end(ends, n - 1) {
        ends[n - 1]
    } else {
        max_end(ends, n - 1)
    }
}

/// The recording length an artifact records: the metadata's length when it
/// has one, but never shorter than the evidence (transcripts, turns and VAD
/// events, all ends together in `ends`: the greatest of them, or 0 when
/// there are none).
pub fn artifact_duration(observed: Option<i64>, ends: &Vec<i64>) -> (result: i64)
    ensures
        result == (match observed {
            Some(d) => if d > max_end(ends@, ends@.len() as int) {
                d
            } else {
                max_end(ends@, ends@.len() as int)
            },
            None => max_end(ends@, ends@.len() as int),
        }),
{
    let mut end: i64 = 0;
    let mut i: usize = 0;
    if ends.len() > 0 {
        end = ends[0];
        i = 1;
    }
    while i < ends.len()
        invariant
            1 <= i <= ends@.len() || (i == 0 && ends@.len() == 0),
            end == max_end(ends@, i as int),
        decreases ends@.len() - i,
    {
        if ends[i] > end {
            end = ends[i];
        }
        i += 1;
    }
    match observed {
        Some(d) => if d > end {
            d
        } else {
            end
        },
        None => end,
    }
}

} // verus!
