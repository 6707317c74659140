//! Domain types shared by capture, offline diarization and transcript fusion,
//! with their stable database labels.

use vstd::prelude::*;
use crate::text::str_eq;

verus! {

/// The audio a timeline or transcript assignment describes.
#[derive(Debug, Clone, Copy, PartialEq, Eq, Structural)]
pub enum AudioSource {
    Microphone,
    System,
    Imported,
    Mixed,
}

/// What kind of sound a segment or short event is.
#[derive(Debug, Clone, Copy, PartialEq, Eq, Structural)]
pub enum SegmentKind {
    Speech,
    Backchannel,
    Noise,
    NonSpeechVocalization,
    Unknown,
}

/// Who decided a speaker assignment.
#[derive(Debug, Clone, Copy, PartialEq, Eq, Structural)]
pub enum AssignmentMethod {
    Diarization,
    Manual,
    ShortTurnRefinement,
}

pub open spec fn audio_source_label(s: AudioSource) -> Seq<char> {
    match s {
        AudioSource::Microphone => "microphone"@,
        AudioSource::System => "system"@,
        AudioSource::Imported => "imported"@,
        AudioSource::Mixed => "mixed"@,
    }
}

pub open spec fn segment_kind_label(k: SegmentKind) -> Seq<char> {
    match k {
        SegmentKind::Speech => "speech"@,
        SegmentKind::Backchannel => "backchannel"@,
        SegmentKind::Noise => "noise"@,
        SegmentKind::NonSpeechVocalization => "non_speech_vocalization"@,
        SegmentKind::Unknown => "unknown"@,
    }
}

pub open spec fn assignment_method_label(m: AssignmentMethod) -> Seq<char> {
    match m {
        AssignmentMethod::Diarization => "diarization"@,
        AssignmentMethod::Manual => "manual"@,
        AssignmentMethod::ShortTurnRefinement => "short_turn_refinement"@,
    }
}

/// The source a stored label names; anything unknown reads as `Mixed`.
pub open spec fn audio_source_of(v: Seq<char>) -> AudioSource {
    if v == "microphone"@ {
        AudioSource::Microphone
    } else if v == "system"@ {
        AudioSource::System
    } else if v == "imported"@ {
        AudioSource::Imported
    } else {
        AudioSource::Mixed
    }
}

/// The kind a stored label names; anything unknown reads as `Unknown`.
pub open spec fn segment_kind_of(v: Seq<char>) -> SegmentKind {
    if v == "speech"@ {
        SegmentKind::Speech
    } else if v == "backchannel"@ {
        SegmentKind::Backchannel
    } else if v == "noise"@ {
        SegmentKind::Noise
    } else if v == "non_speech_vocalization"@ {
        SegmentKind::NonSpeechVocalization
    } else {
        SegmentKind::Unknown
    }
}

/// The method a stored label names; anything unknown reads as `Diarization`.
pub open spec fn assignment_method_of(v: Seq<char>) -> AssignmentMethod {
    if v == "manual"@ {
        AssignmentMethod::Manual
    } else if v == "short_turn_refinement"@ {
        AssignmentMethod::ShortTurnRefinement
    } else {
        AssignmentMethod::Diarization
    }
}

impl AudioSource {
    pub fn as_str(&self) -> (result: &'static str)
        ensures
            result@ == audio_source_label(*self),
    {
        match self {
            AudioSource::Microphone => "microphone",
            AudioSource::System => "system",
            AudioSource::Imported => "imported",
            AudioSource::Mixed => "mixed",
        }
    }
}

impl SegmentKind {
    pub fn as_str(&self) -> (result: &'static str)
        ensures
            result@ == segment_kind_label(*self),
    {
        match self {
            SegmentKind::Speech => "speech",
            SegmentKind::Backchannel => "backchannel",
            SegmentKind::Noise => "noise",
            SegmentKind::NonSpeechVocalization => "non_speech_vocalization",
            SegmentKind::Unknown => "unknown",
        }
    }
}

impl AssignmentMethod {
    pub fn as_str(&self) -> (result: &'static str)
        ensures
            result@ == assignment_method_label(*self),
    {
        match self {
            AssignmentMethod::Diarization => "diarization",
            AssignmentMethod::Manual => "manual",
            AssignmentMethod::ShortTurnRefinement => "short_turn_refinement",
        }
    }
}

/// Reads a stored audio-source label.
pub fn audio_source_from_db(value: &str) -> (result: AudioSource)
    ensures
        result == audio_source_of(value@),
{
    if str_eq(value, "microphone") {
        AudioSource::Microphone
    } else if str_eq(value, "system") {
        AudioSource::System
    } else if str_eq(value, "imported") {
        AudioSource::Imported
    } else {
        AudioSource::Mixed
    }
}

/// Reads a stored segment-kind label.
pub fn segment_kind_from_db(value: &str) -> (result: SegmentKind)
    ensures
        result == segment_kind_of(value@),
{
    if str_eq(value, "speech") {
        SegmentKind::Speech
    } else if str_eq(value, "backchannel") {
        SegmentKind::Backchannel
    } else if str_eq(value, "noise") {
        SegmentKind::Noise
    } else if str_eq(value, "non_speech_vocalization") {
        SegmentKind::NonSpeechVocalization
    } else {
        SegmentKind::Unknown
    }
}

/// Reads a stored assignment-method label.
pub fn assignment_method_from_db(value: &str) -> (result: AssignmentMethod)
    ensures
        result == assignment_method_of(value@),
{
    if str_eq(value, "manual") {
        AssignmentMethod::Manual
    } else if str_eq(value, "short_turn_refinement") {
        AssignmentMethod::ShortTurnRefinement
    } else {
        AssignmentMethod::Diarization
    }
}

/// A value written with `as_str` reads back as the same value.
pub proof fn law_stored_labels_round_trip(s: AudioSource, k: SegmentKind, m: AssignmentMethod)
    ensures
        audio_source_of(audio_source_label(s)) == s,
        segment_kind_of(segment_kind_label(k)) == k,
        assignment_method_of(assignment_method_label(m)) == m,
{
    reveal_strlit("microphone");
    reveal_strlit("system");
    reveal_strlit("imported");
    reveal_strlit("mixed");
    reveal_strlit("speech");
    reveal_strlit("backchannel");
    reveal_strlit("noise");
    reveal_strlit("non_speech_vocalization");
    reveal_strlit("unknown");
    reveal_strlit("diarization");
    reveal_strlit("manual");
    reveal_strlit("short_turn_refinement");
    assert("microphone"@.len() == 10 && "system"@.len() == 6 && "imported"@.len() == 8
        && "mixed"@.len() == 5);
    assert("speech"@.len() == 6 && "backchannel"@.len() == 11 && "noise"@.len() == 5
        && "non_speech_vocalization"@.len() == 23 && "unknown"@.len() == 7);
    assert("diarization"@.len() == 11 && "manual"@.len() == 6 && "short_turn_refinement"@.len()
        == 21);
}

/// Timestamps of one transcript row, the input of timeline reconciliation.
#[derive(Debug, Clone)]
pub struct TranscriptTiming {
    pub id: String,
    pub start_ms: i64,
    pub end_ms: i64,
    pub audio_source: AudioSource,
}

} // verus!
