//! Short offline turns: where candidates come from, the duration buckets they
//! are scored in, the lexical backchannel detector, and the meeting-local
//! speakers a short turn may be attributed to.
use vstd::prelude::*;
use crate::diarization::types::{AssignmentMethod, SegmentKind};
use crate::strings::views;
use crate::text::{
    all_ws, alphanumeric_spec, char_at, char_len, is_alphanumeric, is_whitespace, is_ws,
    lowercase_spec, owned, push_char, str_eq, to_lowercase, trim, trim_spec,
};

verus! {

/// Where a short-turn candidate came from; ordered as declared.
#[derive(Debug, Clone, Copy, PartialEq, Eq, Structural)]
pub enum ShortTurnCandidateSource {
    Transcript,
    DiarizerTurn,
    VadEvent,
}

/// Voice-activity settings for short candidates.
#[derive(Debug, Clone, Copy, PartialEq, Eq, Structural)]
pub struct ShortCandidateVadConfig {
    pub min_speech_ms: u64,
    pub redemption_ms: u32,
    pub max_candidate_ms: u64,
}

impl Default for ShortCandidateVadConfig {
    /// The engineering baseline: 100 ms minimum speech, 250 ms redemption,
    /// candidates up to 1.2 s.
    fn default() -> (result: Self)
        ensures
            result.min_speech_ms == 100,
            result.redemption_ms == 250,
            result.max_candidate_ms == 1_200,
    {
        ShortCandidateVadConfig { min_speech_ms: 100, redemption_ms: 250, max_candidate_ms: 1_200 }
    }
}

/// Whether two half-open windows `[a_start, a_end)` and `[b_start, b_end)` share time.
pub fn windows_intersect(a_start: i64, a_end: i64, b_start: i64, b_end: i64) -> (result: bool)
    ensures
        result == (a_start < b_end && a_end > b_start),
{
    a_start < b_end && a_end > b_start
}

/// The duration buckets short turns are reported in.
#[derive(Debug, Clone, Copy, PartialEq, Eq, Structural)]
pub enum DurationBucket {
    Ms100To300,
    Ms300To500,
    Ms500To800,
    Ms800To1200,
    Ms1200To1500Control,
}

pub open spec fn bucket_label(bucket: DurationBucket) -> Seq<char> {
    match bucket {
        DurationBucket::Ms100To300 => "100-300ms"@,
        DurationBucket::Ms300To500 => "300-500ms"@,
        DurationBucket::Ms500To800 => "500-800ms"@,
        DurationBucket::Ms800To1200 => "800-1200ms"@,
        DurationBucket::Ms1200To1500Control => "1200-1500ms-control"@,
    }
}

/// The bucket of a duration: half-open ranges from 100 ms to 1200 ms, then the
/// closed control range 1200..=1500 ms; nothing outside 100..=1500 ms.
pub open spec fn bucket_for(duration_ms: u64) -> Option<DurationBucket> {
    if 100 <= duration_ms < 300 {
        Some(DurationBucket::Ms100To300)
    } else if 300 <= duration_ms < 500 {
        Some(DurationBucket::Ms300To500)
    } else if 500 <= duration_ms < 800 {
        Some(DurationBucket::Ms500To800)
    } else if 800 <= duration_ms < 1200 {
        Some(DurationBucket::Ms800To1200)
    } else if 1200 <= duration_ms <= 1500 {
        Some(DurationBucket::Ms1200To1500Control)
    } else {
        None
    }
}

impl DurationBucket {
    pub fn label(self) -> (result: &'static str)
        ensures
            result@ == bucket_label(self),
    {
        match self {
            DurationBucket::Ms100To300 => "100-300ms",
            DurationBucket::Ms300To500 => "300-500ms",
            DurationBucket::Ms500To800 => "500-800ms",
            DurationBucket::Ms800To1200 => "800-1200ms",
            DurationBucket::Ms1200To1500Control => "1200-1500ms-control",
        }
    }

    pub fn for_duration(duration_ms: u64) -> (result: Option<DurationBucket>)
        ensures
            result == bucket_for(duration_ms),
    {
        if 100 <= duration_ms && duration_ms < 300 {
            Some(DurationBucket::Ms100To300)
        } else if 300 <= duration_ms && duration_ms < 500 {
            Some(DurationBucket::Ms300To500)
        } else if 500 <= duration_ms && duration_ms < 800 {
            Some(DurationBucket::Ms500To800)
        } else if 800 <= duration_ms && duration_ms < 1200 {
            Some(DurationBucket::Ms800To1200)
        } else if 1200 <= duration_ms && duration_ms <= 1500 {
            Some(DurationBucket::Ms1200To1500Control)
        } else {
            None
        }
    }
}

/// Decides whether an utterance is a backchannel ("mm-hm", "yeah").
pub trait BackchannelDetector {
    fn normalize(&self, text: &str) -> String;

    fn is_backchannel(&self, text: &str) -> bool;
}

/// Backchannels recognised by their whole normalized text.
#[derive(Debug, Default, Clone, Copy)]
pub struct LexicalBackchannelDetector;

/// Position `i` is the third or later repetition in a run of equal characters.
pub open spec fn repeated_thrice(s: Seq<char>, i: int) -> bool {
    i >= 2 && s[i] == s[i - 1] && s[i - 1] == s[i - 2]
}

/// The first `n` characters of `s` with every run of equal characters cut to
/// at most two.
pub open spec fn collapse_prefix(s: Seq<char>, n: int) -> Seq<char>
    decreases n,
{
    if n <= 0 {
        Seq::empty()
    } else if repeated_thrice(s, n - 1) {
        collapse_prefix(s, n - 1)
    } else {
        collapse_prefix(s, n - 1).push(s[n - 1])
    }
}

pub open spec fn collapse_repeats_spec(s: Seq<char>) -> Seq<char> {
    collapse_prefix(s, s.len() as int)
}

/// Punctuation becomes a space: only alphanumerics and whitespace survive.
pub open spec fn depunctuate(c: char) -> char {
    if alphanumeric_spec(c) || is_ws(c) {
        c
    } else {
        ' '
    }
}

/// The first `n` characters of `s`, depunctuated, with all whitespace removed.
pub open spec fn compact_prefix(s: Seq<char>, n: int) -> Seq<char>
    decreases n,
{
    if n <= 0 {
        Seq::empty()
    } else if is_ws(depunctuate(s[n - 1])) {
        compact_prefix(s, n - 1)
    } else {
        compact_prefix(s, n - 1).push(depunctuate(s[n - 1]))
    }
}

/// Trim, lowercase, turn punctuation into spaces, drop whitespace, and cut
/// runs of a repeated character to two.
pub open spec fn normalized(text: Seq<char>) -> Seq<char> {
    let lowered = lowercase_spec(trim_spec(text));
    collapse_repeats_spec(compact_prefix(lowered, lowered.len() as int))
}

/// The normalized utterances that count as backchannels.
pub open spec fn is_backchannel_word(w: Seq<char>) -> bool {
    ||| w == "嗯"@
    ||| w == "嗯嗯"@
    ||| w == "啊"@
    ||| w == "哦"@
    ||| w == "噢"@
    ||| w == "对"@
    ||| w == "是"@
    ||| w == "好"@
    ||| w == "好的"@
    ||| w == "行"@
    ||| w == "可以"@
    ||| w == "没错"@
    ||| w == "对的"@
    ||| w == "uh"@
    ||| w == "um"@
    ||| w == "hmm"@
    ||| w == "hm"@
    ||| w == "yeah"@
    ||| w == "yes"@
    ||| w == "yep"@
    ||| w == "right"@
    ||| w == "okay"@
    ||| w == "ok"@
    ||| w == "sure"@
    ||| w == "oh"@
}

fn backchannel_word(w: &str) -> (result: bool)
    ensures
        result == is_backchannel_word(w@),
{
    str_eq(w, "嗯") || str_eq(w, "嗯嗯") || str_eq(w, "啊") || str_eq(w, "哦") || str_eq(w, "噢")
        || str_eq(w, "对") || str_eq(w, "是") || str_eq(w, "好") || str_eq(w, "好的") || str_eq(
        w,
        "行",
    ) || str_eq(w, "可以") || str_eq(w, "没错") || str_eq(w, "对的") || str_eq(w, "uh") || str_eq(
        w,
        "um",
    ) || str_eq(w, "hmm") || str_eq(w, "hm") || str_eq(w, "yeah") || str_eq(w, "yes") || str_eq(
        w,
        "yep",
    ) || str_eq(w, "right") || str_eq(w, "okay") || str_eq(w, "ok") || str_eq(w, "sure")
        || str_eq(w, "oh")
}

impl LexicalBackchannelDetector {
    fn collapse_repeats(text: &str) -> (result: String)
        ensures
            result@ == collapse_repeats_spec(text@),
    {
        let n = char_len(text);
        let mut out = String::new();
        let mut i: usize = 0;
        while i < n
            invariant
                n == text@.len(),
                i <= n,
                out@ == collapse_prefix(text@, i as int),
            decreases n - i,
        {
            let c = char_at(text, i);
            let third = i >= 2 && c == char_at(text, i - 1) && char_at(text, i - 1) == char_at(text, i - 2);
            if !third {
                push_char(&mut out, c);
            }
            i += 1;
        }
        out
    }

    fn compact(lowered: &str) -> (result: String)
        ensures
            result@ == compact_prefix(lowered@, lowered@.len() as int),
    {
        let n = char_len(lowered);
        let mut out = String::new();
        let mut i: usize = 0;
        while i < n
            invariant
                n == lowered@.len(),
                i <= n,
                out@ == compact_prefix(lowered@, i as int),
            decreases n - i,
        {
            let c = char_at(lowered, i);
            let kept = if is_alphanumeric(c) || is_whitespace(c) {
                c
            } else {
                ' '
            };
            if !is_whitespace(kept) {
                push_char(&mut out, kept);
            }
            i += 1;
        }
        out
    }
}

impl BackchannelDetector for LexicalBackchannelDetector {
    fn normalize(&self, text: &str) -> (result: String)
        ensures
            result@ == normalized(text@),
    {
        let trimmed = trim(text);
        let lowered = to_lowercase(trimmed.as_str());
        let compact = LexicalBackchannelDetector::compact(lowered.as_str());
        LexicalBackchannelDetector::collapse_repeats(compact.as_str())
    }

    fn is_backchannel(&self, text: &str) -> (result: bool)
        ensures
            result == is_backchannel_word(normalized(text@)),
    {
        let word = self.normalize(text);
        backchannel_word(word.as_str())
    }
}

/// The speakers already established in a meeting; a short turn may only be
/// attributed to one of these, never to a new identity.
#[derive(Debug, Clone, Default)]
pub struct MeetingSpeakerPrototypeStore {
    speakers: Vec<String>,
}

impl MeetingSpeakerPrototypeStore {
    pub closed spec fn speaker_set(&self) -> Set<Seq<char>> {
        views(self.speakers@).to_set()
    }

    pub fn new(speakers: Vec<String>) -> (result: Self)
        ensures
            result.speaker_set() == views(speakers@).to_set(),
    {
        MeetingSpeakerPrototypeStore { speakers }
    }

    pub fn contains(&self, speaker_key: &str) -> (result: bool)
        ensures
            result == self.speaker_set().contains(speaker_key@),
    {
        let n = self.speakers.len();
        let mut i: usize = 0;
        while i < n
            invariant
                n == self.speakers@.len(),
                i <= n,
                forall|k: int| 0 <= k < i ==> self.speakers@[k]@ != speaker_key@,
            decreases n - i,
        {
            if str_eq(self.speakers[i].as_str(), speaker_key) {
                assert(views(self.speakers@)[i as int] == speaker_key@);
                return true;
            }
            i += 1;
        }
        assert forall|k: int| 0 <= k < views(self.speakers@).len() implies views(self.speakers@)[k] != speaker_key@ by {
            assert(views(self.speakers@)[k] == self.speakers@[k]@);
        }
        false
    }
}

/// One labelled short turn and what the pipeline predicted for it.
#[derive(Debug, Clone)]
pub struct ShortTurnEvaluationObservation {
    pub expected_kind: SegmentKind,
    pub expected_speaker: Option<String>,
    pub predicted_kind: SegmentKind,
    pub predicted_speaker: Option<String>,
    pub predicted_is_new_speaker: bool,
    pub manual_override_violated: bool,
}

/// Whether a short event was expected, and which sources proposed a candidate for it.
#[derive(Debug, Clone)]
pub struct CandidateRecallObservation {
    pub expected_short_event: bool,
    pub found_sources: Vec<ShortTurnCandidateSource>,
}

/// Whether an event should be visible, whether it was shown, and to whom it went.
#[derive(Debug, Clone)]
pub struct MaterializationObservation {
    pub expected_visible: bool,
    pub predicted_visible: bool,
    pub embedded: bool,
    pub expected_speaker: Option<String>,
    pub predicted_speaker: Option<String>,
}

/// The integer limits that refinement reads from the short-turn configuration.
#[derive(Debug, Clone, Copy)]
pub struct ShortTurnLimits {
    pub min_candidate_ms: u64,
    pub very_short_ms: u64,
    pub nearby_gap_ms: u64,
    pub lexical_backchannel_enabled: bool,
}

/// What refinement reads of one short candidate. The confidence comparisons
/// arrive already decided: whether the diarizer's confidence (clamped to
/// `0..=1`, 0 when absent) reaches the high threshold or falls below the weak
/// one, whether its coverage ratio (1 when absent) is at least three
/// quarters, and whether confidence × duration weight × coverage reaches the
/// weak threshold.
#[derive(Debug, Clone)]
pub struct RefineFacts {
    pub duration_ms: u64,
    pub text: String,
    pub base_at_least_high: bool,
    pub coverage_at_least_three_quarters: bool,
    pub base_below_weak: bool,
    pub direct_at_least_weak: bool,
    pub diarization_speaker: Option<String>,
    pub previous_speaker: Option<String>,
    pub next_speaker: Option<String>,
    pub previous_gap_ms: Option<u64>,
    pub next_gap_ms: Option<u64>,
    pub true_speaker_overlap: bool,
}

/// Why refinement chose its speaker.
#[derive(Debug, Clone, Copy, PartialEq, Eq, Structural)]
pub enum RefineReason {
    CredibleDirectCoverage,
    InsufficientDirectEvidence,
    NearbyContinuity,
    EmptyOrWeakNonLexical,
}

impl RefineReason {
    pub fn as_str(&self) -> (result: &'static str)
        ensures
            result@ == refine_reason_text(*self),
    {
        match self {
            RefineReason::CredibleDirectCoverage => "credible direct diarization coverage",
            RefineReason::InsufficientDirectEvidence => "insufficient direct speaker evidence",
            RefineReason::NearbyContinuity => "matching nearby speakers supplied soft continuity evidence",
            RefineReason::EmptyOrWeakNonLexical => "empty or weak non-lexical short event",
        }
    }
}

pub open spec fn refine_reason_text(r: RefineReason) -> Seq<char> {
    match r {
        RefineReason::CredibleDirectCoverage => "credible direct diarization coverage"@,
        RefineReason::InsufficientDirectEvidence => "insufficient direct speaker evidence"@,
        RefineReason::NearbyContinuity => "matching nearby speakers supplied soft continuity evidence"@,
        RefineReason::EmptyOrWeakNonLexical => "empty or weak non-lexical short event"@,
    }
}

/// The decision refinement makes for a short candidate.
#[derive(Debug, Clone)]
pub struct ShortTurnChoice {
    pub kind: SegmentKind,
    pub speaker_key: Option<String>,
    pub normalized_text: String,
    pub lexical_backchannel: bool,
    pub reason: RefineReason,
    pub allow_new_speaker: bool,
}

/// A candidate's text is a recognised backchannel and the detector is on.
pub open spec fn lexical_spec(limits: ShortTurnLimits, norm: Seq<char>) -> bool {
    limits.lexical_backchannel_enabled && is_backchannel_word(norm)
}

/// The kind of a short candidate whose normalized text is `norm`.
pub open spec fn refine_kind_spec(limits: ShortTurnLimits, facts: RefineFacts, norm: Seq<char>) -> SegmentKind {
    let empty = norm.len() == 0;
    if facts.duration_ms < limits.min_candidate_ms && empty {
        SegmentKind::Noise
    } else if lexical_spec(limits, norm) {
        SegmentKind::Backchannel
    } else if empty && facts.base_at_least_high && facts.coverage_at_least_three_quarters {
        SegmentKind::Speech
    } else if empty && facts.duration_ms <= limits.very_short_ms && facts.base_below_weak {
        SegmentKind::Noise
    } else if empty {
        SegmentKind::Unknown
    } else {
        SegmentKind::Speech
    }
}

/// An optional key as a plain value.
pub open spec fn key_view(o: Option<String>) -> Option<Seq<char>> {
    match o {
        Some(s) => Some(s@),
        None => None,
    }
}

/// The diarized speaker, where the direct evidence is credible and the
/// meeting already knows it.
pub open spec fn direct_speaker_spec(facts: RefineFacts, known: Set<Seq<char>>) -> Option<Seq<char>> {
    if facts.base_at_least_high || facts.direct_at_least_weak {
        match key_view(facts.diarization_speaker) {
            Some(k) => if known.contains(k) {
                Some(k)
            } else {
                None
            },
            None => None,
        }
    } else {
        None
    }
}

/// Both neighbours lie within the nearby gap (an absent gap never does).
pub open spec fn neighbours_close(limits: ShortTurnLimits, facts: RefineFacts) -> bool {
    let prev_gap: int = match facts.previous_gap_ms {
        Some(g) => g as int,
        None => u64::MAX as int,
    };
    let next_gap: int = match facts.next_gap_ms {
        Some(g) => g as int,
        None => u64::MAX as int,
    };
    prev_gap <= limits.nearby_gap_ms && next_gap <= limits.nearby_gap_ms
}

/// The neighbours' common speaker, where continuity may apply: no real
/// overlap, the same speaker on both sides, both close, and already known.
pub open spec fn continuity_speaker_spec(limits: ShortTurnLimits, facts: RefineFacts, known: Set<Seq<char>>) -> Option<Seq<char>> {
    if !facts.true_speaker_overlap && key_view(facts.previous_speaker) == key_view(facts.next_speaker) {
        match key_view(facts.previous_speaker) {
            Some(n) => if neighbours_close(limits, facts) && known.contains(n) {
                Some(n)
            } else {
                None
            },
            None => None,
        }
    } else {
        None
    }
}

/// The speaker refinement attributes: the credible diarized speaker, else
/// the neighbours' common speaker; none at all for noise or an unknown
/// kind that is not a lexical backchannel.
pub open spec fn refine_speaker_spec(limits: ShortTurnLimits, facts: RefineFacts, norm: Seq<char>, known: Set<Seq<char>>) -> Option<Seq<char>> {
    let kind = refine_kind_spec(limits, facts, norm);
    if (kind == SegmentKind::Noise || kind == SegmentKind::Unknown) && !lexical_spec(limits, norm) {
        None
    } else {
        match direct_speaker_spec(facts, known) {
            Some(k) => Some(k),
            None => continuity_speaker_spec(limits, facts, known),
        }
    }
}

/// Why refinement chose as it did.
pub open spec fn refine_reason_spec(limits: ShortTurnLimits, facts: RefineFacts, norm: Seq<char>, known: Set<Seq<char>>) -> RefineReason {
    let kind = refine_kind_spec(limits, facts, norm);
    if (kind == SegmentKind::Noise || kind == SegmentKind::Unknown) && !lexical_spec(limits, norm) {
        RefineReason::EmptyOrWeakNonLexical
    } else if direct_speaker_spec(facts, known) is Some {
        RefineReason::CredibleDirectCoverage
    } else if continuity_speaker_spec(limits, facts, known) is Some {
        RefineReason::NearbyContinuity
    } else {
        RefineReason::InsufficientDirectEvidence
    }
}

fn same_key(a: &Option<String>, b: &Option<String>) -> (result: bool)
    ensures
        result == (key_view(*a) == key_view(*b)),
{
    match (a, b) {
        (Some(x), Some(y)) => str_eq(x.as_str(), y.as_str()),
        (None, None) => true,
        _ => false,
    }
}

/// Decides a short candidate's kind and speaker from its text and evidence.
/// Text can classify a backchannel but never names a speaker; the speaker is
/// the credible diarized speaker or the neighbours' common speaker, and only
/// ever one the meeting's prototype store already knows: refinement never
/// creates a speaker identity.
pub fn refine_decision(limits: &ShortTurnLimits, facts: &RefineFacts, prototypes: &MeetingSpeakerPrototypeStore) -> (d: ShortTurnChoice)
    ensures
        d.normalized_text@ == normalized(facts.text@),
        d.lexical_backchannel == lexical_spec(*limits, normalized(facts.text@)),
        d.kind == refine_kind_spec(*limits, *facts, normalized(facts.text@)),
        key_view(d.speaker_key) == refine_speaker_spec(*limits, *facts, normalized(facts.text@), prototypes.speaker_set()),
        d.reason == refine_reason_spec(*limits, *facts, normalized(facts.text@), prototypes.speaker_set()),
        d.speaker_key matches Some(k) ==> prototypes.speaker_set().contains(k@),
        (d.kind == SegmentKind::Noise || d.kind == SegmentKind::Unknown) && !d.lexical_backchannel ==> d.speaker_key is None,
        !d.allow_new_speaker,
{
    let detector = LexicalBackchannelDetector;
    let norm = detector.normalize(facts.text.as_str());
    let lexical = limits.lexical_backchannel_enabled && backchannel_word(norm.as_str());
    let empty = char_len(norm.as_str()) == 0;
    let kind = if facts.duration_ms < limits.min_candidate_ms && empty {
        SegmentKind::Noise
    } else if lexical {
        SegmentKind::Backchannel
    } else if empty && facts.base_at_least_high && facts.coverage_at_least_three_quarters {
        SegmentKind::Speech
    } else if empty && facts.duration_ms <= limits.very_short_ms && facts.base_below_weak {
        SegmentKind::Noise
    } else if empty {
        SegmentKind::Unknown
    } else {
        SegmentKind::Speech
    };
    let mut speaker: Option<String> = None;
    if facts.base_at_least_high || facts.direct_at_least_weak {
        match &facts.diarization_speaker {
            Some(k) => {
                if prototypes.contains(k.as_str()) {
                    speaker = Some(owned(k.as_str()));
                }
            },
            None => {},
        }
    }
    let mut reason = if speaker.is_some() {
        RefineReason::CredibleDirectCoverage
    } else {
        RefineReason::InsufficientDirectEvidence
    };
    if speaker.is_none() && !facts.true_speaker_overlap && same_key(&facts.previous_speaker, &facts.next_speaker) {
        match &facts.previous_speaker {
            Some(n) => {
                let prev_ok = match facts.previous_gap_ms {
                    Some(g) => g <= limits.nearby_gap_ms,
                    None => u64::MAX <= limits.nearby_gap_ms,
                };
                let next_ok = match facts.next_gap_ms {
                    Some(g) => g <= limits.nearby_gap_ms,
                    None => u64::MAX <= limits.nearby_gap_ms,
                };
                if prev_ok && next_ok && prototypes.contains(n.as_str()) {
                    speaker = Some(owned(n.as_str()));
                    reason = RefineReason::NearbyContinuity;
                }
            },
            None => {},
        }
    }
    let silenced = match kind {
        SegmentKind::Noise | SegmentKind::Unknown => !lexical,
        _ => false,
    };
    if silenced {
        speaker = None;
        reason = RefineReason::EmptyOrWeakNonLexical;
    }
    ShortTurnChoice {
        kind,
        speaker_key: speaker,
        normalized_text: norm,
        lexical_backchannel: lexical,
        reason,
        allow_new_speaker: false,
    }
}

/// Short turns never create a speaker identity: whatever the evidence, the
/// speaker refinement attributes is one the meeting already knows, or none.
pub proof fn law_refinement_never_creates_a_speaker(
    limits: ShortTurnLimits,
    facts: RefineFacts,
    norm: Seq<char>,
    known: Set<Seq<char>>,
)
    ensures
        refine_speaker_spec(limits, facts, norm, known) matches Some(k) ==> known.contains(k),
{
}

/// Refinement may revise an assignment: only a short transcript, and never
/// a manual assignment, which is a durable override.
pub fn may_refine(method: AssignmentMethod, duration_ms: u64, max_short_turn_ms: u64) -> (result: bool)
    ensures
        result == (duration_ms <= max_short_turn_ms && method != AssignmentMethod::Manual),
        method == AssignmentMethod::Manual ==> !result,
{
    duration_ms <= max_short_turn_ms && method != AssignmentMethod::Manual
}

/// The revision a proposed assignment is stored with: one more than before
/// (saturating) when its speaker, its confidence or its kind changed, and
/// the previous revision otherwise. `confidence_equal` says whether the two
/// confidences are equal (both absent, or within 1e-9).
pub fn revised_revision(
    previous_revision: i64,
    previous_key: &Option<String>,
    proposed_key: &Option<String>,
    confidence_equal: bool,
    previous_kind: SegmentKind,
    proposed_kind: SegmentKind,
) -> (result: i64)
    ensures
        result as int == (if key_view(*previous_key) != key_view(*proposed_key) || !confidence_equal
            || previous_kind != proposed_kind {
            if previous_revision == i64::MAX {
                previous_revision as int
            } else {
                previous_revision + 1
            }
        } else {
            previous_revision as int
        }),
{
    let changed = !same_key(previous_key, proposed_key) || !confidence_equal || previous_kind != proposed_kind;
    if changed && previous_revision < i64::MAX {
        previous_revision + 1
    } else {
        previous_revision
    }
}

/// The diarized speaker `k` is credible direct evidence: the diarizer named
/// it and its confidence reaches the high threshold or, weighted, the weak one.
pub open spec fn credible_direct(facts: RefineFacts, k: Seq<char>) -> bool {
    &&& key_view(facts.diarization_speaker) == Some(k)
    &&& (facts.base_at_least_high || facts.direct_at_least_weak)
}

/// `k` is supplied by nearby continuity: the previous and the next speaker
/// are both `k`, there is no real overlap, and both gaps are at most the
/// nearby gap (an unknown gap counts as `u64::MAX`).
pub open spec fn continuity_for(limits: ShortTurnLimits, facts: RefineFacts, k: Seq<char>) -> bool {
    &&& key_view(facts.previous_speaker) == Some(k)
    &&& key_view(facts.next_speaker) == Some(k)
    &&& !facts.true_speaker_overlap
    &&& (match facts.previous_gap_ms {
        Some(g) => g,
        None => u64::MAX,
    }) <= limits.nearby_gap_ms
    &&& (match facts.next_gap_ms {
        Some(g) => g,
        None => u64::MAX,
    }) <= limits.nearby_gap_ms
}

/// Refinement attributes a speaker only on evidence: a known speaker that
/// is credible direct evidence, or else a known speaker that both neighbours
/// share nearby; credible known direct evidence always wins over continuity.
/// So with neighbours that differ and no credible direct speaker, no
/// speaker is attributed.
pub proof fn law_speaker_needs_direct_or_shared_neighbours(
    limits: ShortTurnLimits,
    facts: RefineFacts,
    norm: Seq<char>,
    known: Set<Seq<char>>,
)
    ensures
        refine_speaker_spec(limits, facts, norm, known) matches Some(k) ==> known.contains(k) && (credible_direct(facts, k)
            || ((forall|d: Seq<char>| #[trigger] credible_direct(facts, d) ==> !known.contains(d)) && continuity_for(
            limits,
            facts,
            k,
        ))),
        (forall|d: Seq<char>| #[trigger] credible_direct(facts, d) ==> !known.contains(d)) && key_view(facts.previous_speaker)
            != key_view(facts.next_speaker) ==> refine_speaker_spec(limits, facts, norm, known) is None,
{
    match key_view(facts.diarization_speaker) {
        Some(d) => {
            assert(credible_direct(facts, d) || !(facts.base_at_least_high || facts.direct_at_least_weak));
        },
        None => {},
    }
    if refine_speaker_spec(limits, facts, norm, known) is Some {
        if direct_speaker_spec(facts, known) is None {
            assert forall|d: Seq<char>| #[trigger] credible_direct(facts, d) implies !known.contains(d) by {}
        }
    }
}

/// The durations a bucket's label names: from the lower bound up to the
/// upper one, the upper one excluded except for the control bucket.
pub open spec fn bucket_range(bucket: DurationBucket) -> (int, int) {
    match bucket {
        DurationBucket::Ms100To300 => (100, 300),
        DurationBucket::Ms300To500 => (300, 500),
        DurationBucket::Ms500To800 => (500, 800),
        DurationBucket::Ms800To1200 => (800, 1200),
        DurationBucket::Ms1200To1500Control => (1200, 1500),
    }
}

pub open spec fn in_bucket(bucket: DurationBucket, d: int) -> bool {
    let (lo, hi) = bucket_range(bucket);
    lo <= d && (d < hi || (bucket == DurationBucket::Ms1200To1500Control && d == hi))
}

/// Each bucket's label reads its range: lower bound, a dash, upper bound, `ms`.
pub proof fn law_bucket_labels_name_their_range(bucket: DurationBucket)
    ensures
        bucket_label(bucket) == crate::text::decimal(bucket_range(bucket).0 as nat) + "-"@ + crate::text::decimal(
            bucket_range(bucket).1 as nat,
        ) + "ms"@ + (if bucket == DurationBucket::Ms1200To1500Control {
            "-control"@
        } else {
            ""@
        }),
{
    reveal_strlit("100-300ms");
    reveal_strlit("300-500ms");
    reveal_strlit("500-800ms");
    reveal_strlit("800-1200ms");
    reveal_strlit("1200-1500ms-control");
    reveal_strlit("-");
    reveal_strlit("ms");
    reveal_strlit("-control");
    reveal_strlit("");
    reveal_with_fuel(crate::text::decimal, 5);
    let b = bucket;
    assert(bucket_label(b) =~= crate::text::decimal(bucket_range(b).0 as nat) + "-"@ + crate::text::decimal(
        bucket_range(b).1 as nat,
    ) + "ms"@ + (if b == DurationBucket::Ms1200To1500Control {
        "-control"@
    } else {
        ""@
    }));
}

/// A duration falls in the bucket it is given, and in exactly that one:
/// every bucket returned contains it, and a duration in a bucket's range is
/// given that bucket.
pub proof fn law_duration_lands_in_its_bucket(d: u64, bucket: DurationBucket)
    ensures
        bucket_for(d) == Some(bucket) <==> in_bucket(bucket, d as int),
        bucket_for(d) is None <==> (d < 100 || d > 1500),
{
}

} // verus!
