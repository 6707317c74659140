//! Local working state of the short-turn annotation workspace: the draft of
//! canonical annotation events, the per-meeting session, completion of the
//! blind and review passes, and the local QA that gates manifest export.

use vstd::prelude::*;
use crate::strings::{lookup, lookup_str, pair_views, views, insert_unique, contains_str};
use crate::text::{
    all_ws, concat, contains_char, contains_seq, contains_str_in, is_blank, owned, str_eq,
    u64_to_decimal, decimal, starts_with, starts_with_spec, i64_to_decimal, signed_decimal,
    parse_u64, parse_u64_spec, char_len, char_at, char_slice,
};
use crate::evaluation::dataset::{DatasetRecord, DuplicateCandidate, possible_duplicates, duration_bucket};

verus! {

/// Version of the draft and session files this code reads and writes.
pub const DRAFT_SCHEMA_VERSION: u32 = 1;

/// Lower bound of the media/artifact duration tolerance.
pub const MIN_MEDIA_DURATION_TOLERANCE_MS: i64 = 2_000;

/// Upper bound of the media/artifact duration tolerance.
pub const MAX_MEDIA_DURATION_TOLERANCE_MS: i64 = 10_000;

/// Which pass of the workspace is open.
#[derive(Debug, Clone, Copy, PartialEq, Eq, Structural)]
pub enum AnnotationMode {
    Blind,
    Review,
    Qa,
}

/// A canonical annotation on the source-meeting timeline.
#[derive(Debug, Clone)]
pub struct AnnotationEvent {
    pub event_id: String,
    pub start_ms: i64,
    pub end_ms: i64,
    pub kind: String,
    pub speaker: Option<String>,
    pub overlap: bool,
    pub speaker_handoff: bool,
    pub embedded: bool,
    pub annotation_uncertain: bool,
    pub expected_materialized: Option<bool>,
    pub notes: String,
    pub annotation_status: String,
}

/// The status an annotation has unless the file says otherwise.
pub fn default_annotation_status() -> (result: String)
    ensures
        result@ == "blind_confirmed"@,
{
    owned("blind_confirmed")
}

/// The annotation events of one meeting.
#[derive(Debug, Clone)]
pub struct AnnotationDraft {
    pub schema_version: u32,
    pub meeting_id: String,
    pub events: Vec<AnnotationEvent>,
}

impl AnnotationDraft {
    /// A draft of the current schema with no events.
    pub fn empty(meeting_id: String) -> (result: Self)
        ensures
            result.schema_version == DRAFT_SCHEMA_VERSION,
            result.meeting_id == meeting_id,
            result.events@.len() == 0,
    {
        AnnotationDraft { schema_version: DRAFT_SCHEMA_VERSION, meeting_id, events: Vec::new() }
    }
}

/// A meeting-local ground-truth speaker.
#[derive(Debug, Clone)]
pub struct SpeakerMapEntry {
    pub key: String,
    pub description: String,
}

/// The production artifact a project is bound to.
#[derive(Debug, Clone)]
pub struct ProductionArtifactIdentity {
    pub artifact_id: String,
    pub sha256: String,
    pub schema_version: u32,
    pub transcription_run_id: String,
    pub relative_path: String,
}

/// Per-meeting annotation session state.
#[derive(Debug, Clone)]
pub struct AnnotationSession {
    pub schema_version: u32,
    pub meeting_id: String,
    pub source_media_path: String,
    pub source_media_duration_ms: Option<i64>,
    pub production_artifact_path: String,
    pub speaker_map: Vec<SpeakerMapEntry>,
    /// Completion status by window id (at most one entry per id).
    pub window_status: Vec<(String, String)>,
    pub next_event_sequence: u64,
    pub last_blind_window_id: Option<String>,
    pub last_review_window_id: Option<String>,
    pub artifact_identity: Option<ProductionArtifactIdentity>,
}

/// The event sequence a session starts from.
pub fn default_next_event_sequence() -> (result: u64)
    ensures
        result == 1,
{
    1
}

impl AnnotationSession {
    /// A fresh session of the current schema for `meeting_id`.
    pub fn empty(meeting_id: String) -> (result: Self)
        ensures
            result.schema_version == DRAFT_SCHEMA_VERSION,
            result.meeting_id == meeting_id,
            result.source_media_path@.len() == 0,
            result.source_media_duration_ms is None,
            result.production_artifact_path@.len() == 0,
            result.speaker_map@.len() == 0,
            result.window_status@.len() == 0,
            result.next_event_sequence == 1,
            result.last_blind_window_id is None,
            result.last_review_window_id is None,
            result.artifact_identity is None,
    {
        AnnotationSession {
            schema_version: DRAFT_SCHEMA_VERSION,
            meeting_id,
            source_media_path: String::new(),
            source_media_duration_ms: None,
            production_artifact_path: String::new(),
            speaker_map: Vec::new(),
            window_status: Vec::new(),
            next_event_sequence: 1,
            last_blind_window_id: None,
            last_review_window_id: None,
            artifact_identity: None,
        }
    }
}

/// A system suggestion shown in review windows. The VAD confidence is carried
/// as the bit pattern of its `f64`.
#[derive(Debug, Clone)]
pub struct SystemSuggestion {
    pub start_ms: i64,
    pub end_ms: i64,
    pub candidate_sources: Vec<String>,
    pub vad_confidence_bits: Option<u64>,
    pub label: String,
}

/// An export window: a viewport onto the source-meeting timeline.
#[derive(Debug, Clone)]
pub struct AnnotationWindow {
    pub window_id: String,
    pub meeting_id: String,
    pub source_start_ms: i64,
    pub source_end_ms: i64,
    pub audio_path: String,
    pub production_artifact_path: String,
    pub candidate_suggestions: Vec<SystemSuggestion>,
}

/// The window as a pass may see it: blind mode never carries system suggestions.
pub fn window_for_mode(window: AnnotationWindow, mode: AnnotationMode) -> (result: AnnotationWindow)
    ensures
        result.window_id == window.window_id,
        result.meeting_id == window.meeting_id,
        result.source_start_ms == window.source_start_ms,
        result.source_end_ms == window.source_end_ms,
        result.audio_path == window.audio_path,
        result.production_artifact_path == window.production_artifact_path,
        mode == AnnotationMode::Blind ==> result.candidate_suggestions@.len() == 0,
        mode != AnnotationMode::Blind ==> result.candidate_suggestions == window.candidate_suggestions,
{
    let mut value = window;
    if mode == AnnotationMode::Blind {
        value.candidate_suggestions = Vec::new();
    }
    value
}

/// Tolerated difference between media and artifact durations: 2% of the
/// artifact duration, clamped to 2..=10 s.
pub open spec fn tolerance_spec(artifact_duration_ms: int) -> int {
    let t = if artifact_duration_ms >= 0 {
        artifact_duration_ms / 50
    } else {
        -((-artifact_duration_ms) / 50)
    };
    if t < 2000 {
        2000
    } else if t > 10000 {
        10000
    } else {
        t
    }
}

pub fn source_media_duration_tolerance_ms(artifact_duration_ms: i64) -> (result: i64)
    ensures
        result == tolerance_spec(artifact_duration_ms as int),
{
    let t = artifact_duration_ms / 50;
    if t < MIN_MEDIA_DURATION_TOLERANCE_MS {
        MIN_MEDIA_DURATION_TOLERANCE_MS
    } else if t > MAX_MEDIA_DURATION_TOLERANCE_MS {
        MAX_MEDIA_DURATION_TOLERANCE_MS
    } else {
        t
    }
}

pub open spec fn abs_int(x: int) -> int {
    if x >= 0 {
        x
    } else {
        -x
    }
}

/// The media file runs about as long as the artifact says.
pub fn source_media_duration_matches(media_duration_ms: i64, artifact_duration_ms: i64) -> (result: bool)
    ensures
        result == (abs_int(media_duration_ms - artifact_duration_ms) <= tolerance_spec(
            artifact_duration_ms as int,
        )),
{
    let d = (media_duration_ms as i128) - (artifact_duration_ms as i128);
    let a = if d >= 0 {
        d
    } else {
        -d
    };
    a <= source_media_duration_tolerance_ms(artifact_duration_ms) as i128
}

/// A meeting id is a simple local name: not blank, no path separators, no `..`.
pub open spec fn simple_meeting_id(meeting_id: Seq<char>) -> bool {
    !all_ws(meeting_id) && !meeting_id.contains('/') && !meeting_id.contains('\\')
        && !contains_seq(meeting_id, ".."@)
}

/// Accepts a meeting id only if it names a directory directly below the dataset root.
pub fn validate_meeting_id(meeting_id: &str) -> (result: Result<(), String>)
    ensures
        result is Ok <==> simple_meeting_id(meeting_id@),
        result matches Err(e) ==> e@ == "meeting_id must be a simple local meeting identifier"@,
{
    if is_blank(meeting_id) || contains_char(meeting_id, '/') || contains_char(meeting_id, '\\')
        || contains_str_in(meeting_id, "..") {
        return Err(owned("meeting_id must be a simple local meeting identifier"));
    }
    Ok(())
}

/// Tags a manifest row carries for an event.
pub open spec fn event_tags_spec(e: AnnotationEvent) -> Seq<Seq<char>> {
    (if e.overlap {
        seq!["overlap"@]
    } else {
        seq![]
    }) + (if e.speaker_handoff {
        seq!["speaker_handoff"@]
    } else {
        seq![]
    })
}

pub fn event_tags(event: &AnnotationEvent) -> (result: Vec<String>)
    ensures
        views(result@) == event_tags_spec(*event),
{
    let mut tags: Vec<String> = Vec::new();
    if event.overlap {
        tags.push(owned("overlap"));
    }
    if event.speaker_handoff {
        tags.push(owned("speaker_handoff"));
    }
    assert(views(tags@) =~= event_tags_spec(*event));
    tags
}

/// The status recorded for window `id`, if any.
pub open spec fn status_of(statuses: Seq<(String, String)>, id: Seq<char>) -> Option<Seq<char>> {
    lookup(pair_views(statuses), id)
}

pub open spec fn blind_done(statuses: Seq<(String, String)>, id: Seq<char>) -> bool {
    status_of(statuses, id) == Some("reviewed_blind"@) || status_of(statuses, id) == Some(
        "reviewed_second_pass"@,
    )
}

pub open spec fn review_done(statuses: Seq<(String, String)>, id: Seq<char>) -> bool {
    status_of(statuses, id) == Some("reviewed_second_pass"@)
}

/// Every expected window (there is at least one) is done for the pass.
pub open spec fn all_done(windows: Seq<AnnotationWindow>, statuses: Seq<(String, String)>, review: bool) -> bool {
    windows.len() > 0 && forall|i: int|
        0 <= i < windows.len() ==> if review {
            review_done(statuses, #[trigger] windows[i].window_id@)
        } else {
            blind_done(statuses, windows[i].window_id@)
        }
}

fn window_done(statuses: &Vec<(String, String)>, id: &str, review: bool) -> (result: bool)
    ensures
        result == if review {
            review_done(statuses@, id@)
        } else {
            blind_done(statuses@, id@)
        },
{
    match lookup_str(statuses, id) {
        Some(status) => {
            if review {
                str_eq(status.as_str(), "reviewed_second_pass")
            } else {
                str_eq(status.as_str(), "reviewed_blind") || str_eq(status.as_str(), "reviewed_second_pass")
            }
        },
        None => false,
    }
}

fn windows_done(windows: &[AnnotationWindow], statuses: &Vec<(String, String)>, review: bool) -> (result: bool)
    ensures
        result == all_done(windows@, statuses@, review),
{
    if windows.len() == 0 {
        return false;
    }
    let mut i: usize = 0;
    while i < windows.len()
        invariant
            i <= windows@.len(),
            forall|k: int|
                0 <= k < i ==> if review {
                    review_done(statuses@, #[trigger] windows@[k].window_id@)
                } else {
                    blind_done(statuses@, windows@[k].window_id@)
                },
        decreases windows@.len() - i,
    {
        if !window_done(statuses, windows[i].window_id.as_str(), review) {
            assert(!(if review {
                review_done(statuses@, windows@[i as int].window_id@)
            } else {
                blind_done(statuses@, windows@[i as int].window_id@)
            }));
            return false;
        }
        i += 1;
    }
    true
}

/// Every blind window was reviewed in the blind or the second pass.
pub fn all_blind_windows_complete(windows: &[AnnotationWindow], statuses: &Vec<(String, String)>) -> (result: bool)
    ensures
        result == all_done(windows@, statuses@, false),
{
    windows_done(windows, statuses, false)
}

/// Every review window was reviewed in the second pass.
pub fn all_review_windows_complete(windows: &[AnnotationWindow], statuses: &Vec<(String, String)>) -> (result: bool)
    ensures
        result == all_done(windows@, statuses@, true),
{
    windows_done(windows, statuses, true)
}

/// An event needs confirmation before the pass may complete.
pub open spec fn unconfirmed(e: AnnotationEvent, review: bool) -> bool {
    e.annotation_status@ == "pending"@ || (review && e.annotation_status@ == "review_pending"@)
}

pub open spec fn in_window(e: AnnotationEvent, w: AnnotationWindow) -> bool {
    e.start_ms < w.source_end_ms && e.end_ms > w.source_start_ms
}

/// Unconfirmed events overlapping window `w`.
pub open spec fn unconfirmed_in(events: Seq<AnnotationEvent>, w: AnnotationWindow, review: bool) -> nat
    decreases events.len(),
{
    if events.len() == 0 {
        0
    } else {
        unconfirmed_in(events.drop_last(), w, review) + if in_window(events.last(), w) && unconfirmed(events.last(), review) {
            1nat
        } else {
            0nat
        }
    }
}

/// Events still `pending`.
pub open spec fn pending_count(events: Seq<AnnotationEvent>) -> nat
    decreases events.len(),
{
    if events.len() == 0 {
        0
    } else {
        pending_count(events.drop_last()) + if events.last().annotation_status@ == "pending"@ {
            1nat
        } else {
            0nat
        }
    }
}

proof fn lemma_unconfirmed_bound(events: Seq<AnnotationEvent>, w: AnnotationWindow, review: bool)
    ensures
        unconfirmed_in(events, w, review) <= events.len(),
    decreases events.len(),
{
    if events.len() > 0 {
        lemma_unconfirmed_bound(events.drop_last(), w, review);
    }
}

proof fn lemma_pending_bound(events: Seq<AnnotationEvent>)
    ensures
        pending_count(events) <= events.len(),
    decreases events.len(),
{
    if events.len() > 0 {
        lemma_pending_bound(events.drop_last());
    }
}

/// A window may be marked complete only when none of its events awaits confirmation.
pub fn validate_window_completion(draft: &AnnotationDraft, window: &AnnotationWindow, review: bool) -> (result: Result<(), String>)
    ensures
        result is Ok <==> unconfirmed_in(draft.events@, *window, review) == 0,
        result matches Err(e) ==> e@ == "Window "@ + window.window_id@ + " contains "@ + decimal(
            unconfirmed_in(draft.events@, *window, review),
        ) + " unconfirmed annotations; confirm all event labels before completing it"@,
{
    let mut count: usize = 0;
    let mut i: usize = 0;
    while i < draft.events.len()
        invariant
            i <= draft.events@.len(),
            count == unconfirmed_in(draft.events@.subrange(0, i as int), *window, review),
        decreases draft.events@.len() - i,
    {
        proof {
            assert(draft.events@.subrange(0, i + 1).drop_last() =~= draft.events@.subrange(0, i as int));
            lemma_unconfirmed_bound(draft.events@.subrange(0, i as int), *window, review);
        }
        let e = &draft.events[i];
        if e.start_ms < window.source_end_ms && e.end_ms > window.source_start_ms && (str_eq(e.annotation_status.as_str(), "pending") || (review && str_eq(e.annotation_status.as_str(), "review_pending"))) {
            count += 1;
        }
        i += 1;
    }
    assert(draft.events@.subrange(0, draft.events@.len() as int) =~= draft.events@);
    if count > 0 {
        let mut msg = concat("Window ", window.window_id.as_str());
        msg.append(" contains ");
        let digits = u64_to_decimal(count as u64);
        msg.append(digits.as_str());
        msg.append(" unconfirmed annotations; confirm all event labels before completing it");
        return Err(msg);
    }
    Ok(())
}

/// Review may open only when the blind pass has no pending event.
pub fn validate_blind_entry(draft: &AnnotationDraft) -> (result: Result<(), String>)
    ensures
        result is Ok <==> pending_count(draft.events@) == 0,
        result matches Err(e) ==> e@ == "Blind pass contains "@ + decimal(pending_count(draft.events@))
            + " unconfirmed annotations. Confirm them before opening Review."@,
{
    let mut count: usize = 0;
    let mut i: usize = 0;
    while i < draft.events.len()
        invariant
            i <= draft.events@.len(),
            count == pending_count(draft.events@.subrange(0, i as int)),
        decreases draft.events@.len() - i,
    {
        proof {
            assert(draft.events@.subrange(0, i + 1).drop_last() =~= draft.events@.subrange(0, i as int));
            lemma_pending_bound(draft.events@.subrange(0, i as int));
        }
        if str_eq(draft.events[i].annotation_status.as_str(), "pending") {
            count += 1;
        }
        i += 1;
    }
    assert(draft.events@.subrange(0, draft.events@.len() as int) =~= draft.events@);
    if count > 0 {
        let mut msg = owned("Blind pass contains ");
        let digits = u64_to_decimal(count as u64);
        msg.append(digits.as_str());
        msg.append(" unconfirmed annotations. Confirm them before opening Review.");
        return Err(msg);
    }
    Ok(())
}

/// Distinct window ids.
pub open spec fn window_ids(windows: Seq<AnnotationWindow>) -> Set<Seq<char>> {
    Set::new(|id: Seq<char>| exists|i: int| 0 <= i < windows.len() && #[trigger] windows[i].window_id@ == id)
}

/// Distinct ids of windows done for the pass.
pub open spec fn done_ids(windows: Seq<AnnotationWindow>, statuses: Seq<(String, String)>, review: bool) -> Set<Seq<char>> {
    Set::new(
        |id: Seq<char>|
            exists|i: int|
                0 <= i < windows.len() && #[trigger] windows[i].window_id@ == id && if review {
                    review_done(statuses, id)
                } else {
                    blind_done(statuses, id)
                },
    )
}

/// Distinct window ids, those done for the pass among them.
fn distinct_window_ids(windows: &[AnnotationWindow], statuses: &Vec<(String, String)>, review: bool, only_done: bool) -> (result: Vec<String>)
    ensures
        views(result@).no_duplicates(),
        only_done ==> views(result@).to_set() == done_ids(windows@, statuses@, review),
        !only_done ==> views(result@).to_set() == window_ids(windows@),
{
    let mut out: Vec<String> = Vec::new();
    let mut i: usize = 0;
    while i < windows.len()
        invariant
            i <= windows@.len(),
            views(out@).no_duplicates(),
            only_done ==> views(out@).to_set() == done_ids(windows@.subrange(0, i as int), statuses@, review),
            !only_done ==> views(out@).to_set() == window_ids(windows@.subrange(0, i as int)),
        decreases windows@.len() - i,
    {
        let ghost prev = windows@.subrange(0, i as int);
        let ghost next = windows@.subrange(0, i + 1);
        let ghost before = views(out@).to_set();
        let id = windows[i].window_id.as_str();
        let take = !only_done || window_done(statuses, id, review);
        if take {
            insert_unique(&mut out, id.to_owned());
        }
        proof {
            let added: Set<Seq<char>> = if take { set![id@] } else { Set::empty() };
            assert(views(out@).to_set() =~= before + added);
            if only_done {
                assert forall|x: Seq<char>| done_ids(next, statuses@, review).contains(x) <==> (before + added).contains(x) by {
                    if done_ids(next, statuses@, review).contains(x) {
                        let k = choose|k: int| 0 <= k < next.len() && #[trigger] next[k].window_id@ == x && if review { review_done(statuses@, x) } else { blind_done(statuses@, x) };
                        if k < i {
                            assert(prev[k] == next[k]);
                        }
                    }
                    if before.contains(x) {
                        let k = choose|k: int| 0 <= k < prev.len() && #[trigger] prev[k].window_id@ == x && if review { review_done(statuses@, x) } else { blind_done(statuses@, x) };
                        assert(next[k] == prev[k]);
                    }
                    if added.contains(x) {
                        assert(next[i as int].window_id@ == x);
                    }
                }
                assert(done_ids(next, statuses@, review) =~= views(out@).to_set());
            } else {
                assert forall|x: Seq<char>| window_ids(next).contains(x) <==> (before + added).contains(x) by {
                    if window_ids(next).contains(x) {
                        let k = choose|k: int| 0 <= k < next.len() && #[trigger] next[k].window_id@ == x;
                        if k < i {
                            assert(prev[k] == next[k]);
                        }
                    }
                    if before.contains(x) {
                        let k = choose|k: int| 0 <= k < prev.len() && #[trigger] prev[k].window_id@ == x;
                        assert(next[k] == prev[k]);
                    }
                    if added.contains(x) {
                        assert(next[i as int].window_id@ == x);
                    }
                }
                assert(window_ids(next) =~= views(out@).to_set());
            }
        }
        i += 1;
    }
    assert(windows@.subrange(0, windows@.len() as int) =~= windows@);
    out
}

pub open spec fn pass_name(review: bool) -> Seq<char> {
    if review {
        "Review"@
    } else {
        "Blind"@
    }
}

/// The message for an incomplete pass: windows remaining, total, completed.
pub open spec fn incomplete_message(review: bool, total: nat, completed: nat) -> Seq<char> {
    pass_name(review) + " annotation is incomplete: "@ + decimal((total - completed) as nat) + " / "@
        + decimal(total) + " windows remain (completed: "@ + decimal(completed) + ")"@
}

/// A pass is complete only when every expected window is done; otherwise the
/// error says how many distinct windows remain.
pub fn require_complete(windows: &[AnnotationWindow], session: &AnnotationSession, review: bool) -> (result: Result<(), String>)
    ensures
        result is Ok <==> all_done(windows@, session.window_status@, review),
        result matches Err(e) ==> e@ == incomplete_message(
            review,
            window_ids(windows@).len(),
            done_ids(windows@, session.window_status@, review).len(),
        ),
        done_ids(windows@, session.window_status@, review).len() <= window_ids(windows@).len(),
{
    let ids = distinct_window_ids(windows, &session.window_status, review, false);
    let done = distinct_window_ids(windows, &session.window_status, review, true);
    proof {
        views(ids@).unique_seq_to_set();
        views(done@).unique_seq_to_set();
        assert(done_ids(windows@, session.window_status@, review).subset_of(window_ids(windows@)));
        vstd::set_lib::lemma_len_subset(done_ids(windows@, session.window_status@, review), window_ids(windows@));
    }
    if windows_done(windows, &session.window_status, review) {
        return Ok(());
    }
    let total = ids.len();
    let completed = done.len();
    let mut msg = if review {
        owned("Review")
    } else {
        owned("Blind")
    };
    msg.append(" annotation is incomplete: ");
    let remaining = u64_to_decimal((total - completed) as u64);
    msg.append(remaining.as_str());
    msg.append(" / ");
    let total_digits = u64_to_decimal(total as u64);
    msg.append(total_digits.as_str());
    msg.append(" windows remain (completed: ");
    let done_digits = u64_to_decimal(completed as u64);
    msg.append(done_digits.as_str());
    msg.append(")");
    Err(msg)
}

/// The annotation kinds a draft may use.
pub open spec fn allowed_kind(kind: Seq<char>) -> bool {
    kind == "short_speech"@ || kind == "backchannel"@ || kind == "noise"@ || kind
        == "non_speech_vocalization"@ || kind == "ordinary_speech_control"@
}

pub fn is_allowed_kind(kind: &str) -> (result: bool)
    ensures
        result == allowed_kind(kind@),
{
    str_eq(kind, "short_speech") || str_eq(kind, "backchannel") || str_eq(kind, "noise")
        || str_eq(kind, "non_speech_vocalization") || str_eq(kind, "ordinary_speech_control")
}

pub open spec fn speaker_keys(map: Seq<SpeakerMapEntry>) -> Seq<Seq<char>> {
    map.map_values(|e: SpeakerMapEntry| e.key@)
}

/// The problem with speaker-map entry `i`, if any.
pub open spec fn speaker_entry_error(map: Seq<SpeakerMapEntry>, i: int) -> Option<Seq<char>> {
    if all_ws(map[i].key@) || speaker_keys(map).subrange(0, i).contains(map[i].key@) {
        Some("speaker map keys must be nonempty and unique"@)
    } else if !starts_with_spec(map[i].key@, "gt_speaker_"@) {
        Some("ground-truth speaker keys must use the gt_speaker_ namespace"@)
    } else {
        None
    }
}

pub open spec fn first_speaker_error(map: Seq<SpeakerMapEntry>, n: int) -> Option<Seq<char>>
    decreases n,
{
    if n <= 0 {
        None
    } else {
        match first_speaker_error(map, n - 1) {
            Some(e) => Some(e),
            None => speaker_entry_error(map, n - 1),
        }
    }
}

pub open spec fn event_ids(events: Seq<AnnotationEvent>) -> Seq<Seq<char>> {
    events.map_values(|e: AnnotationEvent| e.event_id@)
}

/// The problem with event `i`, if any.
pub open spec fn event_error(events: Seq<AnnotationEvent>, keys: Seq<Seq<char>>, i: int) -> Option<Seq<char>> {
    let e = events[i];
    if all_ws(e.event_id@) || event_ids(events).subrange(0, i).contains(e.event_id@) {
        Some("event ids must be nonempty and unique"@)
    } else if e.start_ms < 0 || e.end_ms <= e.start_ms {
        Some(e.event_id@ + " has invalid timing"@)
    } else if !allowed_kind(e.kind@) {
        Some(e.event_id@ + " has invalid annotation kind"@)
    } else {
        match e.speaker {
            Some(sp) => if all_ws(sp@) {
                Some(e.event_id@ + " has an empty speaker key"@)
            } else if !keys.contains(sp@) {
                Some(e.event_id@ + " references speaker not present in meeting-local speaker map"@)
            } else {
                None
            },
            None => None,
        }
    }
}

pub open spec fn first_event_error(events: Seq<AnnotationEvent>, keys: Seq<Seq<char>>, n: int) -> Option<Seq<char>>
    decreases n,
{
    if n <= 0 {
        None
    } else {
        match first_event_error(events, keys, n - 1) {
            Some(e) => Some(e),
            None => event_error(events, keys, n - 1),
        }
    }
}

proof fn lemma_speaker_error_stays(map: Seq<SpeakerMapEntry>, k: int, n: int)
    requires
        0 <= k <= n,
        first_speaker_error(map, k) is Some,
    ensures
        first_speaker_error(map, n) == first_speaker_error(map, k),
    decreases n - k,
{
    if n > k {
        lemma_speaker_error_stays(map, k, n - 1);
    }
}

proof fn lemma_event_error_stays(events: Seq<AnnotationEvent>, keys: Seq<Seq<char>>, k: int, n: int)
    requires
        0 <= k <= n,
        first_event_error(events, keys, k) is Some,
    ensures
        first_event_error(events, keys, n) == first_event_error(events, keys, k),
    decreases n - k,
{
    if n > k {
        lemma_event_error_stays(events, keys, k, n - 1);
    }
}

/// The first structural problem of a draft and its session, if any.
pub open spec fn shape_error(draft: AnnotationDraft, session: AnnotationSession) -> Option<Seq<char>> {
    if draft.schema_version != DRAFT_SCHEMA_VERSION || session.schema_version != DRAFT_SCHEMA_VERSION {
        Some("unsupported annotation workspace schema version"@)
    } else if draft.meeting_id@ != session.meeting_id@ {
        Some("draft and session meeting_id differ"@)
    } else {
        match first_speaker_error(session.speaker_map@, session.speaker_map@.len() as int) {
            Some(e) => Some(e),
            None => first_event_error(
                draft.events@,
                speaker_keys(session.speaker_map@),
                draft.events@.len() as int,
            ),
        }
    }
}

fn key_seen(map: &Vec<SpeakerMapEntry>, upto: usize, key: &str) -> (result: bool)
    requires
        upto <= map@.len(),
    ensures
        result == speaker_keys(map@).subrange(0, upto as int).contains(key@),
{
    let mut k: usize = 0;
    while k < upto
        invariant
            upto <= map@.len(),
            k <= upto,
            forall|q: int| 0 <= q < k ==> map@[q].key@ != key@,
        decreases upto - k,
    {
        if str_eq(map[k].key.as_str(), key) {
            assert(speaker_keys(map@).subrange(0, upto as int)[k as int] == key@);
            return true;
        }
        k += 1;
    }
    assert forall|q: int| 0 <= q < upto implies speaker_keys(map@).subrange(0, upto as int)[q] != key@ by {
        assert(speaker_keys(map@).subrange(0, upto as int)[q] == map@[q].key@);
    }
    false
}

fn id_seen(events: &Vec<AnnotationEvent>, upto: usize, id: &str) -> (result: bool)
    requires
        upto <= events@.len(),
    ensures
        result == event_ids(events@).subrange(0, upto as int).contains(id@),
{
    let mut k: usize = 0;
    while k < upto
        invariant
            upto <= events@.len(),
            k <= upto,
            forall|q: int| 0 <= q < k ==> events@[q].event_id@ != id@,
        decreases upto - k,
    {
        if str_eq(events[k].event_id.as_str(), id) {
            assert(event_ids(events@).subrange(0, upto as int)[k as int] == id@);
            return true;
        }
        k += 1;
    }
    assert forall|q: int| 0 <= q < upto implies event_ids(events@).subrange(0, upto as int)[q] != id@ by {
        assert(event_ids(events@).subrange(0, upto as int)[q] == events@[q].event_id@);
    }
    false
}

/// Rejects drafts whose structure the workspace cannot trust: schema,
/// meeting, speaker map (nonblank, unique, `gt_speaker_` namespace) and events
/// (nonblank unique ids, valid timing, allowed kinds, known speakers).
pub fn validate_draft_shape(draft: &AnnotationDraft, session: &AnnotationSession) -> (result: Result<(), String>)
    ensures
        match result {
            Ok(_) => shape_error(*draft, *session) is None,
            Err(e) => shape_error(*draft, *session) == Some(e@),
        },
{
    if draft.schema_version != DRAFT_SCHEMA_VERSION || session.schema_version != DRAFT_SCHEMA_VERSION {
        return Err(owned("unsupported annotation workspace schema version"));
    }
    if !str_eq(draft.meeting_id.as_str(), session.meeting_id.as_str()) {
        return Err(owned("draft and session meeting_id differ"));
    }
    let map = &session.speaker_map;
    let mut i: usize = 0;
    while i < map.len()
        invariant
            i <= map@.len(),
            map@ == session.speaker_map@,
            draft.schema_version == DRAFT_SCHEMA_VERSION,
            session.schema_version == DRAFT_SCHEMA_VERSION,
            draft.meeting_id@ == session.meeting_id@,
            first_speaker_error(map@, i as int) is None,
        decreases map@.len() - i,
    {
        let key = map[i].key.as_str();
        if is_blank(key) || key_seen(map, i, key) {
            let msg = owned("speaker map keys must be nonempty and unique");
            proof {
                assert(first_speaker_error(map@, i + 1) == Some(msg@));
                lemma_speaker_error_stays(map@, i + 1, map@.len() as int);
            }
            return Err(msg);
        }
        if !starts_with(key, "gt_speaker_") {
            let msg = owned("ground-truth speaker keys must use the gt_speaker_ namespace");
            proof {
                assert(first_speaker_error(map@, i + 1) == Some(msg@));
                lemma_speaker_error_stays(map@, i + 1, map@.len() as int);
            }
            return Err(msg);
        }
        assert(first_speaker_error(map@, i + 1) is None);
        i += 1;
    }
    let events = &draft.events;
    let mut j: usize = 0;
    while j < events.len()
        invariant
            j <= events@.len(),
            events@ == draft.events@,
            map@ == session.speaker_map@,
            draft.schema_version == DRAFT_SCHEMA_VERSION,
            session.schema_version == DRAFT_SCHEMA_VERSION,
            draft.meeting_id@ == session.meeting_id@,
            first_speaker_error(map@, map@.len() as int) is None,
            first_event_error(events@, speaker_keys(map@), j as int) is None,
        decreases events@.len() - j,
    {
        let e = &events[j];
        let id = e.event_id.as_str();
        let ghost keys = speaker_keys(map@);
        let problem: Option<String> = if is_blank(id) || id_seen(events, j, id) {
            Some(owned("event ids must be nonempty and unique"))
        } else if e.start_ms < 0 || e.end_ms <= e.start_ms {
            Some(concat(id, " has invalid timing"))
        } else if !is_allowed_kind(e.kind.as_str()) {
            Some(concat(id, " has invalid annotation kind"))
        } else {
            match &e.speaker {
                Some(sp) => {
                    proof {
                        assert(speaker_keys(map@).subrange(0, map@.len() as int) =~= speaker_keys(map@));
                    }
                    if is_blank(sp.as_str()) {
                        Some(concat(id, " has an empty speaker key"))
                    } else if !key_seen(map, map.len(), sp.as_str()) {
                        Some(concat(id, " references speaker not present in meeting-local speaker map"))
                    } else {
                        None
                    }
                },
                None => None,
            }
        };
        proof {
            assert(events@[j as int] == *e);
            assert(event_error(events@, keys, j as int) == match problem {
                Some(m) => Some(m@),
                None => None::<Seq<char>>,
            });
            assert(first_event_error(events@, keys, j + 1) == event_error(events@, keys, j as int));
        }
        match problem {
            Some(m) => {
                proof {
                    lemma_event_error_stays(events@, keys, j + 1, events@.len() as int);
                }
                return Err(m);
            },
            None => {},
        }
        j += 1;
    }
    Ok(())
}

/// What local QA reports: every problem found, rows that may annotate one
/// event twice, and the recording length the artifact gives.
#[derive(Debug)]
pub struct LocalQaReport {
    pub errors: Vec<String>,
    pub possible_duplicates: Vec<DuplicateCandidate>,
    pub source_duration_ms: Option<i64>,
}

pub open spec fn one(m: Seq<char>) -> Seq<Seq<char>> {
    seq![m]
}

pub open spec fn when(c: bool, m: Seq<char>) -> Seq<Seq<char>> {
    if c {
        seq![m]
    } else {
        seq![]
    }
}

/// The QA findings for one event, in the order they are reported.
pub open spec fn event_findings(e: AnnotationEvent, duration: Option<i64>, keys: Seq<Seq<char>>) -> Seq<Seq<char>> {
    let id = e.event_id@;
    when(duration is Some && e.end_ms > duration->0, id + " exceeds source duration"@)
        + when(
        (e.kind@ == "short_speech"@ || e.kind@ == "backchannel"@) && !e.annotation_uncertain
            && e.speaker is None,
        id + " requires a speaker unless uncertain"@,
    ) + when(e.kind@ == "noise"@ && e.speaker is Some, id + " noise should not have a speaker"@)
        + when(
        e.kind@ == "ordinary_speech_control"@ && e.end_ms - e.start_ms <= 1200,
        id + " ordinary_speech_control must be longer than 1200 ms"@,
    ) + when(
        !(e.annotation_status@ == "blind_confirmed"@ || e.annotation_status@ == "reviewed"@),
        id + " requires explicit annotation confirmation"@,
    ) + when(
        e.speaker is Some && !keys.contains(e.speaker->0@),
        id + " references speaker not present in meeting-local speaker map"@,
    )
}

pub open spec fn events_findings(
    events: Seq<AnnotationEvent>,
    duration: Option<i64>,
    keys: Seq<Seq<char>>,
    n: int,
) -> Seq<Seq<char>>
    decreases n,
{
    if n <= 0 {
        seq![]
    } else {
        events_findings(events, duration, keys, n - 1) + event_findings(events[n - 1], duration, keys)
    }
}

fn push_when(out: &mut Vec<String>, c: bool, id: &str, suffix: &str)
    ensures
        views(final(out)@) == views(old(out)@) + when(c, id@ + suffix@),
{
    if c {
        let ghost before = views(out@);
        out.push(concat(id, suffix));
        proof {
            assert(views(out@) =~= before + when(c, id@ + suffix@));
        }
    } else {
        assert(views(out@) =~= views(out@) + when(c, id@ + suffix@));
    }
}

fn speaker_known(map: &Vec<SpeakerMapEntry>, key: &str) -> (result: bool)
    ensures
        result == speaker_keys(map@).contains(key@),
{
    let mut i: usize = 0;
    while i < map.len()
        invariant
            i <= map@.len(),
            forall|k: int| 0 <= k < i ==> map@[k].key@ != key@,
        decreases map@.len() - i,
    {
        if str_eq(map[i].key.as_str(), key) {
            assert(speaker_keys(map@)[i as int] == key@);
            return true;
        }
        i += 1;
    }
    assert forall|k: int| 0 <= k < speaker_keys(map@).len() implies speaker_keys(map@)[k] != key@ by {
        assert(speaker_keys(map@)[k] == map@[k].key@);
    }
    false
}

/// Appends the QA findings of one event.
#[verifier::rlimit(40)]
fn push_findings_of(out: &mut Vec<String>, e: &AnnotationEvent, duration: Option<i64>, map: &Vec<SpeakerMapEntry>)
    ensures
        views(final(out)@) == views(old(out)@) + event_findings(*e, duration, speaker_keys(map@)),
{
    let id = e.event_id.as_str();
    let ghost v0 = views(out@);
    let over = match duration {
        Some(d) => e.end_ms > d,
        None => false,
    };
    push_when(out, over, id, " exceeds source duration");
    let kind = e.kind.as_str();
    let needs_speaker = (str_eq(kind, "short_speech") || str_eq(kind, "backchannel")) && !e.annotation_uncertain
        && e.speaker.is_none();
    push_when(out, needs_speaker, id, " requires a speaker unless uncertain");
    push_when(out, str_eq(kind, "noise") && e.speaker.is_some(), id, " noise should not have a speaker");
    let short_control = str_eq(kind, "ordinary_speech_control") && (e.end_ms as i128) - (e.start_ms as i128) <= 1200;
    push_when(out, short_control, id, " ordinary_speech_control must be longer than 1200 ms");
    let status = e.annotation_status.as_str();
    let unconfirmed = !(str_eq(status, "blind_confirmed") || str_eq(status, "reviewed"));
    push_when(out, unconfirmed, id, " requires explicit annotation confirmation");
    let unknown = match &e.speaker {
        Some(sp) => !speaker_known(map, sp.as_str()),
        None => false,
    };
    push_when(out, unknown, id, " references speaker not present in meeting-local speaker map");
    assert(views(out@) =~= v0 + event_findings(*e, duration, speaker_keys(map@)));
}

/// Appends the QA findings of every event, in event order.
fn push_event_findings(out: &mut Vec<String>, events: &Vec<AnnotationEvent>, duration: Option<i64>, map: &Vec<SpeakerMapEntry>)
    ensures
        views(final(out)@) == views(old(out)@) + events_findings(
            events@,
            duration,
            speaker_keys(map@),
            events@.len() as int,
        ),
{
    let ghost start = views(out@);
    let ghost keys = speaker_keys(map@);
    let mut i: usize = 0;
    while i < events.len()
        invariant
            i <= events@.len(),
            keys == speaker_keys(map@),
            views(out@) == start + events_findings(events@, duration, keys, i as int),
        decreases events@.len() - i,
    {
        let ghost mid = views(out@);
        push_findings_of(out, &events[i], duration, map);
        proof {
            assert(views(out@) =~= start + events_findings(events@, duration, keys, i + 1));
        }
        i += 1;
    }
}

/// The dataset row local QA compares an event as.
pub open spec fn local_row(r: DatasetRecord, e: AnnotationEvent, meeting_id: Seq<char>) -> bool {
    &&& r.ground_truth_event_id@ == e.event_id@
    &&& r.record_type@ == "ground_truth_event"@
    &&& r.recall_eligible
    &&& r.evidence_origin@ == "production_artifact"@
    &&& r.meeting_id@ == meeting_id
    &&& r.production_artifact_path matches Some(p) && p@ == "placeholder.json"@
    &&& r.start_ms == e.start_ms
    &&& r.end_ms == e.end_ms
    &&& r.duration_bucket@ == crate::evaluation::dataset::duration_bucket_spec(e.end_ms - e.start_ms)
    &&& r.ground_truth_kind@ == e.kind@
    &&& crate::evaluation::dataset::opt_view(r.ground_truth_speaker) == crate::evaluation::dataset::opt_view(e.speaker)
    &&& r.annotation_uncertain == e.annotation_uncertain
    &&& r.expected_visible_speakers@.len() == 0
    &&& views(r.tags@) == event_tags_spec(e)
}

pub open spec fn local_rows(rows: Seq<DatasetRecord>, events: Seq<AnnotationEvent>, meeting_id: Seq<char>) -> bool {
    rows.len() == events.len() && forall|i: int| 0 <= i < rows.len() ==> local_row(#[trigger] rows[i], events[i], meeting_id)
}

/// The candidates are exactly the possible duplicates among `rows`.
pub open spec fn duplicates_of(c: Seq<DuplicateCandidate>, rows: Seq<DatasetRecord>) -> bool {
    let pairs = crate::evaluation::dataset::dup_pairs(rows, rows.len() as int);
    c.len() == pairs.len() && forall|k: int|
        0 <= k < c.len() ==> crate::evaluation::dataset::candidate_matches(
            #[trigger] c[k],
            rows[pairs[k].0],
            rows[pairs[k].1],
        )
}

fn local_row_of(e: &AnnotationEvent, meeting_id: &str) -> (r: DatasetRecord)
    requires
        i64::MIN <= e.end_ms - e.start_ms <= i64::MAX,
    ensures
        local_row(r, *e, meeting_id@),
{
    DatasetRecord {
        ground_truth_event_id: owned(e.event_id.as_str()),
        record_type: owned("ground_truth_event"),
        recall_eligible: true,
        evidence_origin: owned("production_artifact"),
        meeting_id: owned(meeting_id),
        production_artifact_path: Some(owned("placeholder.json")),
        start_ms: e.start_ms,
        end_ms: e.end_ms,
        duration_bucket: owned(duration_bucket(e.end_ms - e.start_ms)),
        ground_truth_kind: owned(e.kind.as_str()),
        ground_truth_speaker: match &e.speaker {
            Some(sp) => Some(owned(sp.as_str())),
            None => None,
        },
        annotation_uncertain: e.annotation_uncertain,
        expected_visible_speakers: Vec::new(),
        tags: event_tags(e),
    }
}

/// Possible duplicate annotations within one draft.
pub fn local_duplicates(events: &Vec<AnnotationEvent>, meeting_id: &str) -> (result: Vec<DuplicateCandidate>)
    requires
        forall|i: int| 0 <= i < events@.len() ==> i64::MIN <= #[trigger] events@[i].end_ms - events@[i].start_ms <= i64::MAX,
    ensures
        exists|rows: Seq<DatasetRecord>| local_rows(rows, events@, meeting_id@) && duplicates_of(result@, rows),
{
    let mut rows: Vec<DatasetRecord> = Vec::new();
    let mut i: usize = 0;
    while i < events.len()
        invariant
            i <= events@.len(),
            forall|k: int| 0 <= k < events@.len() ==> i64::MIN <= #[trigger] events@[k].end_ms - events@[k].start_ms <= i64::MAX,
            rows@.len() == i,
            forall|k: int| 0 <= k < i ==> local_row(#[trigger] rows@[k], events@[k], meeting_id@),
        decreases events@.len() - i,
    {
        assert(events@[i as int].end_ms - events@[i as int].start_ms <= i64::MAX);
        let r = local_row_of(&events[i], meeting_id);
        rows.push(r);
        i += 1;
    }
    let found = possible_duplicates(&rows);
    assert(local_rows(rows@, events@, meeting_id@) && duplicates_of(found@, rows@));
    found
}

/// Why the recording and the artifact disagree on length.
pub open spec fn mismatch_message(media: i64, artifact: i64) -> Seq<char> {
    "source media duration "@ + signed_decimal(media as int) + "ms does not match artifact duration "@
        + signed_decimal(artifact as int) + "ms (difference "@ + signed_decimal(abs_int(media - artifact))
        + "ms exceeds "@ + signed_decimal(tolerance_spec(artifact as int)) + "ms tolerance)"@
}

/// Findings about the production artifact, and the recording length it gives.
pub open spec fn artifact_findings(session: AnnotationSession, artifact: Result<i64, String>) -> (Seq<Seq<char>>, Option<i64>) {
    if all_ws(session.production_artifact_path@) {
        (seq!["production artifact path is required"@], None)
    } else {
        match artifact {
            Ok(a) => (
                match session.source_media_duration_ms {
                    Some(m) => when(
                        !(abs_int(m - a) <= tolerance_spec(a as int)),
                        mismatch_message(m, a),
                    ),
                    None => seq![],
                },
                Some(a),
            ),
            Err(chain) => (seq!["production artifact: "@ + chain@], None),
        }
    }
}

/// Every finding of local QA, in the order it reports them.
pub open spec fn qa_findings(
    draft: AnnotationDraft,
    session: AnnotationSession,
    identity_problem: Option<String>,
    artifact: Result<i64, String>,
) -> Seq<Seq<char>> {
    let shape = match shape_error(draft, session) {
        Some(e) => seq![e],
        None => seq![],
    };
    let identity = match identity_problem {
        Some(c) => seq!["production artifact identity: "@ + c@],
        None => seq![],
    };
    let (artifact_part, duration) = artifact_findings(session, artifact);
    shape + identity + artifact_part + events_findings(
        draft.events@,
        duration,
        speaker_keys(session.speaker_map@),
        draft.events@.len() as int,
    )
}

/// Local QA of a draft before export. `identity_problem` is the error chain
/// of the artifact identity check, if it failed; `artifact` is the recording
/// length of the validated production artifact or the error chain of
/// reading it (ignored when the session names no artifact).
pub fn qa_workspace(
    draft: &AnnotationDraft,
    session: &AnnotationSession,
    identity_problem: Option<String>,
    artifact: Result<i64, String>,
) -> (report: LocalQaReport)
    requires
        forall|i: int| 0 <= i < draft.events@.len() ==> i64::MIN <= #[trigger] draft.events@[i].end_ms - draft.events@[i].start_ms <= i64::MAX,
        (match (artifact, session.source_media_duration_ms) {
            (Ok(a), Some(m)) => -i64::MAX <= m - a <= i64::MAX,
            _ => true,
        }),
    ensures
        views(report.errors@) == qa_findings(*draft, *session, identity_problem, artifact),
        report.source_duration_ms == artifact_findings(*session, artifact).1,
        exists|rows: Seq<DatasetRecord>| local_rows(rows, draft.events@, draft.meeting_id@) && duplicates_of(report.possible_duplicates@, rows),
{
    let ghost a0 = artifact;
    let mut errors: Vec<String> = Vec::new();
    match validate_draft_shape(draft, session) {
        Err(e) => {
            errors.push(e);
        },
        Ok(_) => {},
    }
    let ghost after_shape = views(errors@);
    match identity_problem {
        Some(c) => {
            errors.push(concat("production artifact identity: ", c.as_str()));
        },
        None => {},
    }
    let ghost after_identity = views(errors@);
    let mut source_duration_ms: Option<i64> = None;
    if !is_blank(session.production_artifact_path.as_str()) {
        match artifact {
            Ok(a) => {
                source_duration_ms = Some(a);
                match session.source_media_duration_ms {
                    Some(m) => {
                        if !source_media_duration_matches(m, a) {
                            let mut msg = owned("source media duration ");
                            let ms = i64_to_decimal(m);
                            msg.append(ms.as_str());
                            msg.append("ms does not match artifact duration ");
                            let as_ = i64_to_decimal(a);
                            msg.append(as_.as_str());
                            msg.append("ms (difference ");
                            let delta = if m >= a { m - a } else { a - m };
                            let ds = i64_to_decimal(delta);
                            msg.append(ds.as_str());
                            msg.append("ms exceeds ");
                            let t = source_media_duration_tolerance_ms(a);
                            let ts = i64_to_decimal(t);
                            msg.append(ts.as_str());
                            msg.append("ms tolerance)");
                            errors.push(msg);
                        }
                    },
                    None => {},
                }
            },
            Err(chain) => {
                errors.push(concat("production artifact: ", chain.as_str()));
            },
        }
    } else {
        errors.push(owned("production artifact path is required"));
    }
    proof {
        let (part, d) = artifact_findings(*session, a0);
        assert(views(errors@) =~= after_identity + part);
        assert(source_duration_ms == d);
    }
    let ghost before_events = views(errors@);
    push_event_findings(&mut errors, &draft.events, source_duration_ms, &session.speaker_map);
    proof {
        assert(views(errors@) =~= qa_findings(*draft, *session, identity_problem, a0));
    }
    let possible = local_duplicates(&draft.events, draft.meeting_id.as_str());
    let report = LocalQaReport { errors, possible_duplicates: possible, source_duration_ms };
    proof {
        let rows = choose|rows: Seq<DatasetRecord>| local_rows(rows, draft.events@, draft.meeting_id@) && duplicates_of(possible@, rows);
        assert(local_rows(rows, draft.events@, draft.meeting_id@) && duplicates_of(report.possible_duplicates@, rows));
    }
    report
}

/// A transcript row shown in review mode.
#[derive(Debug, Clone)]
pub struct ReviewTranscript {
    pub start_ms: i64,
    pub end_ms: i64,
    pub text: String,
}

/// A diarizer turn shown in review mode.
#[derive(Debug, Clone)]
pub struct ReviewDiarizerTurn {
    pub start_ms: i64,
    pub end_ms: i64,
    pub speaker_key: String,
    pub overlap: bool,
}

/// Opens a meeting's workspace in a mode; paths are carried as strings.
#[derive(Debug)]
pub struct WorkspaceLoadRequest {
    pub dataset_dir: String,
    pub meeting_id: String,
    pub mode: AnnotationMode,
}

/// The project file written when a meeting's annotation starts.
#[derive(Debug)]
pub struct AnnotationProject {
    pub schema_version: u32,
    pub meeting_id: String,
    pub source_media: String,
    pub production_artifact: String,
    pub annotation_draft: &'static str,
    pub blind_windows: &'static str,
    pub review_windows: &'static str,
    pub blind_completed: bool,
    pub review_completed: bool,
    pub production_artifact_identity: ProductionArtifactIdentity,
}

impl AnnotationProject {
    /// A fresh project of the current schema: the standard file names, no
    /// pass completed.
    pub fn new(
        meeting_id: String,
        source_media: String,
        production_artifact: String,
        production_artifact_identity: ProductionArtifactIdentity,
    ) -> (result: Self)
        ensures
            result.schema_version == DRAFT_SCHEMA_VERSION,
            result.meeting_id == meeting_id,
            result.source_media == source_media,
            result.production_artifact == production_artifact,
            result.annotation_draft@ == "annotations.draft.json"@,
            result.blind_windows@ == "annotation_windows.blind.jsonl"@,
            result.review_windows@ == "annotation_windows.review.jsonl"@,
            !result.blind_completed,
            !result.review_completed,
            result.production_artifact_identity == production_artifact_identity,
    {
        AnnotationProject {
            schema_version: DRAFT_SCHEMA_VERSION,
            meeting_id,
            source_media,
            production_artifact,
            annotation_draft: "annotations.draft.json",
            blind_windows: "annotation_windows.blind.jsonl",
            review_windows: "annotation_windows.review.jsonl",
            blind_completed: false,
            review_completed: false,
            production_artifact_identity,
        }
    }
}

/// Starts a meeting's annotation project; paths are carried as strings.
#[derive(Debug)]
pub struct InitializeProjectRequest {
    pub dataset_dir: String,
    pub meeting_id: String,
    pub source_media_path: String,
    pub production_artifact_path: String,
}

/// Saves a draft and its session; the directory is carried as a string.
#[derive(Debug)]
pub struct WorkspaceSaveRequest {
    pub dataset_dir: String,
    pub draft: AnnotationDraft,
    pub session: AnnotationSession,
}

/// Media containers a project accepts, by lowercase file extension.
pub open spec fn supported_media(extension: Seq<char>) -> bool {
    extension == "wav"@ || extension == "mp3"@ || extension == "m4a"@ || extension == "mp4"@ || extension
        == "webm"@
}

pub fn is_supported_media_extension(extension: &str) -> (result: bool)
    ensures
        result == supported_media(extension@),
{
    str_eq(extension, "wav") || str_eq(extension, "mp3") || str_eq(extension, "m4a") || str_eq(extension, "mp4")
        || str_eq(extension, "webm")
}

/// The part of an event id after its last `-` (the whole id without one).
pub open spec fn id_suffix(id: Seq<char>) -> Seq<char> {
    id.subrange(suffix_start(id, id.len() as int), id.len() as int)
}

pub open spec fn suffix_start(id: Seq<char>, end: int) -> int
    decreases end,
{
    if end <= 0 {
        0
    } else if id[end - 1] == '-' {
        end
    } else {
        suffix_start(id, end - 1)
    }
}

proof fn lemma_suffix_start(id: Seq<char>, end: int)
    requires
        0 <= end <= id.len(),
    ensures
        0 <= suffix_start(id, end) <= end,
    decreases end,
{
    if end > 0 && id[end - 1] != '-' {
        lemma_suffix_start(id, end - 1);
    }
}

/// The largest number any event id ends in (0 when none does).
pub open spec fn max_event_number(events: Seq<AnnotationEvent>, n: int) -> u64
    decreases n,
{
    if n <= 0 {
        0
    } else {
        let rest = max_event_number(events, n - 1);
        match parse_u64_spec(id_suffix(events[n - 1].event_id@)) {
            Some(v) => if v > rest {
                v
            } else {
                rest
            },
            None => rest,
        }
    }
}

fn event_number(id: &str) -> (result: Option<u64>)
    ensures
        result == parse_u64_spec(id_suffix(id@)),
{
    let n = char_len(id);
    let mut start: usize = n;
    while start > 0 && char_at(id, start - 1) != '-'
        invariant
            n == id@.len(),
            start <= n,
            suffix_start(id@, n as int) == suffix_start(id@, start as int),
        decreases start,
    {
        start -= 1;
    }
    parse_u64(char_slice(id, start, n))
}

/// The sequence number for the next new event: one past the largest number
/// an existing event id ends in, and never below the session's own counter.
pub fn next_event_sequence(events: &Vec<AnnotationEvent>, session_next: u64) -> (result: u64)
    requires
        max_event_number(events@, events@.len() as int) < u64::MAX,
    ensures
        result == (if session_next >= max_event_number(events@, events@.len() as int) + 1 {
            session_next as int
        } else {
            max_event_number(events@, events@.len() as int) + 1
        }),
{
    let mut best: u64 = 0;
    let mut i: usize = 0;
    while i < events.len()
        invariant
            i <= events@.len(),
            best == max_event_number(events@, i as int),
        decreases events@.len() - i,
    {
        match event_number(events[i].event_id.as_str()) {
            Some(v) => {
                if v > best {
                    best = v;
                }
            },
            None => {},
        }
        i += 1;
    }
    let from_events = best + 1;
    if session_next >= from_events {
        session_next
    } else {
        from_events
    }
}

/// Why the session's bound artifact cannot be checked at all.
pub fn identity_precheck(session: &AnnotationSession) -> (result: Result<&ProductionArtifactIdentity, String>)
    ensures
        match result {
            Ok(identity) => session.artifact_identity == Some(*identity)
                && session.production_artifact_path@ == identity.relative_path@,
            Err(e) => match session.artifact_identity {
                None => e@ == "annotation project has no production artifact identity"@,
                Some(identity) => session.production_artifact_path@ != identity.relative_path@
                    && e@ == "session production artifact path differs from the bound artifact identity"@,
            },
        },
{
    match &session.artifact_identity {
        None => Err(owned("annotation project has no production artifact identity")),
        Some(identity) => if !str_eq(session.production_artifact_path.as_str(), identity.relative_path.as_str()) {
            Err(owned("session production artifact path differs from the bound artifact identity"))
        } else {
            Ok(identity)
        },
    }
}

/// Whether the artifact on disk is still the one the session was bound to:
/// same SHA-256 first, then same id, schema and transcription run.
pub fn identity_matches(
    identity: &ProductionArtifactIdentity,
    sha256: &str,
    artifact_id: &str,
    schema_version: u32,
    transcription_run_id: &str,
) -> (result: Result<(), String>)
    ensures
        match result {
            Ok(_) => sha256@ == identity.sha256@ && artifact_id@ == identity.artifact_id@ && schema_version
                == identity.schema_version && transcription_run_id@ == identity.transcription_run_id@,
            Err(e) => if sha256@ != identity.sha256@ {
                e@ == "bound production artifact changed (SHA-256 mismatch)"@
            } else {
                (artifact_id@ != identity.artifact_id@ || schema_version != identity.schema_version
                    || transcription_run_id@ != identity.transcription_run_id@) && e@
                    == "bound production artifact identity changed"@
            },
        },
{
    if !str_eq(sha256, identity.sha256.as_str()) {
        return Err(owned("bound production artifact changed (SHA-256 mismatch)"));
    }
    if !str_eq(artifact_id, identity.artifact_id.as_str()) || schema_version != identity.schema_version || !str_eq(
        transcription_run_id,
        identity.transcription_run_id.as_str(),
    ) {
        return Err(owned("bound production artifact identity changed"));
    }
    Ok(())
}


/// The window ids of `windows[..i]`.
pub open spec fn window_ids_before(windows: Seq<AnnotationWindow>, i: int) -> Seq<Seq<char>> {
    windows.subrange(0, i).map_values(|w: AnnotationWindow| w.window_id@)
}

/// The first provenance problem among `windows[i..]`, checking each window
/// in turn: its meeting, a nonempty unique id, its timing, a recorded
/// artifact path, and whether that path opened (`opened[k]`) as the
/// project's artifact.
pub open spec fn provenance_problem(
    windows: Seq<AnnotationWindow>,
    meeting_id: Seq<char>,
    opened: Seq<Option<bool>>,
    i: int,
) -> Option<Seq<char>>
    decreases windows.len() - i,
{
    if i < 0 || i >= windows.len() {
        None
    } else {
        let w = windows[i];
        let id = w.window_id@;
        if w.meeting_id@ != meeting_id {
            Some("window "@ + id + " belongs to a different meeting"@)
        } else if all_ws(id) || window_ids_before(windows, i).contains(id) {
            Some("window ids must be nonempty and unique"@)
        } else if w.source_start_ms < 0 || w.source_end_ms <= w.source_start_ms {
            Some("window "@ + id + " has invalid timing"@)
        } else if all_ws(w.production_artifact_path@) {
            Some("window "@ + id + " has no production_artifact_path"@)
        } else {
            match opened[i] {
                None => Some("open window artifact for "@ + id),
                Some(false) => Some("window "@ + id + " was exported from a different production artifact"@),
                Some(true) => provenance_problem(windows, meeting_id, opened, i + 1),
            }
        }
    }
}

/// Checks that exported windows belong to the meeting and its artifact.
/// `opened[k]` tells whether window `k`'s artifact path opened and, if so,
/// whether it is the project's artifact.
pub fn validate_window_provenance(windows: &[AnnotationWindow], meeting_id: &str, opened: &[Option<bool>]) -> (result: Result<(), String>)
    requires
        opened@.len() == windows@.len(),
    ensures
        match provenance_problem(windows@, meeting_id@, opened@, 0) {
            None => result is Ok,
            Some(message) => result matches Err(e) && e@ == message,
        },
{
    let mut seen: Vec<String> = Vec::new();
    let mut i: usize = 0;
    while i < windows.len()
        invariant
            i <= windows@.len(),
            opened@.len() == windows@.len(),
            views(seen@) == window_ids_before(windows@, i as int),
            provenance_problem(windows@, meeting_id@, opened@, 0) == provenance_problem(
                windows@,
                meeting_id@,
                opened@,
                i as int,
            ),
        decreases windows@.len() - i,
    {
        let w = &windows[i];
        let id = w.window_id.as_str();
        if !str_eq(w.meeting_id.as_str(), meeting_id) {
            let mut msg = concat("window ", id);
            msg.append(" belongs to a different meeting");
            return Err(msg);
        }
        if is_blank(id) || contains_str(&seen, id) {
            return Err(owned("window ids must be nonempty and unique"));
        }
        if w.source_start_ms < 0 || w.source_end_ms <= w.source_start_ms {
            let mut msg = concat("window ", id);
            msg.append(" has invalid timing");
            return Err(msg);
        }
        if is_blank(w.production_artifact_path.as_str()) {
            let mut msg = concat("window ", id);
            msg.append(" has no production_artifact_path");
            return Err(msg);
        }
        match opened[i] {
            None => {
                return Err(concat("open window artifact for ", id));
            },
            Some(false) => {
                let mut msg = concat("window ", id);
                msg.append(" was exported from a different production artifact");
                return Err(msg);
            },
            Some(true) => {},
        }
        let ghost before = seen@;
        seen.push(owned(id));
        proof {
            assert(window_ids_before(windows@, i + 1) =~= window_ids_before(windows@, i as int).push(id@));
            assert(views(seen@) =~= views(before).push(id@));
        }
        i += 1;
    }
    Ok(())
}

/// One row of the benchmark manifest, as exported for an annotation event.
#[derive(Debug, Clone)]
pub struct ManifestLine {
    pub ground_truth_event_id: String,
    pub record_type: String,
    pub recall_eligible: bool,
    pub evidence_origin: String,
    pub meeting_id: String,
    pub production_artifact_path: String,
    pub production_artifact_sha256: String,
    pub start_ms: i64,
    pub end_ms: i64,
    pub duration_bucket: String,
    pub ground_truth_kind: String,
    pub ground_truth_speaker: Option<String>,
    pub annotation_uncertain: bool,
    pub expected_materialized: Option<bool>,
    pub embedded: bool,
    pub expected_visible_speakers: Vec<String>,
    pub tags: Vec<String>,
    pub notes: String,
}

/// `r` is the manifest row of event `e` of meeting `meeting_id`, bound to
/// the artifact at `artifact` with digest `sha`, listing `visible` speakers.
pub open spec fn manifest_line_of(
    r: ManifestLine,
    e: AnnotationEvent,
    meeting_id: Seq<char>,
    artifact: Seq<char>,
    sha: Seq<char>,
    visible: Seq<Seq<char>>,
) -> bool {
    &&& r.ground_truth_event_id@ == e.event_id@
    &&& r.record_type@ == "ground_truth_event"@
    &&& r.recall_eligible
    &&& r.evidence_origin@ == "production_artifact"@
    &&& r.meeting_id@ == meeting_id
    &&& r.production_artifact_path@ == artifact
    &&& r.production_artifact_sha256@ == sha
    &&& r.start_ms == e.start_ms
    &&& r.end_ms == e.end_ms
    &&& r.duration_bucket@ == crate::evaluation::dataset::duration_bucket_spec(e.end_ms - e.start_ms)
    &&& r.ground_truth_kind@ == e.kind@
    &&& crate::evaluation::dataset::opt_view(r.ground_truth_speaker) == crate::evaluation::dataset::opt_view(e.speaker)
    &&& r.annotation_uncertain == e.annotation_uncertain
    &&& r.expected_materialized == e.expected_materialized
    &&& r.embedded == e.embedded
    &&& views(r.expected_visible_speakers@) == visible
    &&& views(r.tags@) == event_tags_spec(e)
    &&& r.notes@ == e.notes@
}

fn copy_names(v: &Vec<String>) -> (result: Vec<String>)
    ensures
        views(result@) == views(v@),
{
    let mut out: Vec<String> = Vec::new();
    let mut i: usize = 0;
    while i < v.len()
        invariant
            i <= v@.len(),
            views(out@) == views(v@).subrange(0, i as int),
        decreases v@.len() - i,
    {
        let ghost before = out@;
        out.push(owned(v[i].as_str()));
        assert(views(out@) =~= views(before).push(v@[i as int]@));
        assert(views(v@).subrange(0, i + 1) =~= views(v@).subrange(0, i as int).push(v@[i as int]@));
        i += 1;
    }
    assert(views(v@).subrange(0, v@.len() as int) =~= views(v@));
    out
}

/// The benchmark-manifest row of an event: the event's span, kind, speaker
/// and flags, its duration bucket and tags, bound to the production artifact
/// (its path relative to the dataset and its digest) and listing the
/// meeting's visible speakers.
pub fn manifest_line(
    event: &AnnotationEvent,
    meeting_id: &str,
    artifact: &str,
    artifact_sha: &str,
    visible: &Vec<String>,
) -> (result: ManifestLine)
    requires
        i64::MIN <= event.end_ms - event.start_ms <= i64::MAX,
    ensures
        manifest_line_of(result, *event, meeting_id@, artifact@, artifact_sha@, views(visible@)),
{
    ManifestLine {
        ground_truth_event_id: owned(event.event_id.as_str()),
        record_type: owned("ground_truth_event"),
        recall_eligible: true,
        evidence_origin: owned("production_artifact"),
        meeting_id: owned(meeting_id),
        production_artifact_path: owned(artifact),
        production_artifact_sha256: owned(artifact_sha),
        start_ms: event.start_ms,
        end_ms: event.end_ms,
        duration_bucket: owned(duration_bucket(event.end_ms - event.start_ms)),
        ground_truth_kind: owned(event.kind.as_str()),
        ground_truth_speaker: match &event.speaker {
            Some(sp) => Some(owned(sp.as_str())),
            None => None,
        },
        annotation_uncertain: event.annotation_uncertain,
        expected_materialized: event.expected_materialized,
        embedded: event.embedded,
        expected_visible_speakers: copy_names(visible),
        tags: event_tags(event),
        notes: owned(event.notes.as_str()),
    }
}

} // verus!
