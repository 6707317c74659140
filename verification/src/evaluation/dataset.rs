//! The representative-data gate: which benchmark rows count, how well the
//! dataset covers the short-turn categories, and which rows look duplicated.

use vstd::prelude::*;
use crate::strings::{contains_str, insert_unique, lemma_lookup_push, lookup, lookup_str, pair_views, views};
use crate::text::{all_ws, concat, is_blank, owned, str_eq, u64_to_decimal, decimal};

verus! {

/// Duration bucket label of a short event.
pub open spec fn duration_bucket_spec(duration_ms: int) -> Seq<char> {
    if 100 <= duration_ms <= 299 {
        "100-300ms"@
    } else if 300 <= duration_ms <= 499 {
        "300-500ms"@
    } else if 500 <= duration_ms <= 799 {
        "500-800ms"@
    } else if 800 <= duration_ms <= 1200 {
        "800-1200ms"@
    } else {
        "non_short_control"@
    }
}

/// The duration bucket a short event falls in; longer or shorter events are
/// `non_short_control`.
pub fn duration_bucket(duration_ms: i64) -> (result: &'static str)
    ensures
        result@ == duration_bucket_spec(duration_ms as int),
{
    if 100 <= duration_ms && duration_ms <= 299 {
        "100-300ms"
    } else if 300 <= duration_ms && duration_ms <= 499 {
        "300-500ms"
    } else if 500 <= duration_ms && duration_ms <= 799 {
        "500-800ms"
    } else if 800 <= duration_ms && duration_ms <= 1200 {
        "800-1200ms"
    } else {
        "non_short_control"
    }
}

/// The quota category of a ground-truth kind; `speech` counts as short speech
/// up to 1.2 s and as an ordinary-speech control beyond.
pub open spec fn kind_label_spec(kind: Seq<char>, duration_ms: int) -> Seq<char> {
    if kind == "short_speech"@ {
        "short_speech"@
    } else if kind == "speech"@ && duration_ms <= 1200 {
        "short_speech"@
    } else if kind == "speech"@ {
        "ordinary_speech_control"@
    } else if kind == "backchannel"@ {
        "backchannel"@
    } else if kind == "noise"@ {
        "noise"@
    } else if kind == "non_speech_vocalization"@ {
        "non_speech_vocalization"@
    } else if kind == "ordinary_speech_control"@ {
        "ordinary_speech_control"@
    } else {
        "invalid"@
    }
}

/// The quota category of a dataset row.
pub fn kind_label_for(kind: &str, start_ms: i64, end_ms: i64) -> (result: &'static str)
    ensures
        result@ == kind_label_spec(kind@, end_ms - start_ms),
{
    let short = (end_ms as i128) - (start_ms as i128) <= 1200;
    if str_eq(kind, "short_speech") {
        "short_speech"
    } else if str_eq(kind, "speech") && short {
        "short_speech"
    } else if str_eq(kind, "speech") {
        "ordinary_speech_control"
    } else if str_eq(kind, "backchannel") {
        "backchannel"
    } else if str_eq(kind, "noise") {
        "noise"
    } else if str_eq(kind, "non_speech_vocalization") {
        "non_speech_vocalization"
    } else if str_eq(kind, "ordinary_speech_control") {
        "ordinary_speech_control"
    } else {
        "invalid"
    }
}

/// What the quota check reads of a ground-truth sample.
pub trait GateSample {
    spec fn gate_event_id(&self) -> Seq<char>;

    spec fn gate_meeting_id(&self) -> Seq<char>;

    spec fn gate_start_ms(&self) -> i64;

    spec fn gate_end_ms(&self) -> i64;

    spec fn gate_kind_label(&self) -> Seq<char>;

    spec fn gate_speaker(&self) -> Option<Seq<char>>;

    spec fn gate_visible_speakers(&self) -> Seq<Seq<char>>;

    spec fn gate_uncertain(&self) -> bool;

    spec fn gate_tags(&self) -> Seq<Seq<char>>;

    fn event_id(&self) -> (result: &str)
        ensures
            result@ == self.gate_event_id(),
    ;

    fn meeting_id(&self) -> (result: &str)
        ensures
            result@ == self.gate_meeting_id(),
    ;

    fn start_ms(&self) -> (result: i64)
        ensures
            result == self.gate_start_ms(),
    ;

    fn end_ms(&self) -> (result: i64)
        ensures
            result == self.gate_end_ms(),
    ;

    fn kind_label(&self) -> (result: &'static str)
        ensures
            result@ == self.gate_kind_label(),
    ;

    fn ground_truth_speaker(&self) -> (result: Option<&str>)
        ensures
            match result {
                Some(s) => self.gate_speaker() == Some(s@),
                None => self.gate_speaker() is None,
            },
    ;

    fn expected_visible_speakers(&self) -> (result: &[String])
        ensures
            views(result@) == self.gate_visible_speakers(),
    ;

    fn annotation_uncertain(&self) -> (result: bool)
        ensures
            result == self.gate_uncertain(),
    ;

    fn tags(&self) -> (result: &[String])
        ensures
            views(result@) == self.gate_tags(),
    ;
}

/// One row of a benchmark manifest.
#[derive(Debug, Clone)]
pub struct DatasetRecord {
    pub ground_truth_event_id: String,
    pub record_type: String,
    pub recall_eligible: bool,
    pub evidence_origin: String,
    pub meeting_id: String,
    pub production_artifact_path: Option<String>,
    pub start_ms: i64,
    pub end_ms: i64,
    pub duration_bucket: String,
    pub ground_truth_kind: String,
    pub ground_truth_speaker: Option<String>,
    pub annotation_uncertain: bool,
    pub expected_visible_speakers: Vec<String>,
    pub tags: Vec<String>,
}

pub open spec fn opt_view(o: Option<String>) -> Option<Seq<char>> {
    match o {
        Some(s) => Some(s@),
        None => None,
    }
}

pub fn opt_as_str(o: &Option<String>) -> (result: Option<&str>)
    ensures
        match result {
            Some(s) => opt_view(*o) == Some(s@),
            None => o.is_none(),
        },
{
    match o {
        Some(s) => Some(s.as_str()),
        None => None,
    }
}

impl GateSample for DatasetRecord {
    open spec fn gate_event_id(&self) -> Seq<char> {
        self.ground_truth_event_id@
    }

    open spec fn gate_meeting_id(&self) -> Seq<char> {
        self.meeting_id@
    }

    open spec fn gate_start_ms(&self) -> i64 {
        self.start_ms
    }

    open spec fn gate_end_ms(&self) -> i64 {
        self.end_ms
    }

    open spec fn gate_kind_label(&self) -> Seq<char> {
        kind_label_spec(self.ground_truth_kind@, self.end_ms - self.start_ms)
    }

    open spec fn gate_speaker(&self) -> Option<Seq<char>> {
        opt_view(self.ground_truth_speaker)
    }

    open spec fn gate_visible_speakers(&self) -> Seq<Seq<char>> {
        views(self.expected_visible_speakers@)
    }

    open spec fn gate_uncertain(&self) -> bool {
        self.annotation_uncertain
    }

    open spec fn gate_tags(&self) -> Seq<Seq<char>> {
        views(self.tags@)
    }

    fn event_id(&self) -> (result: &str) {
        self.ground_truth_event_id.as_str()
    }

    fn meeting_id(&self) -> (result: &str) {
        self.meeting_id.as_str()
    }

    fn start_ms(&self) -> (result: i64) {
        self.start_ms
    }

    fn end_ms(&self) -> (result: i64) {
        self.end_ms
    }

    fn kind_label(&self) -> (result: &'static str) {
        kind_label_for(self.ground_truth_kind.as_str(), self.start_ms, self.end_ms)
    }

    fn ground_truth_speaker(&self) -> (result: Option<&str>) {
        opt_as_str(&self.ground_truth_speaker)
    }

    fn expected_visible_speakers(&self) -> (result: &[String]) {
        self.expected_visible_speakers.as_slice()
    }

    fn annotation_uncertain(&self) -> (result: bool) {
        self.annotation_uncertain
    }

    fn tags(&self) -> (result: &[String]) {
        self.tags.as_slice()
    }
}

/// Minimum counts the representative-data gate requires.
#[derive(Debug, Clone, Copy)]
pub struct CoveragePolicy {
    pub min_scorable_samples: usize,
    pub min_true_short_events: usize,
    pub min_short_speech: usize,
    pub min_backchannel: usize,
    pub min_negative_controls: usize,
    pub min_per_short_duration_bucket: usize,
    pub min_meetings: usize,
    pub min_multi_speaker_meetings: usize,
    pub min_overlap_cases: usize,
    pub min_speaker_handoff_cases: usize,
}

impl Default for CoveragePolicy {
    fn default() -> (result: Self)
        ensures
            result.min_scorable_samples == 100,
            result.min_true_short_events == 60,
            result.min_short_speech == 20,
            result.min_backchannel == 15,
            result.min_negative_controls == 20,
            result.min_per_short_duration_bucket == 10,
            result.min_meetings == 3,
            result.min_multi_speaker_meetings == 2,
            result.min_overlap_cases == 8,
            result.min_speaker_handoff_cases == 8,
    {
        CoveragePolicy {
            min_scorable_samples: 100,
            min_true_short_events: 60,
            min_short_speech: 20,
            min_backchannel: 15,
            min_negative_controls: 20,
            min_per_short_duration_bucket: 10,
            min_meetings: 3,
            min_multi_speaker_meetings: 2,
            min_overlap_cases: 8,
            min_speaker_handoff_cases: 8,
        }
    }
}

/// What a dataset covers, and by how much each requirement falls short.
#[derive(Debug, Clone)]
pub struct CoverageSummary {
    pub scorable_samples: usize,
    pub uncertain_samples: usize,
    pub true_short_events: usize,
    pub short_speech: usize,
    pub backchannel: usize,
    pub negative_controls: usize,
    pub meeting_count: usize,
    pub multi_speaker_meeting_count: usize,
    pub overlap_cases: usize,
    pub speaker_handoff_cases: usize,
    /// True short events per duration bucket, in bucket order.
    pub duration_buckets: Vec<(String, usize)>,
    pub missing_requirements: Vec<String>,
}

/// The row kinds and properties the quota check counts.
#[derive(Debug, Clone, Copy, PartialEq, Eq, Structural)]
pub enum Criterion {
    Scorable,
    TrueShort,
    ShortSpeech,
    Backchannel,
    Negative,
    Overlap,
    SpeakerHandoff,
    Bucket100To300,
    Bucket300To500,
    Bucket500To800,
    Bucket800To1200,
}

pub open spec fn duration_of<T: GateSample>(r: T) -> int {
    r.gate_end_ms() - r.gate_start_ms()
}

/// At most 1.2 s and labelled short speech or backchannel.
pub open spec fn true_short<T: GateSample>(r: T) -> bool {
    duration_of(r) <= 1200 && (r.gate_kind_label() == "short_speech"@ || r.gate_kind_label()
        == "backchannel"@)
}

pub open spec fn negative<T: GateSample>(r: T) -> bool {
    r.gate_kind_label() == "noise"@ || r.gate_kind_label() == "non_speech_vocalization"@
}

pub open spec fn bucket_label(c: Criterion) -> Seq<char> {
    match c {
        Criterion::Bucket100To300 => "100-300ms"@,
        Criterion::Bucket300To500 => "300-500ms"@,
        Criterion::Bucket500To800 => "500-800ms"@,
        _ => "800-1200ms"@,
    }
}

/// Whether a row counts under a criterion; every criterion but `Scorable`
/// itself counts certain rows only.
pub open spec fn holds<T: GateSample>(c: Criterion, r: T) -> bool {
    !r.gate_uncertain() && match c {
        Criterion::Scorable => true,
        Criterion::TrueShort => true_short(r),
        Criterion::ShortSpeech => true_short(r) && r.gate_kind_label() == "short_speech"@,
        Criterion::Backchannel => true_short(r) && r.gate_kind_label() == "backchannel"@,
        Criterion::Negative => negative(r),
        Criterion::Overlap => r.gate_tags().contains("overlap"@),
        Criterion::SpeakerHandoff => r.gate_tags().contains("speaker_handoff"@),
        _ => true_short(r) && duration_bucket_spec(duration_of(r)) == bucket_label(c),
    }
}

/// Number of rows that count under `c`.
pub open spec fn count<T: GateSample>(c: Criterion, rows: Seq<T>) -> nat
    decreases rows.len(),
{
    if rows.len() == 0 {
        0
    } else {
        count(c, rows.drop_last()) + if holds(c, rows.last()) {
            1nat
        } else {
            0nat
        }
    }
}

pub proof fn lemma_count_bound<T: GateSample>(c: Criterion, rows: Seq<T>)
    ensures
        count(c, rows) <= rows.len(),
    decreases rows.len(),
{
    if rows.len() > 0 {
        lemma_count_bound(c, rows.drop_last());
    }
}

fn tagged(r: &[String], tag: &str) -> (result: bool)
    ensures
        result == views(r@).contains(tag@),
{
    let mut i: usize = 0;
    while i < r.len()
        invariant
            i <= r@.len(),
            forall|k: int| 0 <= k < i ==> views(r@)[k] != tag@,
        decreases r@.len() - i,
    {
        if str_eq(r[i].as_str(), tag) {
            assert(views(r@)[i as int] == tag@);
            return true;
        }
        i += 1;
    }
    false
}

/// The duration bucket labels are pairwise distinct.
pub proof fn lemma_bucket_labels_distinct()
    ensures
        "100-300ms"@ != "300-500ms"@,
        "100-300ms"@ != "500-800ms"@,
        "100-300ms"@ != "800-1200ms"@,
        "100-300ms"@ != "non_short_control"@,
        "300-500ms"@ != "500-800ms"@,
        "300-500ms"@ != "800-1200ms"@,
        "300-500ms"@ != "non_short_control"@,
        "500-800ms"@ != "800-1200ms"@,
        "500-800ms"@ != "non_short_control"@,
        "800-1200ms"@ != "non_short_control"@,
{
    reveal_strlit("100-300ms");
    reveal_strlit("300-500ms");
    reveal_strlit("500-800ms");
    reveal_strlit("800-1200ms");
    reveal_strlit("non_short_control");
    assert("100-300ms"@[0] != "300-500ms"@[0]);
    assert("100-300ms"@[0] != "500-800ms"@[0]);
    assert("300-500ms"@[0] != "500-800ms"@[0]);
    assert("100-300ms"@.len() != "800-1200ms"@.len());
    assert("300-500ms"@.len() != "800-1200ms"@.len());
    assert("500-800ms"@.len() != "800-1200ms"@.len());
    assert("100-300ms"@.len() != "non_short_control"@.len());
    assert("300-500ms"@.len() != "non_short_control"@.len());
    assert("500-800ms"@.len() != "non_short_control"@.len());
    assert("800-1200ms"@.len() != "non_short_control"@.len());
}

fn check<T: GateSample>(c: Criterion, r: &T) -> (result: bool)
    ensures
        result == holds(c, *r),
{
    proof {
        lemma_bucket_labels_distinct();
    }
    if r.annotation_uncertain() {
        return false;
    }
    let label = r.kind_label();
    let dur = (r.end_ms() as i128) - (r.start_ms() as i128);
    let short = dur <= 1200 && (str_eq(label, "short_speech") || str_eq(label, "backchannel"));
    match c {
        Criterion::Scorable => true,
        Criterion::TrueShort => short,
        Criterion::ShortSpeech => short && str_eq(label, "short_speech"),
        Criterion::Backchannel => short && str_eq(label, "backchannel"),
        Criterion::Negative => str_eq(label, "noise") || str_eq(label, "non_speech_vocalization"),
        Criterion::Overlap => tagged(r.tags(), "overlap"),
        Criterion::SpeakerHandoff => tagged(r.tags(), "speaker_handoff"),
        Criterion::Bucket100To300 => short && 100 <= dur && dur <= 299,
        Criterion::Bucket300To500 => short && 300 <= dur && dur <= 499,
        Criterion::Bucket500To800 => short && 500 <= dur && dur <= 799,
        Criterion::Bucket800To1200 => short && 800 <= dur && dur <= 1200,
    }
}

fn count_rows<T: GateSample>(c: Criterion, rows: &[T]) -> (result: usize)
    ensures
        result == count(c, rows@),
{
    let mut n: usize = 0;
    let mut i: usize = 0;
    while i < rows.len()
        invariant
            i <= rows@.len(),
            n == count(c, rows@.subrange(0, i as int)),
        decreases rows@.len() - i,
    {
        proof {
            assert(rows@.subrange(0, i + 1).drop_last() =~= rows@.subrange(0, i as int));
            lemma_count_bound(c, rows@.subrange(0, i as int));
        }
        if check(c, &rows[i]) {
            n += 1;
        }
        i += 1;
    }
    assert(rows@.subrange(0, rows@.len() as int) =~= rows@);
    n
}

/// Meetings of the scorable rows.
pub open spec fn meeting_set<T: GateSample>(rows: Seq<T>) -> Set<Seq<char>> {
    Set::new(
        |m: Seq<char>|
            exists|i: int|
                0 <= i < rows.len() && !rows[i].gate_uncertain() && #[trigger] rows[i].gate_meeting_id()
                    == m,
    )
}

/// A scorable row of meeting `m` names speaker `sp` (as its speaker or as visible).
pub open spec fn names_speaker<T: GateSample>(r: T, m: Seq<char>, sp: Seq<char>) -> bool {
    !r.gate_uncertain() && r.gate_meeting_id() == m && (r.gate_speaker() == Some(sp)
        || r.gate_visible_speakers().contains(sp))
}

/// Speakers the scorable rows of meeting `m` name.
pub open spec fn speaker_set<T: GateSample>(rows: Seq<T>, m: Seq<char>) -> Set<Seq<char>> {
    Set::new(|sp: Seq<char>| exists|i: int| 0 <= i < rows.len() && #[trigger] names_speaker(rows[i], m, sp))
}

/// Meetings whose scorable rows name at least two speakers.
pub open spec fn multi_speaker_meetings<T: GateSample>(rows: Seq<T>) -> Set<Seq<char>> {
    meeting_set(rows).filter(|m: Seq<char>| speaker_set(rows, m).len() >= 2)
}

fn scorable_meetings<T: GateSample>(rows: &[T]) -> (result: Vec<String>)
    ensures
        views(result@).no_duplicates(),
        views(result@).to_set() == meeting_set(rows@),
{
    let mut out: Vec<String> = Vec::new();
    let mut i: usize = 0;
    while i < rows.len()
        invariant
            i <= rows@.len(),
            views(out@).no_duplicates(),
            views(out@).to_set() == meeting_set(rows@.subrange(0, i as int)),
        decreases rows@.len() - i,
    {
        let ghost before = views(out@).to_set();
        let ghost prev = rows@.subrange(0, i as int);
        let ghost next = rows@.subrange(0, i + 1);
        if !rows[i].annotation_uncertain() {
            let m = rows[i].meeting_id();
            insert_unique(&mut out, m.to_owned());
            proof {
                assert forall|x: Seq<char>| meeting_set(next).contains(x) <==> before.insert(m@).contains(x) by {
                    if meeting_set(next).contains(x) {
                        let k = choose|k: int| 0 <= k < next.len() && !next[k].gate_uncertain() && #[trigger] next[k].gate_meeting_id() == x;
                        if k < i {
                            assert(prev[k] == next[k]);
                        }
                    }
                    if prev.len() >= 0 && meeting_set(prev).contains(x) {
                        let k = choose|k: int| 0 <= k < prev.len() && !prev[k].gate_uncertain() && #[trigger] prev[k].gate_meeting_id() == x;
                        assert(next[k] == prev[k]);
                    }
                    if x == m@ {
                        assert(next[i as int].gate_meeting_id() == x);
                    }
                }
                assert(meeting_set(next) =~= before.insert(m@));
            }
        } else {
            proof {
                assert forall|x: Seq<char>| meeting_set(next).contains(x) <==> before.contains(x) by {
                    if meeting_set(next).contains(x) {
                        let k = choose|k: int| 0 <= k < next.len() && !next[k].gate_uncertain() && #[trigger] next[k].gate_meeting_id() == x;
                        if k < i {
                            assert(prev[k] == next[k]);
                        }
                    }
                    if meeting_set(prev).contains(x) {
                        let k = choose|k: int| 0 <= k < prev.len() && !prev[k].gate_uncertain() && #[trigger] prev[k].gate_meeting_id() == x;
                        assert(next[k] == prev[k]);
                    }
                }
                assert(meeting_set(next) =~= before);
            }
        }
        i += 1;
    }
    assert(rows@.subrange(0, rows@.len() as int) =~= rows@);
    out
}

fn meeting_speakers<T: GateSample>(rows: &[T], m: &str) -> (result: Vec<String>)
    ensures
        views(result@).no_duplicates(),
        views(result@).to_set() == speaker_set(rows@, m@),
{
    let mut out: Vec<String> = Vec::new();
    let mut i: usize = 0;
    while i < rows.len()
        invariant
            i <= rows@.len(),
            views(out@).no_duplicates(),
            views(out@).to_set() == speaker_set(rows@.subrange(0, i as int), m@),
        decreases rows@.len() - i,
    {
        let ghost prev = rows@.subrange(0, i as int);
        let ghost next = rows@.subrange(0, i + 1);
        let ghost r = rows@[i as int];
        let ghost before = views(out@).to_set();
        if !rows[i].annotation_uncertain() && str_eq(rows[i].meeting_id(), m) {
            if let Some(sp) = rows[i].ground_truth_speaker() {
                insert_unique(&mut out, sp.to_owned());
            }
            let visible = rows[i].expected_visible_speakers();
            let ghost mid = views(out@).to_set();
            let mut k: usize = 0;
            while k < visible.len()
                invariant
                    k <= visible@.len(),
                    views(out@).no_duplicates(),
                    views(out@).to_set() == mid + views(visible@).subrange(0, k as int).to_set(),
                decreases visible@.len() - k,
            {
                let ghost so_far = views(out@).to_set();
                insert_unique(&mut out, visible[k].clone());
                proof {
                    assert(views(visible@).subrange(0, k + 1) =~= views(visible@).subrange(0, k as int).push(visible@[k as int]@));
                    views(visible@).subrange(0, k as int).lemma_push_to_set_commute(visible@[k as int]@);
                    assert(views(out@).to_set() =~= mid + views(visible@).subrange(0, k + 1).to_set());
                }
                k += 1;
            }
            proof {
                assert(views(visible@).subrange(0, visible@.len() as int) =~= views(visible@));
                let added = match r.gate_speaker() {
                    Some(sp) => set![sp],
                    None => Set::empty(),
                };
                assert(mid =~= before + added);
                assert forall|x: Seq<char>| speaker_set(next, m@).contains(x) <==> (before + added + views(visible@).to_set()).contains(x) by {
                    if speaker_set(next, m@).contains(x) {
                        let j = choose|j: int| 0 <= j < next.len() && #[trigger] names_speaker(next[j], m@, x);
                        if j < i {
                            assert(prev[j] == next[j]);
                            assert(names_speaker(prev[j], m@, x));
                        } else {
                            assert(next[j] == r);
                            if r.gate_speaker() != Some(x) {
                                assert(r.gate_visible_speakers().contains(x));
                                let q = choose|q: int| 0 <= q < r.gate_visible_speakers().len() && r.gate_visible_speakers()[q] == x;
                                assert(views(visible@).to_set().contains(views(visible@)[q]));
                            }
                        }
                    }
                    if before.contains(x) {
                        let j = choose|j: int| 0 <= j < prev.len() && #[trigger] names_speaker(prev[j], m@, x);
                        assert(next[j] == prev[j]);
                    }
                    if added.contains(x) {
                        assert(names_speaker(next[i as int], m@, x));
                    }
                    if views(visible@).to_set().contains(x) {
                        let q = choose|q: int| 0 <= q < views(visible@).len() && views(visible@)[q] == x;
                        assert(r.gate_visible_speakers()[q] == x);
                        assert(names_speaker(next[i as int], m@, x));
                    }
                }
                assert(speaker_set(next, m@) =~= views(out@).to_set());
            }
        } else {
            proof {
                assert forall|x: Seq<char>| speaker_set(next, m@).contains(x) <==> before.contains(x) by {
                    if speaker_set(next, m@).contains(x) {
                        let j = choose|j: int| 0 <= j < next.len() && #[trigger] names_speaker(next[j], m@, x);
                        if j < i {
                            assert(prev[j] == next[j]);
                            assert(names_speaker(prev[j], m@, x));
                        }
                    }
                    if before.contains(x) {
                        let j = choose|j: int| 0 <= j < prev.len() && #[trigger] names_speaker(prev[j], m@, x);
                        assert(next[j] == prev[j]);
                    }
                }
                assert(speaker_set(next, m@) =~= before);
            }
        }
        i += 1;
    }
    assert(rows@.subrange(0, rows@.len() as int) =~= rows@);
    out
}

/// Number of meetings among `ms` whose scorable rows name at least two speakers.
pub open spec fn count_multi<T: GateSample>(rows: Seq<T>, ms: Seq<Seq<char>>) -> nat
    decreases ms.len(),
{
    if ms.len() == 0 {
        0
    } else {
        count_multi(rows, ms.drop_last()) + if speaker_set(rows, ms.last()).len() >= 2 {
            1nat
        } else {
            0nat
        }
    }
}

proof fn lemma_count_multi<T: GateSample>(rows: Seq<T>, ms: Seq<Seq<char>>)
    requires
        ms.no_duplicates(),
    ensures
        count_multi(rows, ms) == ms.to_set().filter(|m: Seq<char>| speaker_set(rows, m).len() >= 2).len(),
    decreases ms.len(),
{
    let p = |m: Seq<char>| speaker_set(rows, m).len() >= 2;
    if ms.len() == 0 {
        assert(ms.to_set().filter(p) =~= Set::empty());
    } else {
        let t = ms.drop_last();
        let x = ms.last();
        assert(t.no_duplicates()) by {
            assert forall|i: int, j: int| 0 <= i < t.len() && 0 <= j < t.len() && i != j implies t[i] != t[j] by {
                assert(t[i] == ms[i] && t[j] == ms[j]);
            }
        }
        lemma_count_multi(rows, t);
        assert(ms =~= t.push(x));
        t.lemma_push_to_set_commute(x);
        assert(!t.to_set().contains(x)) by {
            if t.to_set().contains(x) {
                let i = choose|i: int| 0 <= i < t.len() && t[i] == x;
                assert(ms[i] == ms[ms.len() - 1]);
            }
        }
        t.to_set().lemma_len_filter(p);
        if p(x) {
            assert(ms.to_set().filter(p) =~= t.to_set().filter(p).insert(x));
        } else {
            assert(ms.to_set().filter(p) =~= t.to_set().filter(p));
        }
    }
}

/// `label +gap` when `actual` falls short of `minimum`.
pub open spec fn requirement(actual: nat, minimum: nat, label: Seq<char>) -> Seq<Seq<char>> {
    if actual < minimum {
        seq![label + " +"@ + decimal((minimum - actual) as nat)]
    } else {
        seq![]
    }
}

fn require(out: &mut Vec<String>, actual: usize, minimum: usize, label: &str)
    ensures
        views(final(out)@) == views(old(out)@) + requirement(actual as nat, minimum as nat, label@),
{
    if actual < minimum {
        let mut line = concat(label, " +");
        let digits = u64_to_decimal((minimum - actual) as u64);
        line.append(digits.as_str());
        let ghost before = out@;
        out.push(line);
        assert(views(out@) =~= views(before) + requirement(actual as nat, minimum as nat, label@));
    } else {
        assert(views(out@) =~= views(out@) + requirement(actual as nat, minimum as nat, label@));
    }
}

/// Counts how well `rows` covers the quota categories and lists every
/// requirement of `policy` it misses, with the missing amount.
pub fn coverage<T: GateSample>(rows: &[T], policy: &CoveragePolicy) -> (result: CoverageSummary)
    ensures
        result.scorable_samples == count(Criterion::Scorable, rows@),
        result.uncertain_samples == rows@.len() - count(Criterion::Scorable, rows@),
        result.true_short_events == count(Criterion::TrueShort, rows@),
        result.short_speech == count(Criterion::ShortSpeech, rows@),
        result.backchannel == count(Criterion::Backchannel, rows@),
        result.negative_controls == count(Criterion::Negative, rows@),
        result.meeting_count == meeting_set(rows@).len(),
        result.multi_speaker_meeting_count == multi_speaker_meetings(rows@).len(),
        result.overlap_cases == count(Criterion::Overlap, rows@),
        result.speaker_handoff_cases == count(Criterion::SpeakerHandoff, rows@),
        result.duration_buckets@.len() == 4,
        result.duration_buckets@[0].0@ == "100-300ms"@,
        result.duration_buckets@[0].1 == count(Criterion::Bucket100To300, rows@),
        result.duration_buckets@[1].0@ == "300-500ms"@,
        result.duration_buckets@[1].1 == count(Criterion::Bucket300To500, rows@),
        result.duration_buckets@[2].0@ == "500-800ms"@,
        result.duration_buckets@[2].1 == count(Criterion::Bucket500To800, rows@),
        result.duration_buckets@[3].0@ == "800-1200ms"@,
        result.duration_buckets@[3].1 == count(Criterion::Bucket800To1200, rows@),
        views(result.missing_requirements@) == requirement(
            count(Criterion::Scorable, rows@),
            policy.min_scorable_samples as nat,
            "scorable_samples"@,
        ) + requirement(
            count(Criterion::TrueShort, rows@),
            policy.min_true_short_events as nat,
            "true_short_events"@,
        ) + requirement(count(Criterion::ShortSpeech, rows@), policy.min_short_speech as nat, "short_speech"@)
            + requirement(count(Criterion::Backchannel, rows@), policy.min_backchannel as nat, "backchannel"@)
            + requirement(
            count(Criterion::Negative, rows@),
            policy.min_negative_controls as nat,
            "negative_controls"@,
        ) + requirement(meeting_set(rows@).len(), policy.min_meetings as nat, "meetings"@)
            + requirement(
            multi_speaker_meetings(rows@).len(),
            policy.min_multi_speaker_meetings as nat,
            "multi_speaker_meetings"@,
        ) + requirement(count(Criterion::Overlap, rows@), policy.min_overlap_cases as nat, "overlap"@)
            + requirement(
            count(Criterion::SpeakerHandoff, rows@),
            policy.min_speaker_handoff_cases as nat,
            "speaker_handoff"@,
        ) + requirement(
            count(Criterion::Bucket100To300, rows@),
            policy.min_per_short_duration_bucket as nat,
            "100-300ms"@,
        ) + requirement(
            count(Criterion::Bucket300To500, rows@),
            policy.min_per_short_duration_bucket as nat,
            "300-500ms"@,
        ) + requirement(
            count(Criterion::Bucket500To800, rows@),
            policy.min_per_short_duration_bucket as nat,
            "500-800ms"@,
        ) + requirement(
            count(Criterion::Bucket800To1200, rows@),
            policy.min_per_short_duration_bucket as nat,
            "800-1200ms"@,
        ),
{
    let scorable = count_rows(Criterion::Scorable, rows);
    proof {
        lemma_count_bound(Criterion::Scorable, rows@);
    }
    let true_short_events = count_rows(Criterion::TrueShort, rows);
    let short_speech = count_rows(Criterion::ShortSpeech, rows);
    let backchannel = count_rows(Criterion::Backchannel, rows);
    let negative_controls = count_rows(Criterion::Negative, rows);
    let overlap_cases = count_rows(Criterion::Overlap, rows);
    let speaker_handoff_cases = count_rows(Criterion::SpeakerHandoff, rows);
    let b1 = count_rows(Criterion::Bucket100To300, rows);
    let b2 = count_rows(Criterion::Bucket300To500, rows);
    let b3 = count_rows(Criterion::Bucket500To800, rows);
    let b4 = count_rows(Criterion::Bucket800To1200, rows);
    let meetings = scorable_meetings(rows);
    proof {
        views(meetings@).unique_seq_to_set();
    }
    let meeting_count = meetings.len();
    let mut multi: usize = 0;
    let mut j: usize = 0;
    while j < meetings.len()
        invariant
            j <= meetings@.len(),
            multi == count_multi(rows@, views(meetings@).subrange(0, j as int)),
            multi <= j,
        decreases meetings@.len() - j,
    {
        assert(views(meetings@).subrange(0, j + 1).drop_last() =~= views(meetings@).subrange(0, j as int));
        let speakers = meeting_speakers(rows, meetings[j].as_str());
        proof {
            views(speakers@).unique_seq_to_set();
        }
        if speakers.len() >= 2 {
            multi += 1;
        }
        j += 1;
    }
    proof {
        assert(views(meetings@).subrange(0, meetings@.len() as int) =~= views(meetings@));
        lemma_count_multi(rows@, views(meetings@));
    }
    let mut buckets: Vec<(String, usize)> = Vec::new();
    buckets.push(("100-300ms".to_owned(), b1));
    buckets.push(("300-500ms".to_owned(), b2));
    buckets.push(("500-800ms".to_owned(), b3));
    buckets.push(("800-1200ms".to_owned(), b4));
    let mut missing: Vec<String> = Vec::new();
    require(&mut missing, scorable, policy.min_scorable_samples, "scorable_samples");
    require(&mut missing, true_short_events, policy.min_true_short_events, "true_short_events");
    require(&mut missing, short_speech, policy.min_short_speech, "short_speech");
    require(&mut missing, backchannel, policy.min_backchannel, "backchannel");
    require(&mut missing, negative_controls, policy.min_negative_controls, "negative_controls");
    require(&mut missing, meeting_count, policy.min_meetings, "meetings");
    require(&mut missing, multi, policy.min_multi_speaker_meetings, "multi_speaker_meetings");
    require(&mut missing, overlap_cases, policy.min_overlap_cases, "overlap");
    require(&mut missing, speaker_handoff_cases, policy.min_speaker_handoff_cases, "speaker_handoff");
    require(&mut missing, b1, policy.min_per_short_duration_bucket, "100-300ms");
    require(&mut missing, b2, policy.min_per_short_duration_bucket, "300-500ms");
    require(&mut missing, b3, policy.min_per_short_duration_bucket, "500-800ms");
    require(&mut missing, b4, policy.min_per_short_duration_bucket, "800-1200ms");
    assert(views(missing@) =~= requirement(
            count(Criterion::Scorable, rows@),
            policy.min_scorable_samples as nat,
            "scorable_samples"@,
        ) + requirement(
            count(Criterion::TrueShort, rows@),
            policy.min_true_short_events as nat,
            "true_short_events"@,
        ) + requirement(count(Criterion::ShortSpeech, rows@), policy.min_short_speech as nat, "short_speech"@)
            + requirement(count(Criterion::Backchannel, rows@), policy.min_backchannel as nat, "backchannel"@)
            + requirement(
            count(Criterion::Negative, rows@),
            policy.min_negative_controls as nat,
            "negative_controls"@,
        ) + requirement(meeting_set(rows@).len(), policy.min_meetings as nat, "meetings"@)
            + requirement(
            multi_speaker_meetings(rows@).len(),
            policy.min_multi_speaker_meetings as nat,
            "multi_speaker_meetings"@,
        ) + requirement(count(Criterion::Overlap, rows@), policy.min_overlap_cases as nat, "overlap"@)
            + requirement(
            count(Criterion::SpeakerHandoff, rows@),
            policy.min_speaker_handoff_cases as nat,
            "speaker_handoff"@,
        ) + requirement(
            count(Criterion::Bucket100To300, rows@),
            policy.min_per_short_duration_bucket as nat,
            "100-300ms"@,
        ) + requirement(
            count(Criterion::Bucket300To500, rows@),
            policy.min_per_short_duration_bucket as nat,
            "300-500ms"@,
        ) + requirement(
            count(Criterion::Bucket500To800, rows@),
            policy.min_per_short_duration_bucket as nat,
            "500-800ms"@,
        ) + requirement(
            count(Criterion::Bucket800To1200, rows@),
            policy.min_per_short_duration_bucket as nat,
            "800-1200ms"@,
        ));
    CoverageSummary {
        scorable_samples: scorable,
        uncertain_samples: rows.len() - scorable,
        true_short_events,
        short_speech,
        backchannel,
        negative_controls,
        meeting_count,
        multi_speaker_meeting_count: multi,
        overlap_cases,
        speaker_handoff_cases,
        duration_buckets: buckets,
        missing_requirements: missing,
    }
}

/// Two rows of one meeting with the same valid gate category that overlap
/// almost completely: IoU at least 0.8, or at least 0.6 with centers at most
/// 75 ms apart. IoU is intersection over union, the union at least 1 ms.
pub open spec fn overlap_len(a_start: int, a_end: int, b_start: int, b_end: int) -> int {
    let d = min_i(a_end, b_end) - max_i(a_start, b_start);
    if d > 0 {
        d
    } else {
        0
    }
}

pub open spec fn union_len(a_start: int, a_end: int, b_start: int, b_end: int) -> int {
    let d = max_i(a_end, b_end) - min_i(a_start, b_start);
    if d > 1 {
        d
    } else {
        1
    }
}

pub open spec fn min_i(a: int, b: int) -> int {
    if a <= b {
        a
    } else {
        b
    }
}

pub open spec fn max_i(a: int, b: int) -> int {
    if a >= b {
        a
    } else {
        b
    }
}

pub open spec fn center_gap<T: GateSample>(a: T, b: T) -> int {
    let d = (a.gate_start_ms() + a.gate_end_ms()) - (b.gate_start_ms() + b.gate_end_ms());
    (if d >= 0 {
        d
    } else {
        -d
    }) / 2
}

pub open spec fn looks_duplicated<T: GateSample>(a: T, b: T) -> bool {
    let o = overlap_len(a.gate_start_ms() as int, a.gate_end_ms() as int, b.gate_start_ms() as int, b.gate_end_ms() as int);
    let u = union_len(a.gate_start_ms() as int, a.gate_end_ms() as int, b.gate_start_ms() as int, b.gate_end_ms() as int);
    &&& a.gate_meeting_id() == b.gate_meeting_id()
    &&& a.gate_kind_label() == b.gate_kind_label()
    &&& a.gate_kind_label() != "invalid"@
    &&& (o * 5 >= u * 4 || (o * 5 >= u * 3 && center_gap(a, b) <= 75))
}

/// A pair of rows that may annotate the same event twice. The overlap ratio
/// is `overlap_ms / union_ms`.
#[derive(Debug, Clone)]
pub struct DuplicateCandidate {
    pub meeting_id: String,
    pub first_event_id: String,
    pub second_event_id: String,
    pub overlap_ms: i128,
    pub union_ms: i128,
    pub center_distance_ms: i128,
}

/// Index pairs `(i, j)` with `i < j < upto` of row `i` that look duplicated.
pub open spec fn dup_pairs_of<T: GateSample>(rows: Seq<T>, i: int, upto: int) -> Seq<(int, int)>
    decreases upto - i,
{
    if upto <= i + 1 {
        seq![]
    } else {
        let rest = dup_pairs_of(rows, i, upto - 1);
        if looks_duplicated(rows[i], rows[upto - 1]) {
            rest.push((i, upto - 1))
        } else {
            rest
        }
    }
}

/// All duplicated-looking pairs whose first index is below `i`, in row order.
pub open spec fn dup_pairs<T: GateSample>(rows: Seq<T>, i: int) -> Seq<(int, int)>
    decreases i,
{
    if i <= 0 {
        seq![]
    } else {
        dup_pairs(rows, i - 1) + dup_pairs_of(rows, i - 1, rows.len() as int)
    }
}

/// The candidate reported for pair `(i, j)`.
pub open spec fn candidate_matches<T: GateSample>(c: DuplicateCandidate, a: T, b: T) -> bool {
    &&& c.meeting_id@ == a.gate_meeting_id()
    &&& c.first_event_id@ == a.gate_event_id()
    &&& c.second_event_id@ == b.gate_event_id()
    &&& c.overlap_ms == overlap_len(a.gate_start_ms() as int, a.gate_end_ms() as int, b.gate_start_ms() as int, b.gate_end_ms() as int)
    &&& c.union_ms == union_len(a.gate_start_ms() as int, a.gate_end_ms() as int, b.gate_start_ms() as int, b.gate_end_ms() as int)
    &&& c.center_distance_ms == center_gap(a, b)
}

fn duplicate_between<T: GateSample>(a: &T, b: &T) -> (result: Option<DuplicateCandidate>)
    ensures
        match result {
            Some(c) => looks_duplicated(*a, *b) && candidate_matches(c, *a, *b),
            None => !looks_duplicated(*a, *b),
        },
{
    let la = a.kind_label();
    let lb = b.kind_label();
    if !str_eq(a.meeting_id(), b.meeting_id()) || !str_eq(la, lb) || str_eq(la, "invalid") {
        return None;
    }
    let a_start = a.start_ms() as i128;
    let a_end = a.end_ms() as i128;
    let b_start = b.start_ms() as i128;
    let b_end = b.end_ms() as i128;
    let hi_min = if a_end <= b_end {
        a_end
    } else {
        b_end
    };
    let lo_max = if a_start >= b_start {
        a_start
    } else {
        b_start
    };
    let hi_max = if a_end >= b_end {
        a_end
    } else {
        b_end
    };
    let lo_min = if a_start <= b_start {
        a_start
    } else {
        b_start
    };
    let o = if hi_min - lo_max > 0 {
        hi_min - lo_max
    } else {
        0
    };
    let u = if hi_max - lo_min > 1 {
        hi_max - lo_min
    } else {
        1
    };
    let d = (a_start + a_end) - (b_start + b_end);
    let gap = (if d >= 0 {
        d
    } else {
        -d
    }) / 2;
    if o * 5 >= u * 4 || (o * 5 >= u * 3 && gap <= 75) {
        Some(
            DuplicateCandidate {
                meeting_id: a.meeting_id().to_owned(),
                first_event_id: a.event_id().to_owned(),
                second_event_id: b.event_id().to_owned(),
                overlap_ms: o,
                union_ms: u,
                center_distance_ms: gap,
            },
        )
    } else {
        None
    }
}

/// Pairs of rows (earlier row first, in row order) that may annotate the same
/// event twice and need review.
pub fn possible_duplicates<T: GateSample>(rows: &[T]) -> (result: Vec<DuplicateCandidate>)
    ensures
        result@.len() == dup_pairs(rows@, rows@.len() as int).len(),
        forall|k: int|
            0 <= k < result@.len() ==> {
                let p = dup_pairs(rows@, rows@.len() as int)[k];
                candidate_matches(#[trigger] result@[k], rows@[p.0], rows@[p.1])
            },
{
    let n = rows.len();
    let mut out: Vec<DuplicateCandidate> = Vec::new();
    let mut i: usize = 0;
    while i < n
        invariant
            n == rows@.len(),
            i <= n,
            out@.len() == dup_pairs(rows@, i as int).len(),
            forall|k: int|
                0 <= k < out@.len() ==> {
                    let p = dup_pairs(rows@, i as int)[k];
                    candidate_matches(#[trigger] out@[k], rows@[p.0], rows@[p.1])
                },
        decreases n - i,
    {
        let ghost base = dup_pairs(rows@, i as int);
        let ghost base_len = out@.len();
        let mut j: usize = i + 1;
        while j < n
            invariant
                n == rows@.len(),
                i < n,
                i + 1 <= j <= n,
                base == dup_pairs(rows@, i as int),
                out@.len() == base.len() + dup_pairs_of(rows@, i as int, j as int).len(),
                forall|k: int|
                    0 <= k < out@.len() ==> {
                        let p = (base + dup_pairs_of(rows@, i as int, j as int))[k];
                        candidate_matches(#[trigger] out@[k], rows@[p.0], rows@[p.1])
                    },
            decreases n - j,
        {
            let ghost before = out@;
            let ghost prefix = base + dup_pairs_of(rows@, i as int, j as int);
            match duplicate_between(&rows[i], &rows[j]) {
                Some(c) => {
                    out.push(c);
                    proof {
                        let next = base + dup_pairs_of(rows@, i as int, j + 1);
                        assert(next =~= prefix.push((i as int, j as int)));
                        assert forall|k: int| 0 <= k < out@.len() implies {
                            let p = next[k];
                            candidate_matches(#[trigger] out@[k], rows@[p.0], rows@[p.1])
                        } by {
                            if k < before.len() {
                                assert(out@[k] == before[k]);
                            }
                        }
                    }
                },
                None => {
                    proof {
                        let next = base + dup_pairs_of(rows@, i as int, j + 1);
                        assert(next =~= prefix);
                    }
                },
            }
            j += 1;
        }
        proof {
            assert(dup_pairs(rows@, i + 1) == base + dup_pairs_of(rows@, i as int, n as int));
        }
        i += 1;
    }
    out
}

/// A benchmark-ready ground-truth row.
pub open spec fn record_valid(r: DatasetRecord) -> bool {
    &&& !all_ws(r.ground_truth_event_id@)
    &&& !all_ws(r.meeting_id@)
    &&& r.record_type@ == "ground_truth_event"@
    &&& r.recall_eligible
    &&& r.evidence_origin@ == "production_artifact"@
    &&& r.production_artifact_path is Some
    &&& r.start_ms >= 0
    &&& r.end_ms > r.start_ms
    &&& r.duration_bucket@ == duration_bucket_spec(r.end_ms - r.start_ms)
    &&& kind_label_spec(r.ground_truth_kind@, r.end_ms - r.start_ms) != "invalid"@
}

/// Row `i` repeats the event id of an earlier row.
pub open spec fn repeats_id(rows: Seq<DatasetRecord>, i: int) -> bool {
    exists|k: int| 0 <= k < i && #[trigger] rows[k].ground_truth_event_id@ == rows[i].ground_truth_event_id@
}

pub open spec fn record_problem(rows: Seq<DatasetRecord>, i: int) -> bool {
    repeats_id(rows, i) || !record_valid(rows[i])
}

/// How a row is named in an error message.
pub open spec fn record_label(r: DatasetRecord) -> Seq<char> {
    if all_ws(r.ground_truth_event_id@) {
        "unnamed event"@
    } else {
        r.ground_truth_event_id@
    }
}

pub open spec fn record_error(rows: Seq<DatasetRecord>, i: int) -> Seq<char> {
    if repeats_id(rows, i) {
        record_label(rows[i]) + ": duplicate ground_truth_event_id"@
    } else {
        record_label(rows[i]) + ": invalid benchmark-ready ground-truth semantics"@
    }
}

fn record_is_valid(r: &DatasetRecord) -> (result: bool)
    ensures
        result == record_valid(*r),
{
    if is_blank(r.ground_truth_event_id.as_str()) || is_blank(r.meeting_id.as_str())
        || !str_eq(r.record_type.as_str(), "ground_truth_event") || !r.recall_eligible
        || !str_eq(r.evidence_origin.as_str(), "production_artifact")
        || r.production_artifact_path.is_none() || r.start_ms < 0 || r.end_ms <= r.start_ms {
        return false;
    }
    if !str_eq(r.duration_bucket.as_str(), duration_bucket(r.end_ms - r.start_ms)) {
        return false;
    }
    !str_eq(r.kind_label(), "invalid")
}

/// Checks that every row is benchmark-ready and that event ids are unique.
/// The error names the first offending row; a repeated id is reported before
/// the row's other problems.
pub fn validate_records(rows: &[DatasetRecord]) -> (result: Result<(), String>)
    ensures
        result is Ok <==> forall|i: int| 0 <= i < rows@.len() ==> !#[trigger] record_problem(rows@, i),
        match result {
            Ok(_) => true,
            Err(e) => exists|i: int|
                0 <= i < rows@.len() && #[trigger] record_problem(rows@, i) && (forall|k: int|
                    0 <= k < i ==> !#[trigger] record_problem(rows@, k)) && e@ == record_error(rows@, i),
        },
{
    let mut i: usize = 0;
    while i < rows.len()
        invariant
            i <= rows@.len(),
            forall|k: int| 0 <= k < i ==> !#[trigger] record_problem(rows@, k),
        decreases rows@.len() - i,
    {
        let r = &rows[i];
        let label: &str = if is_blank(r.ground_truth_event_id.as_str()) {
            "unnamed event"
        } else {
            r.ground_truth_event_id.as_str()
        };
        let mut k: usize = 0;
        while k < i
            invariant
                k <= i < rows@.len(),
                *r == rows@[i as int],
                label@ == record_label(rows@[i as int]),
                forall|q: int| 0 <= q < i ==> !#[trigger] record_problem(rows@, q),
                forall|q: int| 0 <= q < k ==> rows@[q].ground_truth_event_id@ != rows@[i as int].ground_truth_event_id@,
            decreases i - k,
        {
            if str_eq(rows[k].ground_truth_event_id.as_str(), r.ground_truth_event_id.as_str()) {
                assert(rows@[k as int].ground_truth_event_id@ == rows@[i as int].ground_truth_event_id@);
                assert(repeats_id(rows@, i as int));
                assert(record_problem(rows@, i as int));
                assert(label@ == record_label(rows@[i as int]));
                let e = concat(label, ": duplicate ground_truth_event_id");
                return Err(e);
            }
            k += 1;
        }
        assert(!repeats_id(rows@, i as int));
        if !record_is_valid(r) {
            assert(record_problem(rows@, i as int));
            assert(label@ == record_label(rows@[i as int]));
            let e = concat(label, ": invalid benchmark-ready ground-truth semantics");
            return Err(e);
        }
        i += 1;
    }
    Ok(())
}


/// The artifact path the first of `rows[..n]` with meeting `meeting` names.
pub open spec fn first_artifact_of(rows: Seq<(Seq<char>, Seq<char>)>, meeting: Seq<char>, n: int) -> Option<Seq<char>>
    decreases n,
{
    if n <= 0 {
        None
    } else {
        match first_artifact_of(rows, meeting, n - 1) {
            Some(p) => Some(p),
            None => if rows[n - 1].0 == meeting {
                Some(rows[n - 1].1)
            } else {
                None
            },
        }
    }
}

/// The meeting of the first of `rows[j..]` that names another artifact than
/// the first row of its meeting did.
pub open spec fn artifact_conflict(rows: Seq<(Seq<char>, Seq<char>)>, j: int) -> Option<Seq<char>>
    decreases rows.len() - j,
{
    if j < 0 || j >= rows.len() {
        None
    } else {
        match first_artifact_of(rows, rows[j].0, j) {
            Some(p) => if p != rows[j].1 {
                Some(rows[j].0)
            } else {
                artifact_conflict(rows, j + 1)
            },
            None => artifact_conflict(rows, j + 1),
        }
    }
}

/// Each meeting of the dataset must reference one production artifact;
/// `rows` pairs each row's meeting with its resolved artifact path.
pub fn check_single_artifact_per_meeting(rows: &Vec<(String, String)>) -> (result: Result<(), String>)
    ensures
        match artifact_conflict(pair_views(rows@), 0) {
            None => result is Ok,
            Some(meeting) => result matches Err(e) && e@ == "meeting "@ + meeting + " references multiple production artifacts"@,
        },
{
    let ghost r = pair_views(rows@);
    let mut first: Vec<(String, String)> = Vec::new();
    let mut j: usize = 0;
    while j < rows.len()
        invariant
            j <= rows@.len(),
            r == pair_views(rows@),
            forall|m: Seq<char>| #[trigger] lookup(pair_views(first@), m) == first_artifact_of(r, m, j as int),
            artifact_conflict(r, 0) == artifact_conflict(r, j as int),
        decreases rows@.len() - j,
    {
        let meeting = rows[j].0.as_str();
        let path = rows[j].1.as_str();
        assert(r[j as int] == (meeting@, path@));
        match lookup_str(&first, meeting) {
            Some(p) => {
                if !str_eq(p.as_str(), path) {
                    let mut msg = concat("meeting ", meeting);
                    msg.append(" references multiple production artifacts");
                    return Err(msg);
                }
                proof {
                    assert forall|m: Seq<char>| #[trigger] lookup(pair_views(first@), m) == first_artifact_of(r, m, j + 1) by {
                        assert(lookup(pair_views(first@), m) == first_artifact_of(r, m, j as int));
                    }
                }
            },
            None => {
                let ghost before = pair_views(first@);
                first.push((owned(meeting), owned(path)));
                proof {
                    assert(pair_views(first@) =~= before.push((meeting@, path@)));
                    assert forall|m: Seq<char>| #[trigger] lookup(pair_views(first@), m) == first_artifact_of(r, m, j + 1) by {
                        lemma_lookup_push(before, (meeting@, path@), m);
                        assert(lookup(before, m) == first_artifact_of(r, m, j as int));
                    }
                }
            },
        }
        j += 1;
    }
    Ok(())
}

/// Ready only when every quota is met and no possible duplicate remains.
pub fn representative_data_gate(summary: &CoverageSummary, duplicates: &Vec<DuplicateCandidate>) -> (result: &'static str)
    ensures
        result@ == if summary.missing_requirements@.len() == 0 && duplicates@.len() == 0 {
            "REPRESENTATIVE_DATA_READY"@
        } else {
            "INSUFFICIENT_REPRESENTATIVE_DATA"@
        },
{
    if summary.missing_requirements.len() == 0 && duplicates.len() == 0 {
        "REPRESENTATIVE_DATA_READY"
    } else {
        "INSUFFICIENT_REPRESENTATIVE_DATA"
    }
}

} // verus!
