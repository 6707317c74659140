//! Orchestration of the post-hoc diarization pass: which job runs, what the
//! UI is told about a meeting, and the sequence of steps a job takes.
//!
//! The steps themselves (database, files, the helper process) are performed
//! by the caller; this module decides what happens next.
use vstd::prelude::*;
use crate::strings::{insert_unique, views};
use crate::text::{
    char_len, char_slice, concat, decimal, owned, parse_usize, parse_usize_spec, starts_with,
    starts_with_spec, str_eq, u64_to_decimal,
};

verus! {

/// The synchronous answer to a request for a background pass.
#[derive(Debug, Clone, Copy, PartialEq, Eq, Structural)]
pub enum DiarizationRequestResult {
    Scheduled,
    AlreadyRunning,
}

/// A completed pass: when it ran and how many turns it stored.
#[derive(Debug, Clone)]
pub struct DiarizationResult {
    pub diarized_at: String,
    pub turns: usize,
}

/// What is happening, or can happen, for a meeting's diarization.
#[derive(Debug, Clone)]
pub enum DiarizationJobState {
    Idle,
    Queued,
    Running,
    Failed { error: Option<String> },
    Unavailable { error: Option<String> },
    ModelsMissing,
    NoAudio,
}

/// The four facts the UI shows: a stored result (if any) and the job state.
#[derive(Debug, Clone)]
pub struct Availability {
    pub result: Option<DiarizationResult>,
    pub job: DiarizationJobState,
}

/// The meetings (as `tenant:meeting` keys) whose pass is in flight. At most
/// one pass per key runs at a time.
#[derive(Debug)]
pub struct DiarizationJobRegistry {
    active: Vec<String>,
}

/// What a request does to the set of active keys, and what it answers.
pub open spec fn request_outcome(active: Set<Seq<char>>, key: Seq<char>) -> (DiarizationRequestResult, Set<Seq<char>>) {
    if active.contains(key) {
        (DiarizationRequestResult::AlreadyRunning, active)
    } else {
        (DiarizationRequestResult::Scheduled, active.insert(key))
    }
}

impl DiarizationJobRegistry {
    /// The keys of the passes in flight.
    pub closed spec fn active(&self) -> Set<Seq<char>> {
        views(self.active@).to_set()
    }

    pub closed spec fn wf(&self) -> bool {
        views(self.active@).no_duplicates()
    }

    pub fn new() -> (result: Self)
        ensures
            result.wf(),
            result.active() == Set::<Seq<char>>::empty(),
    {
        let r = DiarizationJobRegistry { active: Vec::new() };
        assert(views(r.active@).to_set() =~= Set::<Seq<char>>::empty());
        r
    }

    pub fn contains(&self, key: &str) -> (result: bool)
        ensures
            result == self.active().contains(key@),
    {
        crate::strings::contains_str(&self.active, key)
    }

    /// Claims `key` if no pass holds it; `true` when the claim succeeded.
    pub fn try_start(&mut self, key: String) -> (started: bool)
        requires
            old(self).wf(),
        ensures
            final(self).wf(),
            started == !old(self).active().contains(key@),
            final(self).active() == old(self).active().insert(key@),
    {
        if crate::strings::contains_str(&self.active, key.as_str()) {
            assert(self.active().insert(key@) =~= self.active());
            false
        } else {
            insert_unique(&mut self.active, key);
            true
        }
    }

    /// Schedules a pass for `key` unless one is already running.
    pub fn request(&mut self, key: String) -> (result: DiarizationRequestResult)
        requires
            old(self).wf(),
        ensures
            final(self).wf(),
            (result, final(self).active()) == request_outcome(old(self).active(), key@),
    {
        if self.try_start(key) {
            DiarizationRequestResult::Scheduled
        } else {
            DiarizationRequestResult::AlreadyRunning
        }
    }

    /// Releases `key` when its pass ends, whatever the outcome.
    pub fn finish(&mut self, key: &str)
        requires
            old(self).wf(),
        ensures
            final(self).wf(),
            final(self).active() == old(self).active().remove(key@),
    {
        let ghost before = views(self.active@);
        let mut i: usize = 0;
        while i < self.active.len()
            invariant
                i <= self.active@.len(),
                views(self.active@) == before,
                before == views(old(self).active@),
                before.no_duplicates(),
                forall|k: int| 0 <= k < i ==> before[k] != key@,
            decreases self.active@.len() - i,
        {
            if str_eq(self.active[i].as_str(), key) {
                let ghost at = i as int;
                assert(before[at] == key@);
                self.active.remove(i);
                proof {
                    assert(views(self.active@) =~= before.remove(at));
                    let after = views(self.active@);
                    assert forall|x: Seq<char>| after.to_set().contains(x) <==> before.to_set().remove(key@).contains(x) by {
                        if after.to_set().contains(x) {
                            let k = choose|k: int| 0 <= k < after.len() && after[k] == x;
                            let k0 = if k < at { k } else { k + 1 };
                            assert(before[k0] == x);
                            assert(k0 != at);
                            assert(x != key@);
                            assert(before.contains(x));
                        }
                        if before.to_set().remove(key@).contains(x) {
                            let k = choose|k: int| 0 <= k < before.len() && before[k] == x;
                            assert(k != at);
                            let k1 = if k < at { k } else { k - 1 };
                            assert(after[k1] == x);
                            assert(after.contains(x));
                        }
                    }
                    assert(after.to_set() =~= before.to_set().remove(key@));
                    assert(views(self.active@).no_duplicates()) by {
                        assert forall|a: int, b: int|
                            0 <= a < b < views(self.active@).len() implies views(self.active@)[a] != views(
                            self.active@,
                        )[b] by {
                            let a0 = if a < at { a } else { a + 1 };
                            let b0 = if b < at { b } else { b + 1 };
                            assert(views(self.active@)[a] == before[a0]);
                            assert(views(self.active@)[b] == before[b0]);
                        }
                    }
                }
                return;
            }
            i += 1;
        }
        assert(!before.contains(key@));
        assert(before.to_set().remove(key@) =~= before.to_set());
    }
}

/// Law: while a pass for a key is in flight, another request for that key
/// is answered `AlreadyRunning` and starts nothing.
pub proof fn law_one_pass_per_key(active: Set<Seq<char>>, key: Seq<char>)
    ensures
        request_outcome(request_outcome(active, key).1, key) == (
            DiarizationRequestResult::AlreadyRunning,
            request_outcome(active, key).1,
        ),
{
}

/// Law: once a key's pass has finished, a new request for it is scheduled.
pub proof fn law_finish_allows_retry(active: Set<Seq<char>>, key: Seq<char>)
    ensures
        request_outcome(active.remove(key), key).0 == DiarizationRequestResult::Scheduled,
{
}

/// Law: requests for different keys do not affect each other.
pub proof fn law_keys_independent(active: Set<Seq<char>>, a: Seq<char>, b: Seq<char>)
    requires
        a != b,
    ensures
        request_outcome(request_outcome(active, a).1, b).0 == request_outcome(active, b).0,
{
}

/// `Speaker N` for a generated key `speaker_NN`; other keys are shown as they are.
pub open spec fn display_label(key: Seq<char>) -> Seq<char> {
    if starts_with_spec(key, "speaker_"@) && parse_usize_spec(key.subrange(8, key.len() as int)) is Some {
        "Speaker "@ + decimal(parse_usize_spec(key.subrange(8, key.len() as int))->0 as nat)
    } else {
        key
    }
}

pub fn display_label_for_key(key: &str) -> (result: String)
    ensures
        result@ == display_label(key@),
{
    proof {
        reveal_strlit("speaker_");
    }
    if starts_with(key, "speaker_") {
        let rest = char_slice(key, 8, char_len(key));
        if let Some(number) = parse_usize(rest) {
            let digits = u64_to_decimal(number as u64);
            return concat("Speaker ", digits.as_str());
        }
    }
    owned(key)
}

/// The durable status a meeting row can carry.
pub open spec fn persisted_state(status: Seq<char>, error: Option<String>) -> Option<DiarizationJobState> {
    if status == "queued"@ {
        Some(DiarizationJobState::Queued)
    } else if status == "running"@ {
        Some(DiarizationJobState::Running)
    } else if status == "failed"@ {
        Some(DiarizationJobState::Failed { error })
    } else if status == "unavailable"@ {
        Some(DiarizationJobState::Unavailable { error })
    } else {
        None
    }
}

/// The next step of an availability report.
#[derive(Debug, Clone)]
pub enum AvailabilityStep {
    /// Report this job state.
    Report(DiarizationJobState),
    /// The row says queued/running but no pass is in flight (the app was
    /// restarted): record the pass as failed and report that.
    ReportInterrupted,
    /// Nothing recorded decides it: look for saved audio.
    CheckAudio,
    /// Audio exists: ask whether the models are installed.
    CheckModels,
}

/// The message recorded for a pass cut off by an application restart.
pub open spec fn interrupted_message() -> Seq<char> {
    "Speaker analysis interrupted by application restart"@
}

pub fn interrupted_message_text() -> (result: String)
    ensures
        result@ == interrupted_message(),
{
    owned("Speaker analysis interrupted by application restart")
}

pub open spec fn step_from_record(
    has_result: bool,
    persisted: Option<(String, Option<String>)>,
    job_active: bool,
) -> AvailabilityStep {
    match persisted {
        Some((status, error)) => if (status@ == "running"@ || status@ == "queued"@) && !job_active {
            AvailabilityStep::ReportInterrupted
        } else {
            match persisted_state(status@, error) {
                Some(state) => AvailabilityStep::Report(state),
                None => if has_result {
                    AvailabilityStep::Report(DiarizationJobState::Idle)
                } else {
                    AvailabilityStep::CheckAudio
                },
            }
        },
        None => if has_result {
            AvailabilityStep::Report(DiarizationJobState::Idle)
        } else {
            AvailabilityStep::CheckAudio
        },
    }
}

/// First step of the report, from what the database holds: whether a result
/// is stored, the row's status and error, and whether a pass is in flight.
pub fn availability_from_record(
    has_result: bool,
    persisted: Option<(String, Option<String>)>,
    job_active: bool,
) -> (result: AvailabilityStep)
    ensures
        result == step_from_record(has_result, persisted, job_active),
{
    let fallback = if has_result {
        AvailabilityStep::Report(DiarizationJobState::Idle)
    } else {
        AvailabilityStep::CheckAudio
    };
    match persisted {
        Some((status, error)) => {
            let s = status.as_str();
            if (str_eq(s, "running") || str_eq(s, "queued")) && !job_active {
                AvailabilityStep::ReportInterrupted
            } else if str_eq(s, "queued") {
                AvailabilityStep::Report(DiarizationJobState::Queued)
            } else if str_eq(s, "running") {
                AvailabilityStep::Report(DiarizationJobState::Running)
            } else if str_eq(s, "failed") {
                AvailabilityStep::Report(DiarizationJobState::Failed { error })
            } else if str_eq(s, "unavailable") {
                AvailabilityStep::Report(DiarizationJobState::Unavailable { error })
            } else {
                fallback
            }
        },
        None => fallback,
    }
}

/// Second step: without saved audio there is nothing to analyse.
pub fn availability_after_audio(has_audio: bool) -> (result: AvailabilityStep)
    ensures
        result == (if has_audio {
            AvailabilityStep::CheckModels
        } else {
            AvailabilityStep::Report(DiarizationJobState::NoAudio)
        }),
{
    if has_audio {
        AvailabilityStep::CheckModels
    } else {
        AvailabilityStep::Report(DiarizationJobState::NoAudio)
    }
}

/// Last step: installed models make the pass available; missing or corrupted
/// ones are reported alike, since the remedy is the same.
pub fn availability_after_models(models_available: bool) -> (result: DiarizationJobState)
    ensures
        result == (if models_available {
            DiarizationJobState::Idle
        } else {
            DiarizationJobState::ModelsMissing
        }),
{
    if models_available {
        DiarizationJobState::Idle
    } else {
        DiarizationJobState::ModelsMissing
    }
}

/// A status a pass records on its meeting and announces to the UI.
#[derive(Debug, Clone, Copy, PartialEq, Eq, Structural)]
pub enum JobStatus {
    Queued,
    Running,
    Failed,
    Unavailable,
    Completed,
}

pub open spec fn job_status_text(status: JobStatus) -> Seq<char> {
    match status {
        JobStatus::Queued => "queued"@,
        JobStatus::Running => "running"@,
        JobStatus::Failed => "failed"@,
        JobStatus::Unavailable => "unavailable"@,
        JobStatus::Completed => "completed"@,
    }
}

impl JobStatus {
    pub fn as_str(&self) -> (result: &'static str)
        ensures
            result@ == job_status_text(*self),
    {
        match self {
            JobStatus::Queued => "queued",
            JobStatus::Running => "running",
            JobStatus::Failed => "failed",
            JobStatus::Unavailable => "unavailable",
            JobStatus::Completed => "completed",
        }
    }
}

/// Why a pass stopped short.
#[derive(Debug, Clone)]
pub enum JobNotice {
    /// A step's own error, verbatim.
    Message(String),
    NoSavedAudio,
    ModelsNotInstalled,
    /// The application data directory could not be resolved.
    ModelDirectory(String),
}

pub open spec fn notice_text(notice: JobNotice) -> Seq<char> {
    match notice {
        JobNotice::Message(m) => m@,
        JobNotice::NoSavedAudio => "No saved audio available for speaker analysis"@,
        JobNotice::ModelsNotInstalled => "Diarization models are not installed"@,
        JobNotice::ModelDirectory(e) => "Resolve diarization model directory: "@ + e@,
    }
}

impl JobNotice {
    pub fn text(&self) -> (result: String)
        ensures
            result@ == notice_text(*self),
    {
        match self {
            JobNotice::Message(m) => owned(m.as_str()),
            JobNotice::NoSavedAudio => owned("No saved audio available for speaker analysis"),
            JobNotice::ModelsNotInstalled => owned("Diarization models are not installed"),
            JobNotice::ModelDirectory(e) => concat("Resolve diarization model directory: ", e.as_str()),
        }
    }
}

/// One thing the caller does for a pass, in the order given.
#[derive(Debug, Clone)]
pub enum JobAction {
    /// Store the status (and error) on the meeting row.
    Record(JobStatus, Option<JobNotice>),
    /// Tell the UI: status, error and, on completion, the number of turns.
    Announce(JobStatus, Option<JobNotice>, Option<usize>),
    ReadFolder,
    ProbeAudio,
    ResolveModels,
    CheckModels,
    ResolveSource,
    Analyze,
    Persist,
    SyncTranscripts,
}

/// Where a pass stands; `has_folder` records whether the meeting has a folder.
#[derive(Debug, Clone, Copy, PartialEq, Eq, Structural)]
pub enum JobPhase {
    ReadingFolder,
    ProbingAudio { has_folder: bool },
    ResolvingModels { has_folder: bool },
    CheckingModels { has_folder: bool },
    Analyzing { has_folder: bool },
    Persisting { has_folder: bool, turns: usize },
    Done,
}

/// What the caller observed after performing the last step.
#[derive(Debug)]
pub enum JobEvent {
    /// The meeting row was read: whether it has a folder, or the error.
    FolderRead(Result<bool, String>),
    AudioProbed(bool),
    ModelsResolved(Result<(), String>),
    ModelsChecked(bool),
    /// The helper ran: the number of turns it found, or the error.
    Analyzed(Result<usize, String>),
    Persisted(Result<(), String>),
}

/// The first actions of an accepted pass.
pub open spec fn job_start_spec() -> (JobPhase, Seq<JobAction>) {
    (
        JobPhase::ReadingFolder,
        seq![
            JobAction::Record(JobStatus::Queued, None),
            JobAction::Announce(JobStatus::Queued, None, None),
            JobAction::ReadFolder,
        ],
    )
}

/// Record and announce a stop: the status with the same notice in both.
pub open spec fn stop(status: JobStatus, notice: JobNotice) -> Seq<JobAction> {
    seq![JobAction::Record(status, Some(notice)), JobAction::Announce(status, Some(notice), None)]
}

/// The next phase and actions after `event`, or `None` where the event does
/// not belong to the phase.
pub open spec fn job_step_spec(phase: JobPhase, event: JobEvent) -> Option<(JobPhase, Seq<JobAction>)> {
    match (phase, event) {
        (JobPhase::ReadingFolder, JobEvent::FolderRead(Err(e))) => Some(
            (JobPhase::Done, stop(JobStatus::Failed, JobNotice::Message(e))),
        ),
        (JobPhase::ReadingFolder, JobEvent::FolderRead(Ok(has_folder))) => Some(
            (JobPhase::ProbingAudio { has_folder }, seq![JobAction::ProbeAudio]),
        ),
        (JobPhase::ProbingAudio { has_folder }, JobEvent::AudioProbed(found)) => if found {
            Some((JobPhase::ResolvingModels { has_folder }, seq![JobAction::ResolveModels]))
        } else {
            Some((JobPhase::Done, stop(JobStatus::Unavailable, JobNotice::NoSavedAudio)))
        },
        (JobPhase::ResolvingModels { has_folder }, JobEvent::ModelsResolved(r)) => match r {
            Ok(_) => Some((JobPhase::CheckingModels { has_folder }, seq![JobAction::CheckModels])),
            Err(e) => Some(
                (
                    JobPhase::Done,
                    seq![
                        JobAction::Record(JobStatus::Failed, Some(JobNotice::ModelDirectory(e))),
                        JobAction::Announce(JobStatus::Failed, Some(JobNotice::Message(e)), None),
                    ],
                ),
            ),
        },
        (JobPhase::CheckingModels { has_folder }, JobEvent::ModelsChecked(installed)) => if installed {
            Some(
                (
                    JobPhase::Analyzing { has_folder },
                    seq![
                        JobAction::ResolveSource,
                        JobAction::Record(JobStatus::Running, None),
                        JobAction::Announce(JobStatus::Running, None, None),
                        JobAction::Analyze,
                    ],
                ),
            )
        } else {
            Some((JobPhase::Done, stop(JobStatus::Unavailable, JobNotice::ModelsNotInstalled)))
        },
        (JobPhase::Analyzing { has_folder }, JobEvent::Analyzed(r)) => match r {
            Ok(turns) => Some((JobPhase::Persisting { has_folder, turns }, seq![JobAction::Persist])),
            Err(e) => Some((JobPhase::Done, stop(JobStatus::Failed, JobNotice::Message(e)))),
        },
        (JobPhase::Persisting { has_folder, turns }, JobEvent::Persisted(r)) => match r {
            Ok(_) => if has_folder {
                Some(
                    (
                        JobPhase::Done,
                        seq![
                            JobAction::SyncTranscripts,
                            JobAction::Announce(JobStatus::Completed, None, Some(turns)),
                        ],
                    ),
                )
            } else {
                Some((JobPhase::Done, seq![JobAction::Announce(JobStatus::Completed, None, Some(turns))]))
            },
            Err(e) => Some((JobPhase::Done, stop(JobStatus::Failed, JobNotice::Message(e)))),
        },
        _ => None,
    }
}

/// Starts an accepted pass: record and announce `queued`, then read the meeting.
pub fn job_start() -> (result: (JobPhase, Vec<JobAction>))
    ensures
        (result.0, result.1@) == job_start_spec(),
{
    let mut actions = Vec::new();
    actions.push(JobAction::Record(JobStatus::Queued, None));
    actions.push(JobAction::Announce(JobStatus::Queued, None, None));
    actions.push(JobAction::ReadFolder);
    proof {
        assert(actions@ =~= job_start_spec().1);
    }
    (JobPhase::ReadingFolder, actions)
}

fn stop_with_message(status: JobStatus, e: String) -> (result: Vec<JobAction>)
    ensures
        result@ == stop(status, JobNotice::Message(e)),
{
    let mut actions = Vec::new();
    actions.push(JobAction::Record(status, Some(JobNotice::Message(e.clone()))));
    actions.push(JobAction::Announce(status, Some(JobNotice::Message(e)), None));
    assert(actions@ =~= stop(status, JobNotice::Message(e)));
    actions
}

fn stop_unavailable(no_audio: bool) -> (result: Vec<JobAction>)
    ensures
        result@ == stop(
            JobStatus::Unavailable,
            if no_audio {
                JobNotice::NoSavedAudio
            } else {
                JobNotice::ModelsNotInstalled
            },
        ),
{
    let mut actions = Vec::new();
    if no_audio {
        actions.push(JobAction::Record(JobStatus::Unavailable, Some(JobNotice::NoSavedAudio)));
        actions.push(JobAction::Announce(JobStatus::Unavailable, Some(JobNotice::NoSavedAudio), None));
    } else {
        actions.push(JobAction::Record(JobStatus::Unavailable, Some(JobNotice::ModelsNotInstalled)));
        actions.push(JobAction::Announce(JobStatus::Unavailable, Some(JobNotice::ModelsNotInstalled), None));
    }
    assert(actions@ =~= stop(
        JobStatus::Unavailable,
        if no_audio {
            JobNotice::NoSavedAudio
        } else {
            JobNotice::ModelsNotInstalled
        },
    ));
    actions
}

fn single(action: JobAction) -> (result: Vec<JobAction>)
    ensures
        result@ == seq![action],
{
    let mut actions = Vec::new();
    actions.push(action);
    assert(actions@ =~= seq![action]);
    actions
}

/// Advances a pass by one observed event; `None` where the event does not
/// belong to the phase.
pub fn job_step(phase: JobPhase, event: JobEvent) -> (result: Option<(JobPhase, Vec<JobAction>)>)
    ensures
        match result {
            Some((next, actions)) => job_step_spec(phase, event) == Some((next, actions@)),
            None => job_step_spec(phase, event) is None,
        },
{
    match (phase, event) {
        (JobPhase::ReadingFolder, JobEvent::FolderRead(read)) => match read {
            Err(e) => Some((JobPhase::Done, stop_with_message(JobStatus::Failed, e))),
            Ok(has_folder) => Some((JobPhase::ProbingAudio { has_folder }, single(JobAction::ProbeAudio))),
        },
        (JobPhase::ProbingAudio { has_folder }, JobEvent::AudioProbed(found)) => if found {
            Some((JobPhase::ResolvingModels { has_folder }, single(JobAction::ResolveModels)))
        } else {
            Some((JobPhase::Done, stop_unavailable(true)))
        },
        (JobPhase::ResolvingModels { has_folder }, JobEvent::ModelsResolved(r)) => match r {
            Ok(_) => Some((JobPhase::CheckingModels { has_folder }, single(JobAction::CheckModels))),
            Err(e) => {
                let mut actions = Vec::new();
                actions.push(JobAction::Record(JobStatus::Failed, Some(JobNotice::ModelDirectory(e.clone()))));
                actions.push(JobAction::Announce(JobStatus::Failed, Some(JobNotice::Message(e)), None));
                Some((JobPhase::Done, actions))
            },
        },
        (JobPhase::CheckingModels { has_folder }, JobEvent::ModelsChecked(installed)) => if installed {
            let mut actions = Vec::new();
            actions.push(JobAction::ResolveSource);
            actions.push(JobAction::Record(JobStatus::Running, None));
            actions.push(JobAction::Announce(JobStatus::Running, None, None));
            actions.push(JobAction::Analyze);
            Some((JobPhase::Analyzing { has_folder }, actions))
        } else {
            Some((JobPhase::Done, stop_unavailable(false)))
        },
        (JobPhase::Analyzing { has_folder }, JobEvent::Analyzed(r)) => match r {
            Ok(turns) => Some((JobPhase::Persisting { has_folder, turns }, single(JobAction::Persist))),
            Err(e) => Some((JobPhase::Done, stop_with_message(JobStatus::Failed, e))),
        },
        (JobPhase::Persisting { has_folder, turns }, JobEvent::Persisted(r)) => match r {
            Ok(_) => if has_folder {
                let mut actions = Vec::new();
                actions.push(JobAction::SyncTranscripts);
                actions.push(JobAction::Announce(JobStatus::Completed, None, Some(turns)));
                Some((JobPhase::Done, actions))
            } else {
                Some((JobPhase::Done, single(JobAction::Announce(JobStatus::Completed, None, Some(turns)))))
            },
            Err(e) => Some((JobPhase::Done, stop_with_message(JobStatus::Failed, e))),
        },
        _ => None,
    }
}


/// `actions` announce a final status: failed, unavailable or completed.
pub open spec fn announces_final(actions: Seq<JobAction>) -> bool {
    exists|i: int|
        0 <= i < actions.len() && match #[trigger] actions[i] {
            JobAction::Announce(JobStatus::Failed, _, _) => true,
            JobAction::Announce(JobStatus::Unavailable, _, _) => true,
            JobAction::Announce(JobStatus::Completed, _, _) => true,
            _ => false,
        }
}

/// `actions` record `status` on the meeting row.
pub open spec fn records(actions: Seq<JobAction>, status: JobStatus) -> bool {
    exists|i: int| 0 <= i < actions.len() && (#[trigger] actions[i] matches JobAction::Record(s, _) && s == status)
}

/// `actions` announce `status`.
pub open spec fn announces(actions: Seq<JobAction>, status: JobStatus) -> bool {
    exists|i: int| 0 <= i < actions.len() && (#[trigger] actions[i] matches JobAction::Announce(s, _, _) && s == status)
}

/// A step that finishes a pass announces a final status, and records it
/// on the meeting where the pass failed or was unavailable.
pub open spec fn stop_is_announced(step: Option<(JobPhase, Seq<JobAction>)>) -> bool {
    match step {
        Some((next, actions)) => next is Done ==> {
            &&& announces_final(actions)
            &&& announces(actions, JobStatus::Failed) ==> records(actions, JobStatus::Failed)
            &&& announces(actions, JobStatus::Unavailable) ==> records(actions, JobStatus::Unavailable)
        },
        None => true,
    }
}

/// A pass never ends silently: every step that finishes it announces a
/// final status, a failed or unavailable pass also records that status on
/// the meeting, and a finished pass takes no further event.
pub proof fn law_every_stop_is_announced(phase: JobPhase, event: JobEvent)
    ensures
        stop_is_announced(job_step_spec(phase, event)),
        job_step_spec(JobPhase::Done, event) is None,
{
    match job_step_spec(phase, event) {
        Some((next, actions)) => {
            if next is Done {
                match (phase, event) {
                    (JobPhase::Persisting { has_folder, .. }, JobEvent::Persisted(Ok(_))) => {
                        let k: int = if has_folder {
                            1
                        } else {
                            0
                        };
                        assert(match actions[k] {
                            JobAction::Announce(JobStatus::Completed, _, _) => true,
                            _ => false,
                        });
                        assert(!announces(actions, JobStatus::Failed));
                        assert(!announces(actions, JobStatus::Unavailable));
                    },
                    _ => {
                        assert(actions[0] is Record);
                        assert(actions[1] is Announce);
                        assert(match actions[1] {
                            JobAction::Announce(JobStatus::Failed, _, _) => true,
                            JobAction::Announce(JobStatus::Unavailable, _, _) => true,
                            _ => false,
                        });
                        assert(actions.len() == 2);
                    },
                }
            }
        },
        None => {},
    }
}

/// Analysis runs only on installed models: after the model check the pass
/// goes on to analysis, keeping whether the meeting has a folder, exactly
/// when the models are installed; otherwise it ends, recording and
/// announcing `Unavailable` with the models-not-installed notice, whether or
/// not the meeting has a folder. No other step starts analysis.
pub proof fn law_analysis_needs_installed_models(has_folder: bool, installed: bool, phase: JobPhase, event: JobEvent)
    ensures
        installed ==> (match job_step_spec((JobPhase::CheckingModels { has_folder }), JobEvent::ModelsChecked(installed)) {
            Some((JobPhase::Analyzing { has_folder: h }, actions)) => h == has_folder && actions.contains(JobAction::Analyze),
            _ => false,
        }),
        !installed ==> job_step_spec((JobPhase::CheckingModels { has_folder }), JobEvent::ModelsChecked(installed)) == Some(
            (
                JobPhase::Done,
                seq![
                    JobAction::Record(JobStatus::Unavailable, Some(JobNotice::ModelsNotInstalled)),
                    JobAction::Announce(JobStatus::Unavailable, Some(JobNotice::ModelsNotInstalled), None),
                ],
            ),
        ),
        (match job_step_spec(phase, event) {
            Some((JobPhase::Analyzing { .. }, _)) => phase is CheckingModels && (event matches JobEvent::ModelsChecked(true)),
            _ => true,
        }),
{
    if installed {
        match job_step_spec((JobPhase::CheckingModels { has_folder }), JobEvent::ModelsChecked(installed)) {
            Some((_, actions)) => {
                assert(actions[3] == JobAction::Analyze);
            },
            None => {},
        }
    }
}

} // verus!
