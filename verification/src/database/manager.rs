//! Verified meeting deletion: how the recording folder fared, and which
//! cleanup failures leave the folder in place instead of failing the delete.
use vstd::prelude::*;
use crate::text::{ascii_lowercase, ascii_lowercase_spec, contains_seq, contains_str_in, is_blank, all_ws, owned};

verus! {

/// What became of a meeting's recording folder when the meeting was deleted.
#[derive(Debug, Clone, Copy, PartialEq, Eq, Structural)]
pub enum RecordingCleanupStatus {
    Removed,
    Absent,
    RetainedUntrusted,
    RetainedShared,
    RetainedOwnershipMismatch,
}

pub open spec fn cleanup_status_text(status: RecordingCleanupStatus) -> Seq<char> {
    match status {
        RecordingCleanupStatus::Removed => "removed"@,
        RecordingCleanupStatus::Absent => "absent"@,
        RecordingCleanupStatus::RetainedUntrusted => "retained_untrusted"@,
        RecordingCleanupStatus::RetainedShared => "retained_shared"@,
        RecordingCleanupStatus::RetainedOwnershipMismatch => "retained_ownership_mismatch"@,
    }
}

impl Default for RecordingCleanupStatus {
    fn default() -> (result: Self)
        ensures
            result == RecordingCleanupStatus::Absent,
    {
        RecordingCleanupStatus::Absent
    }
}

impl RecordingCleanupStatus {
    pub fn as_str(self) -> (result: &'static str)
        ensures
            result@ == cleanup_status_text(self),
    {
        match self {
            RecordingCleanupStatus::Removed => "removed",
            RecordingCleanupStatus::Absent => "absent",
            RecordingCleanupStatus::RetainedUntrusted => "retained_untrusted",
            RecordingCleanupStatus::RetainedShared => "retained_shared",
            RecordingCleanupStatus::RetainedOwnershipMismatch => "retained_ownership_mismatch",
        }
    }
}

/// The outcome of deleting a meeting: whether it was already gone, what the
/// artifact eraser reported (`R`), the recording folder's fate, and whether
/// database compaction still has to be retried.
#[derive(Debug, Clone, Copy)]
pub struct VerifiedMeetingDeletion<R> {
    pub already_absent: bool,
    pub artifacts: R,
    pub recording_cleanup: RecordingCleanupStatus,
    pub maintenance_pending: bool,
}

/// How a failed folder cleanup is classified, from its lowercased error
/// chain: an ownership problem, an untrusted location, or (`None`) an
/// operational failure that must fail the deletion.
pub open spec fn retained_status(chain: Seq<char>) -> Option<RecordingCleanupStatus> {
    if contains_seq(chain, "different workspace"@) || contains_seq(chain, "ownership marker"@)
        || contains_seq(chain, "restricted to the local workspace"@) {
        Some(RecordingCleanupStatus::RetainedOwnershipMismatch)
    } else if contains_seq(chain, "outside the managed"@) || contains_seq(
        chain,
        "must be an absolute path"@,
    ) || contains_seq(chain, "must be a real directory"@) || contains_seq(
        chain,
        "read recording folder metadata"@,
    ) || contains_seq(chain, "canonicalize recording folder"@) {
        Some(RecordingCleanupStatus::RetainedUntrusted)
    } else {
        None
    }
}

pub fn classify_retained_folder(chain: &str) -> (result: Option<RecordingCleanupStatus>)
    ensures
        result == retained_status(chain@),
{
    if contains_str_in(chain, "different workspace") || contains_str_in(chain, "ownership marker")
        || contains_str_in(chain, "restricted to the local workspace") {
        Some(RecordingCleanupStatus::RetainedOwnershipMismatch)
    } else if contains_str_in(chain, "outside the managed") || contains_str_in(
        chain,
        "must be an absolute path",
    ) || contains_str_in(chain, "must be a real directory") || contains_str_in(
        chain,
        "read recording folder metadata",
    ) || contains_str_in(chain, "canonicalize recording folder") {
        Some(RecordingCleanupStatus::RetainedUntrusted)
    } else {
        None
    }
}

/// The folder's fate after a successful erase: removed if it was there.
pub fn cleanup_after_erase(target_was_present: bool) -> (result: RecordingCleanupStatus)
    ensures
        result == (if target_was_present {
            RecordingCleanupStatus::Removed
        } else {
            RecordingCleanupStatus::Absent
        }),
{
    if target_was_present {
        RecordingCleanupStatus::Removed
    } else {
        RecordingCleanupStatus::Absent
    }
}


/// What a finished deletion reports, besides the artifact eraser's report.
#[derive(Debug, Clone, Copy, PartialEq, Eq, Structural)]
pub struct DeletionSummary {
    pub already_absent: bool,
    pub recording_cleanup: RecordingCleanupStatus,
    pub maintenance_pending: bool,
}

/// Where a verified meeting deletion stands. `maintenance_pending` records
/// that an earlier database compaction is still owed.
#[derive(Debug, Clone, Copy, PartialEq, Eq, Structural)]
pub enum DeletionPhase {
    ResumingMaintenance,
    LoadingMeeting { maintenance_pending: bool },
    CheckingShared { maintenance_pending: bool },
    ErasingFolder { maintenance_pending: bool },
    DeletingRows { maintenance_pending: bool, recording_cleanup: RecordingCleanupStatus },
    CompletingMaintenance { recording_cleanup: RecordingCleanupStatus },
    Done,
}

/// The next piece of outside work a deletion asks for.
#[derive(Debug, Clone, Copy, PartialEq, Eq, Structural)]
pub enum DeletionAction {
    /// Retry compaction that an earlier deletion left pending.
    ResumeMaintenance,
    /// Read the meeting's metadata within the caller's workspace.
    LoadMeeting,
    /// Ask whether another meeting of the workspace uses the same folder.
    CheckShared,
    /// Verify and erase the recording folder.
    EraseFolder,
    /// Delete the meeting's rows.
    DeleteRows,
    /// Compact the database after the delete.
    CompleteMaintenance,
    /// Report success.
    Finish(DeletionSummary),
    /// Return the error that was just observed.
    Fail,
}

/// What the outside work reported.
#[derive(Debug, Clone, PartialEq, Eq)]
pub enum DeletionEvent {
    /// Whether resuming pending compaction succeeded.
    MaintenanceResumed(bool),
    /// `None`: no such meeting in the workspace; else its folder path, if any.
    MeetingLoaded(Option<Option<String>>),
    /// Whether the folder is shared with another meeting.
    SharedChecked(bool),
    /// The folder was erased; whether it existed beforehand.
    FolderErased(bool),
    /// Erasing refused, with the error chain's text.
    FolderEraseRefused(String),
    /// Whether any meeting row was deleted.
    RowsDeleted(bool),
    /// Whether compaction succeeded.
    MaintenanceCompleted(bool),
    /// A read, query or task failed.
    OperationFailed,
}

/// A folder path that names a folder: present and not blank.
pub open spec fn names_folder(folder: Option<String>) -> bool {
    folder matches Some(f) && !all_ws(f@)
}

/// How a deletion moves on one event; `None` where the event does not
/// belong to the phase.
pub open spec fn deletion_step_spec(phase: DeletionPhase, event: DeletionEvent) -> Option<(DeletionPhase, DeletionAction)> {
    match (phase, event) {
        (DeletionPhase::ResumingMaintenance, DeletionEvent::MaintenanceResumed(ok)) => Some(
            (DeletionPhase::LoadingMeeting { maintenance_pending: !ok }, DeletionAction::LoadMeeting),
        ),
        (DeletionPhase::LoadingMeeting { maintenance_pending }, DeletionEvent::MeetingLoaded(found)) => match found {
            None => Some(
                (
                    DeletionPhase::Done,
                    DeletionAction::Finish(
                        DeletionSummary {
                            already_absent: true,
                            recording_cleanup: RecordingCleanupStatus::Absent,
                            maintenance_pending,
                        },
                    ),
                ),
            ),
            Some(folder) => if names_folder(folder) {
                Some((DeletionPhase::CheckingShared { maintenance_pending }, DeletionAction::CheckShared))
            } else {
                Some(
                    (
                        DeletionPhase::DeletingRows { maintenance_pending, recording_cleanup: RecordingCleanupStatus::Absent },
                        DeletionAction::DeleteRows,
                    ),
                )
            },
        },
        (DeletionPhase::CheckingShared { maintenance_pending }, DeletionEvent::SharedChecked(shared)) => if shared {
            Some(
                (
                    DeletionPhase::DeletingRows {
                        maintenance_pending,
                        recording_cleanup: RecordingCleanupStatus::RetainedShared,
                    },
                    DeletionAction::DeleteRows,
                ),
            )
        } else {
            Some((DeletionPhase::ErasingFolder { maintenance_pending }, DeletionAction::EraseFolder))
        },
        (DeletionPhase::ErasingFolder { maintenance_pending }, DeletionEvent::FolderErased(present)) => Some(
            (
                DeletionPhase::DeletingRows {
                    maintenance_pending,
                    recording_cleanup: if present {
                        RecordingCleanupStatus::Removed
                    } else {
                        RecordingCleanupStatus::Absent
                    },
                },
                DeletionAction::DeleteRows,
            ),
        ),
        (DeletionPhase::ErasingFolder { maintenance_pending }, DeletionEvent::FolderEraseRefused(chain)) => match retained_status(
            ascii_lowercase_spec(chain@),
        ) {
            Some(status) => Some(
                (
                    DeletionPhase::DeletingRows { maintenance_pending, recording_cleanup: status },
                    DeletionAction::DeleteRows,
                ),
            ),
            None => Some((DeletionPhase::Done, DeletionAction::Fail)),
        },
        (DeletionPhase::DeletingRows { maintenance_pending, recording_cleanup }, DeletionEvent::RowsDeleted(deleted)) => if deleted {
            Some((DeletionPhase::CompletingMaintenance { recording_cleanup }, DeletionAction::CompleteMaintenance))
        } else {
            Some(
                (
                    DeletionPhase::Done,
                    DeletionAction::Finish(DeletionSummary { already_absent: true, recording_cleanup, maintenance_pending }),
                ),
            )
        },
        (DeletionPhase::CompletingMaintenance { recording_cleanup }, DeletionEvent::MaintenanceCompleted(ok)) => Some(
            (
                DeletionPhase::Done,
                DeletionAction::Finish(
                    DeletionSummary { already_absent: false, recording_cleanup, maintenance_pending: !ok },
                ),
            ),
        ),
        (DeletionPhase::LoadingMeeting { .. }, DeletionEvent::OperationFailed) => Some(
            (DeletionPhase::Done, DeletionAction::Fail),
        ),
        (DeletionPhase::CheckingShared { .. }, DeletionEvent::OperationFailed) => Some(
            (DeletionPhase::Done, DeletionAction::Fail),
        ),
        (DeletionPhase::ErasingFolder { .. }, DeletionEvent::OperationFailed) => Some(
            (DeletionPhase::Done, DeletionAction::Fail),
        ),
        (DeletionPhase::DeletingRows { .. }, DeletionEvent::OperationFailed) => Some(
            (DeletionPhase::Done, DeletionAction::Fail),
        ),
        _ => None,
    }
}

/// A deletion begins by retrying any compaction an earlier one left pending.
pub fn deletion_start() -> (result: (DeletionPhase, DeletionAction))
    ensures
        result == (DeletionPhase::ResumingMaintenance, DeletionAction::ResumeMaintenance),
{
    (DeletionPhase::ResumingMaintenance, DeletionAction::ResumeMaintenance)
}

/// Advances a meeting deletion by one observed event: shared, untrusted or
/// foreign folders are kept and reported, never blocking the delete;
/// operational failures end it with the error.
pub fn deletion_step(phase: DeletionPhase, event: DeletionEvent) -> (result: Option<(DeletionPhase, DeletionAction)>)
    ensures
        result == deletion_step_spec(phase, event),
{
    match (phase, event) {
        (DeletionPhase::ResumingMaintenance, DeletionEvent::MaintenanceResumed(ok)) => Some(
            (DeletionPhase::LoadingMeeting { maintenance_pending: !ok }, DeletionAction::LoadMeeting),
        ),
        (DeletionPhase::LoadingMeeting { maintenance_pending }, DeletionEvent::MeetingLoaded(found)) => match found {
            None => Some(
                (
                    DeletionPhase::Done,
                    DeletionAction::Finish(
                        DeletionSummary {
                            already_absent: true,
                            recording_cleanup: RecordingCleanupStatus::Absent,
                            maintenance_pending,
                        },
                    ),
                ),
            ),
            Some(folder) => {
                let named = match &folder {
                    Some(f) => !is_blank(f.as_str()),
                    None => false,
                };
                if named {
                    Some((DeletionPhase::CheckingShared { maintenance_pending }, DeletionAction::CheckShared))
                } else {
                    Some(
                        (
                            DeletionPhase::DeletingRows {
                                maintenance_pending,
                                recording_cleanup: RecordingCleanupStatus::Absent,
                            },
                            DeletionAction::DeleteRows,
                        ),
                    )
                }
            },
        },
        (DeletionPhase::CheckingShared { maintenance_pending }, DeletionEvent::SharedChecked(shared)) => if shared {
            Some(
                (
                    DeletionPhase::DeletingRows {
                        maintenance_pending,
                        recording_cleanup: RecordingCleanupStatus::RetainedShared,
                    },
                    DeletionAction::DeleteRows,
                ),
            )
        } else {
            Some((DeletionPhase::ErasingFolder { maintenance_pending }, DeletionAction::EraseFolder))
        },
        (DeletionPhase::ErasingFolder { maintenance_pending }, DeletionEvent::FolderErased(present)) => Some(
            (
                DeletionPhase::DeletingRows { maintenance_pending, recording_cleanup: cleanup_after_erase(present) },
                DeletionAction::DeleteRows,
            ),
        ),
        (DeletionPhase::ErasingFolder { maintenance_pending }, DeletionEvent::FolderEraseRefused(chain)) => {
            let lowered = ascii_lowercase(chain.as_str());
            match classify_retained_folder(lowered.as_str()) {
                Some(status) => Some(
                    (
                        DeletionPhase::DeletingRows { maintenance_pending, recording_cleanup: status },
                        DeletionAction::DeleteRows,
                    ),
                ),
                None => Some((DeletionPhase::Done, DeletionAction::Fail)),
            }
        },
        (
            DeletionPhase::DeletingRows { maintenance_pending, recording_cleanup },
            DeletionEvent::RowsDeleted(deleted),
        ) => if deleted {
            Some((DeletionPhase::CompletingMaintenance { recording_cleanup }, DeletionAction::CompleteMaintenance))
        } else {
            Some(
                (
                    DeletionPhase::Done,
                    DeletionAction::Finish(DeletionSummary { already_absent: true, recording_cleanup, maintenance_pending }),
                ),
            )
        },
        (DeletionPhase::CompletingMaintenance { recording_cleanup }, DeletionEvent::MaintenanceCompleted(ok)) => Some(
            (
                DeletionPhase::Done,
                DeletionAction::Finish(
                    DeletionSummary { already_absent: false, recording_cleanup, maintenance_pending: !ok },
                ),
            ),
        ),
        (DeletionPhase::LoadingMeeting { .. }, DeletionEvent::OperationFailed) => Some(
            (DeletionPhase::Done, DeletionAction::Fail),
        ),
        (DeletionPhase::CheckingShared { .. }, DeletionEvent::OperationFailed) => Some(
            (DeletionPhase::Done, DeletionAction::Fail),
        ),
        (DeletionPhase::ErasingFolder { .. }, DeletionEvent::OperationFailed) => Some(
            (DeletionPhase::Done, DeletionAction::Fail),
        ),
        (DeletionPhase::DeletingRows { .. }, DeletionEvent::OperationFailed) => Some(
            (DeletionPhase::Done, DeletionAction::Fail),
        ),
        _ => None,
    }
}


/// A shared folder, or one that cannot be trusted or belongs to another
/// workspace, is kept and reported, and the meeting's rows are deleted
/// all the same.
pub proof fn law_retained_folder_never_blocks_deletion(maintenance_pending: bool, chain: String)
    ensures
        deletion_step_spec(DeletionPhase::CheckingShared { maintenance_pending }, DeletionEvent::SharedChecked(true))
            == Some(
            (
                DeletionPhase::DeletingRows {
                    maintenance_pending,
                    recording_cleanup: RecordingCleanupStatus::RetainedShared,
                },
                DeletionAction::DeleteRows,
            ),
        ),
        retained_status(ascii_lowercase_spec(chain@)) matches Some(status) ==> deletion_step_spec(
            DeletionPhase::ErasingFolder { maintenance_pending },
            DeletionEvent::FolderEraseRefused(chain),
        ) == Some(
            (DeletionPhase::DeletingRows { maintenance_pending, recording_cleanup: status }, DeletionAction::DeleteRows),
        ),
{
}

/// An operational failure ends the deletion with its error, and a finished
/// deletion takes no further event: a partial cleanup is never reported as
/// a success.
pub proof fn law_operational_failure_is_fatal(phase: DeletionPhase, chain: String, event: DeletionEvent)
    ensures
        (phase is LoadingMeeting || phase is CheckingShared || phase is ErasingFolder || phase is DeletingRows)
            ==> deletion_step_spec(phase, DeletionEvent::OperationFailed) == Some(
            (DeletionPhase::Done, DeletionAction::Fail),
        ),
        (phase is ErasingFolder && retained_status(ascii_lowercase_spec(chain@)) is None) ==> deletion_step_spec(
            phase,
            DeletionEvent::FolderEraseRefused(chain),
        ) == Some((DeletionPhase::Done, DeletionAction::Fail)),
        deletion_step_spec(DeletionPhase::Done, event) is None,
{
}

/// The step claims the folder removed, in its next phase or its report.
pub open spec fn claims_removed(phase: DeletionPhase, action: DeletionAction) -> bool {
    ||| phase matches DeletionPhase::DeletingRows { recording_cleanup, .. } && recording_cleanup
        == RecordingCleanupStatus::Removed
    ||| phase matches DeletionPhase::CompletingMaintenance { recording_cleanup } && recording_cleanup
        == RecordingCleanupStatus::Removed
    ||| action matches DeletionAction::Finish(summary) && summary.recording_cleanup == RecordingCleanupStatus::Removed
}

/// A folder is reported removed only after an erase of a folder that was
/// there: every step that claims removal either carries the claim over or
/// observed exactly that.
pub proof fn law_removed_only_after_erase(phase: DeletionPhase, action: DeletionAction, event: DeletionEvent)
    ensures
        deletion_step_spec(phase, event) matches Some((next, out)) && claims_removed(next, out) ==> claims_removed(
            phase,
            action,
        ) || event == DeletionEvent::FolderErased(true),
{
    match deletion_step_spec(phase, event) {
        Some((next, out)) => {
            if claims_removed(next, out) && event != DeletionEvent::FolderErased(true) {
                match (phase, event) {
                    (DeletionPhase::ErasingFolder { .. }, DeletionEvent::FolderEraseRefused(chain)) => {
                        let c = ascii_lowercase_spec(chain@);
                        assert(retained_status(c) != Some(RecordingCleanupStatus::Removed));
                    },
                    _ => {},
                }
            }
        },
        None => {},
    }
}

/// An unknown id, or one of another workspace, is answered as already
/// absent with no folder touched, so the answer reveals no row.
pub proof fn law_absent_meeting_is_idempotent(maintenance_pending: bool)
    ensures
        deletion_step_spec(DeletionPhase::LoadingMeeting { maintenance_pending }, DeletionEvent::MeetingLoaded(None))
            == Some(
            (
                DeletionPhase::Done,
                DeletionAction::Finish(
                    DeletionSummary {
                        already_absent: true,
                        recording_cleanup: RecordingCleanupStatus::Absent,
                        maintenance_pending,
                    },
                ),
            ),
        ),
{
}

} // verus!
