//! Short-turn events as stored: which automatic events may be written over
//! earlier ones, and how their revision advances.
use vstd::prelude::*;
use crate::text::{owned, str_eq};

verus! {

/// The short-turn event store.
#[derive(Debug, Clone, Copy, Default)]
pub struct ShortTurnEventsRepository;

impl ShortTurnEventsRepository {
    /// An automatic event may be written only for its own meeting and with a
    /// positive duration.
    pub fn check_automatic_event(
        meeting_id: &str,
        event_meeting_id: &str,
        start_ms: i64,
        end_ms: i64,
    ) -> (result: Result<(), String>)
        ensures
            result is Ok <==> event_meeting_id@ == meeting_id@ && start_ms < end_ms,
            result matches Err(e) ==> e@ == (if event_meeting_id@ != meeting_id@ {
                "short-turn event belongs to another meeting"@
            } else {
                "short-turn event has invalid timing"@
            }),
    {
        if !str_eq(event_meeting_id, meeting_id) {
            return Err(owned("short-turn event belongs to another meeting"));
        }
        if end_ms <= start_ms {
            return Err(owned("short-turn event has invalid timing"));
        }
        Ok(())
    }

    /// The revision of a rewritten event: unchanged when the automatic result
    /// is the same as before, otherwise one more (saturating).
    pub fn next_revision(previous: i64, same_result: bool) -> (result: i64)
        ensures
            result as int == (if same_result || previous == i64::MAX {
                previous as int
            } else {
                previous + 1
            }),
    {
        if same_result || previous == i64::MAX {
            previous
        } else {
            previous + 1
        }
    }
}

} // verus!
