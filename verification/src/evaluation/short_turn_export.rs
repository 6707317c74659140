//! Annotation windows: how a recording is cut into overlapping windows, what
//! each window is called, and which candidates a review window suggests.
use vstd::prelude::*;
use crate::text::{all_ws, concat, decimal_padded, is_blank, owned, str_eq, u64_to_padded_decimal};

verus! {

pub const DEFAULT_WINDOW_MS: i64 = 5_000;

pub const DEFAULT_STRIDE_MS: i64 = 4_000;

/// Cuts one recording into annotation windows; paths are carried as strings.
#[derive(Debug, Clone)]
pub struct ShortTurnExportRequest {
    pub audio: String,
    pub meeting_id: String,
    pub output: String,
    pub production_artifact: String,
    pub window_ms: i64,
    pub stride_ms: i64,
    pub overwrite_existing: bool,
}

#[derive(Debug, Clone)]
pub struct ShortTurnExportResult {
    pub window_count: usize,
    pub candidate_count: usize,
    pub blind_manifest: String,
    pub review_manifest: String,
}

#[derive(Debug, Clone)]
pub struct PrepareAnnotationWindowsRequest {
    pub dataset_root: String,
    pub source_media: String,
    pub production_artifact: String,
    pub meeting_id: String,
}

#[derive(Debug, Clone)]
pub struct PrepareAnnotationWindowsResult {
    pub meeting_id: String,
    pub blind_window_count: usize,
    pub review_window_count: usize,
    pub candidate_count: usize,
    pub controlled_production_artifact: String,
    pub blind_manifest: String,
    pub review_manifest: String,
}

/// Why an export request is refused before any file is touched.
pub open spec fn export_request_problem(meeting_id: Seq<char>, window_ms: i64, stride_ms: i64) -> Option<Seq<char>> {
    if all_ws(meeting_id) {
        Some("meeting id must not be empty"@)
    } else if window_ms <= 0 || stride_ms <= 0 || stride_ms > window_ms {
        Some("window and stride must be positive, with stride <= window"@)
    } else {
        None
    }
}

pub fn check_export_request(meeting_id: &str, window_ms: i64, stride_ms: i64) -> (result: Result<(), String>)
    ensures
        match result {
            Ok(_) => export_request_problem(meeting_id@, window_ms, stride_ms) is None,
            Err(e) => export_request_problem(meeting_id@, window_ms, stride_ms) == Some(e@),
        },
{
    if is_blank(meeting_id) {
        return Err(owned("meeting id must not be empty"));
    }
    if window_ms <= 0 || stride_ms <= 0 || stride_ms > window_ms {
        return Err(owned("window and stride must be positive, with stride <= window"));
    }
    Ok(())
}

/// The windows from `start` on: each `window` long (cut at the end of the
/// audio), starting `stride` after the previous one, until one reaches the end.
pub open spec fn windows_from(end: int, window: int, stride: int, start: int) -> Seq<(i64, i64)>
    decreases end - start,
{
    if stride <= 0 || window < stride || start >= end {
        Seq::empty()
    } else {
        let stop = if start + window < end {
            start + window
        } else {
            end
        };
        if stop == end {
            seq![(start as i64, stop as i64)]
        } else {
            seq![(start as i64, stop as i64)] + windows_from(end, window, stride, start + stride)
        }
    }
}

/// The windows of a recording `audio_end_ms` long.
pub fn window_layout(audio_end_ms: i64, window_ms: i64, stride_ms: i64) -> (result: Vec<(i64, i64)>)
    requires
        0 < stride_ms <= window_ms,
        audio_end_ms as int + window_ms as int <= i64::MAX,
    ensures
        result@ == windows_from(audio_end_ms as int, window_ms as int, stride_ms as int, 0),
{
    let mut out: Vec<(i64, i64)> = Vec::new();
    let mut start: i64 = 0;
    while start < audio_end_ms
        invariant_except_break
            0 <= start,
            start < audio_end_ms ==> out@ + windows_from(audio_end_ms as int, window_ms as int, stride_ms as int, start as int)
                == windows_from(audio_end_ms as int, window_ms as int, stride_ms as int, 0),
            start >= audio_end_ms ==> out@ == windows_from(audio_end_ms as int, window_ms as int, stride_ms as int, 0),
        invariant
            0 < stride_ms <= window_ms,
            audio_end_ms as int + window_ms as int <= i64::MAX,
        ensures
            out@ == windows_from(audio_end_ms as int, window_ms as int, stride_ms as int, 0),
        decreases audio_end_ms - start,
    {
        let stop = if start + window_ms < audio_end_ms {
            start + window_ms
        } else {
            audio_end_ms
        };
        let ghost before = out@;
        out.push((start, stop));
        if stop == audio_end_ms {
            assert(out@ =~= before + windows_from(audio_end_ms as int, window_ms as int, stride_ms as int, start as int));
            break;
        }
        proof {
            assert(windows_from(audio_end_ms as int, window_ms as int, stride_ms as int, start as int) =~= seq![
                (start, stop),
            ] + windows_from(audio_end_ms as int, window_ms as int, stride_ms as int, start + stride_ms));
            assert(out@ + windows_from(audio_end_ms as int, window_ms as int, stride_ms as int, start + stride_ms)
                =~= before + windows_from(audio_end_ms as int, window_ms as int, stride_ms as int, start as int));
        }
        start = start + stride_ms;
        proof {
            if start >= audio_end_ms {
                assert(stop < audio_end_ms);
                assert(false);
            }
        }
    }
    out
}

/// Law: the windows tile the recording. They start at 0, each begins where
/// the stride puts it, none is empty, consecutive windows leave no gap, and
/// the last one ends exactly at the end of the audio.
pub proof fn law_windows_cover_recording(end: int, window: int, stride: int, start: int)
    requires
        0 < stride <= window,
        0 <= start < end,
        end + window <= i64::MAX,
    ensures
        windows_from(end, window, stride, start).len() >= 1,
        windows_from(end, window, stride, start)[0].0 == start,
        windows_from(end, window, stride, start).last().1 == end,
        forall|k: int|
            0 <= k < windows_from(end, window, stride, start).len() ==> (#[trigger] windows_from(end, window, stride, start)[k]).0
                < windows_from(end, window, stride, start)[k].1,
        forall|k: int|
            0 <= k < windows_from(end, window, stride, start).len() - 1 ==> (#[trigger] windows_from(end, window, stride, start)[k + 1]).0
                <= windows_from(end, window, stride, start)[k].1,
    decreases end - start,
{
    let stop = if start + window < end {
        start + window
    } else {
        end
    };
    if stop != end {
        law_windows_cover_recording(end, window, stride, start + stride);
        let rest = windows_from(end, window, stride, start + stride);
        let all = windows_from(end, window, stride, start);
        assert(all =~= seq![(start as i64, stop as i64)] + rest);
        assert forall|k: int| 0 <= k < all.len() implies (#[trigger] all[k]).0 < all[k].1 by {
            if k > 0 {
                assert(all[k] == rest[k - 1]);
            }
        }
        assert forall|k: int| 0 <= k < all.len() - 1 implies (#[trigger] all[k + 1]).0 <= all[k].1 by {
            assert(all[k + 1] == rest[k]);
            if k > 0 {
                assert(all[k] == rest[k - 1]);
                let j = k - 1;
                assert(rest[j + 1].0 <= rest[j].1);
            } else {
                assert(rest[0].0 == start + stride);
                assert(all[0].1 == stop);
            }
        }
    }
}

/// `window_NNNN.wav`, numbered from 1.
pub open spec fn window_file_spec(n: nat) -> Seq<char> {
    "window_"@ + decimal_padded(n, 4) + ".wav"@
}

pub fn window_file_name(n: u64) -> (result: String)
    ensures
        result@ == window_file_spec(n as nat),
{
    let digits = u64_to_padded_decimal(n, 4);
    let mut name = concat("window_", digits.as_str());
    name.append(".wav");
    name
}

/// `{meeting}-window-NNNN`.
pub open spec fn window_id_spec(meeting_id: Seq<char>, n: nat) -> Seq<char> {
    meeting_id + "-window-"@ + decimal_padded(n, 4)
}

pub fn window_id(meeting_id: &str, n: u64) -> (result: String)
    ensures
        result@ == window_id_spec(meeting_id@, n as nat),
{
    let mut id = concat(meeting_id, "-window-");
    let digits = u64_to_padded_decimal(n, 4);
    id.append(digits.as_str());
    id
}

/// The candidates (by index) a review window suggests: those that share time with it.
pub fn window_suggestions(candidates: &[(i64, i64)], window_start: i64, window_end: i64) -> (result: Vec<usize>)
    ensures
        result@ == Seq::new(candidates@.len() as nat, |i: int| i).filter(
            |i: int| candidates@[i].0 < window_end && candidates@[i].1 > window_start,
        ).map_values(|i: int| i as usize),
{
    let ghost all = Seq::new(candidates@.len() as nat, |i: int| i);
    let ghost keep = |i: int| candidates@[i].0 < window_end && candidates@[i].1 > window_start;
    let mut out: Vec<usize> = Vec::new();
    let mut i: usize = 0;
    while i < candidates.len()
        invariant
            i <= candidates@.len(),
            all == Seq::new(candidates@.len() as nat, |i: int| i),
            keep == (|i: int| candidates@[i].0 < window_end && candidates@[i].1 > window_start),
            out@ == all.subrange(0, i as int).filter(keep).map_values(|k: int| k as usize),
        decreases candidates@.len() - i,
    {
        proof {
            assert(all.subrange(0, i + 1) =~= all.subrange(0, i as int).push(i as int));
            all.subrange(0, i as int).lemma_filter_push(i as int, keep);
        }
        let (s, e) = candidates[i];
        if s < window_end && e > window_start {
            out.push(i);
            proof {
                assert(out@ =~= all.subrange(0, i + 1).filter(keep).map_values(|k: int| k as usize));
            }
        } else {
            assert(out@ =~= all.subrange(0, i + 1).filter(keep).map_values(|k: int| k as usize));
        }
        i += 1;
    }
    assert(all.subrange(0, candidates@.len() as int) =~= all);
    out
}

/// The selected artifact must belong to the selected meeting.
pub fn check_artifact_meeting(artifact_meeting: &str, selected_meeting: &str) -> (result: Result<(), String>)
    ensures
        result is Ok <==> artifact_meeting@ == selected_meeting@,
        result matches Err(e) ==> e@ == "Production Artifact meeting id '"@ + artifact_meeting@
            + "' does not match selected meeting '"@ + selected_meeting@ + "'"@,
{
    if str_eq(artifact_meeting, selected_meeting) {
        Ok(())
    } else {
        let mut msg = concat("Production Artifact meeting id '", artifact_meeting);
        msg.append("' does not match selected meeting '");
        msg.append(selected_meeting);
        msg.append("'");
        Err(msg)
    }
}

} // verus!
