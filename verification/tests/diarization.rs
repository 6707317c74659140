use huitrace::diarization::backend::SidecarDiarizationBackend;
use huitrace::diarization::events::{
    match_event_ids, materialization_outcome, reconcile_event_ids, sorted_sources, stable_event_id, transcript_aligned,
    EventIdentity,
};
use huitrace::diarization::offline::{label_number_of, segment_keys, speaker_key_for_label, OfflineDiarizationService};
use huitrace::diarization::service::{
    availability_after_audio, availability_after_models, availability_from_record,
    display_label_for_key, job_start, job_step, AvailabilityStep, DiarizationJobRegistry,
    DiarizationJobState, DiarizationRequestResult, JobAction, JobEvent, JobNotice, JobPhase,
    JobStatus,
};
use huitrace::diarization::short_turn::{
    may_refine, refine_decision, revised_revision, windows_intersect, BackchannelDetector, DurationBucket, LexicalBackchannelDetector,
    MeetingSpeakerPrototypeStore, RefineFacts, RefineReason, ShortTurnCandidateSource, ShortTurnLimits,
};
use huitrace::diarization::types::{AssignmentMethod, SegmentKind};

#[test]
fn generated_keys_are_stable_and_not_device_names() {
    assert_eq!(speaker_key_for_label("Speaker 7", &[]), "speaker_07");
    assert_eq!(
        speaker_key_for_label("cluster-b", &["cluster-b".into(), "cluster-a".into()]),
        "speaker_02"
    );
}

#[test]
fn label_keys_use_the_last_number_or_the_sorted_rank() {
    assert_eq!(speaker_key_for_label("Speaker  12  ", &[]), "speaker_12");
    assert_eq!(speaker_key_for_label("speaker +3", &[]), "speaker_03");
    assert_eq!(speaker_key_for_label("Speaker 123", &[]), "speaker_123");
    assert_eq!(speaker_key_for_label("unlisted", &["a".into()]), "speaker_01");
    let labels: Vec<String> = vec!["c".into(), "a".into(), "b".into(), "a".into()];
    assert_eq!(speaker_key_for_label("c", &labels), "speaker_03");
    assert_eq!(label_number_of("Speaker 7b"), None);
    assert_eq!(label_number_of("   "), None);
}

#[test]
fn lexical_detector_matches_whole_normalized_utterances_only() {
    let detector = LexicalBackchannelDetector;
    for text in ["嗯。", "嗯嗯", "嗯～", "hmm...", "yeah!", "OH"] {
        assert!(detector.is_backchannel(text), "expected {text:?}");
    }
    assert!(!detector.is_backchannel("对这个问题我们下一步……"));
    assert!(!detector.is_backchannel("oh that is interesting"));
}

#[test]
fn normalization_trims_lowercases_drops_punctuation_and_caps_repeats() {
    let detector = LexicalBackchannelDetector;
    assert_eq!(detector.normalize("  Hmmmm, OK!! "), "hmmok");
    assert_eq!(detector.normalize("嗯嗯嗯嗯"), "嗯嗯");
    assert!(detector.is_backchannel("嗯嗯嗯嗯嗯"));
}

#[test]
fn duration_buckets_cover_short_turns_and_the_control_range() {
    assert_eq!(DurationBucket::for_duration(99), None);
    assert_eq!(DurationBucket::for_duration(100), Some(DurationBucket::Ms100To300));
    assert_eq!(DurationBucket::for_duration(1_199), Some(DurationBucket::Ms800To1200));
    assert_eq!(DurationBucket::for_duration(1_200), Some(DurationBucket::Ms1200To1500Control));
    assert_eq!(DurationBucket::for_duration(1_500), Some(DurationBucket::Ms1200To1500Control));
    assert_eq!(DurationBucket::for_duration(1_501), None);
    assert_eq!(DurationBucket::Ms1200To1500Control.label(), "1200-1500ms-control");
}

#[test]
fn windows_intersect_only_when_they_share_time() {
    assert!(windows_intersect(0, 10, 9, 20));
    assert!(!windows_intersect(0, 10, 10, 20));
}

#[test]
fn prototype_store_knows_only_meeting_speakers() {
    let store = MeetingSpeakerPrototypeStore::new(vec!["speaker_01".into()]);
    assert!(store.contains("speaker_01"));
    assert!(!store.contains("speaker_02"));
}

#[test]
fn sources_are_sorted_and_deduplicated() {
    assert_eq!(
        sorted_sources(&[
            ShortTurnCandidateSource::VadEvent,
            ShortTurnCandidateSource::Transcript,
            ShortTurnCandidateSource::VadEvent,
        ]),
        vec![ShortTurnCandidateSource::Transcript, ShortTurnCandidateSource::VadEvent]
    );
}

fn identity(meeting: &str, start: i64, end: i64, kind: SegmentKind) -> EventIdentity {
    EventIdentity {
        id: stable_event_id(meeting, start, end),
        meeting_id: meeting.into(),
        start_ms: start,
        end_ms: end,
        kind,
        transcript_id: None,
    }
}

#[test]
fn identity_ignores_provenance_and_transcript_segmentation() {
    assert_eq!(stable_event_id("m-1", 1_000, 1_300), stable_event_id("m-1", 1_000, 1_300));
    assert_eq!(stable_event_id("m-1", 1_000, 1_300), stable_event_id("m-1", 1_010, 1_290));
    assert_ne!(stable_event_id("m-1", 1_000, 1_300), stable_event_id("m-2", 1_000, 1_300));
    assert!(stable_event_id("m-1", 1_000, 1_300).starts_with("short_turn_"));
    assert_eq!(stable_event_id("m-1", 1_000, 1_300).len(), "short_turn_".len() + 24);
}

#[test]
fn reconciliation_survives_sixty_ms_jitter_without_colliding_adjacent_events() {
    let old_a = identity("m-1", 1_000, 1_300, SegmentKind::Backchannel);
    let old_b = identity("m-1", 1_400, 1_700, SegmentKind::Backchannel);
    let mut next = vec![
        identity("m-1", 1_060, 1_360, SegmentKind::Speech),
        identity("m-1", 1_460, 1_760, SegmentKind::Backchannel),
    ];
    reconcile_event_ids(&mut next, &[old_a.clone(), old_b.clone()]);
    assert_eq!(next[0].id, old_a.id);
    assert_eq!(next[1].id, old_b.id);
    assert_ne!(next[0].id, next[1].id);
    assert_eq!(next[0].start_ms, 1_060);
}

#[test]
fn unrelated_events_keep_their_own_ids() {
    let old = identity("m-1", 1_000, 1_300, SegmentKind::Backchannel);
    let fresh = identity("m-1", 5_000, 5_300, SegmentKind::Backchannel);
    let noise = identity("m-1", 1_000, 1_300, SegmentKind::Noise);
    assert_eq!(match_event_ids(&vec![fresh.clone(), noise.clone()], &[old]), vec![None, None]);
}

#[test]
fn no_folder_means_no_audio() {
    assert!(matches!(availability_after_audio(false), AvailabilityStep::Report(DiarizationJobState::NoAudio)));
    assert!(matches!(availability_after_audio(true), AvailabilityStep::CheckModels));
}

#[test]
fn availability_reports_the_durable_state_first() {
    let running = Some(("running".to_string(), None));
    assert!(matches!(availability_from_record(false, running.clone(), false), AvailabilityStep::ReportInterrupted));
    assert!(matches!(availability_from_record(false, running, true), AvailabilityStep::Report(DiarizationJobState::Running)));
    let failed = Some(("failed".to_string(), Some("boom".to_string())));
    match availability_from_record(true, failed, false) {
        AvailabilityStep::Report(DiarizationJobState::Failed { error }) => assert_eq!(error.as_deref(), Some("boom")),
        other => panic!("unexpected {other:?}"),
    }
    assert!(matches!(availability_from_record(true, None, false), AvailabilityStep::Report(DiarizationJobState::Idle)));
    assert!(matches!(availability_from_record(false, Some(("completed".into(), None)), false), AvailabilityStep::CheckAudio));
    assert!(matches!(availability_after_models(false), DiarizationJobState::ModelsMissing));
    assert!(matches!(availability_after_models(true), DiarizationJobState::Idle));
}

#[test]
fn same_meeting_double_request_is_scheduled_then_already_running() {
    let mut registry = DiarizationJobRegistry::new();
    assert_eq!(registry.request("t:m1".into()), DiarizationRequestResult::Scheduled);
    assert_eq!(registry.request("t:m1".into()), DiarizationRequestResult::AlreadyRunning);
    assert_eq!(registry.request("t:m2".into()), DiarizationRequestResult::Scheduled);
    assert!(registry.contains("t:m1"));
    registry.finish("t:m1");
    assert!(!registry.contains("t:m1"));
    assert!(registry.contains("t:m2"));
    assert_eq!(registry.request("t:m1".into()), DiarizationRequestResult::Scheduled);
}

#[test]
fn generated_keys_display_as_speaker_numbers() {
    assert_eq!(display_label_for_key("speaker_07"), "Speaker 7");
    assert_eq!(display_label_for_key("speaker_x"), "speaker_x");
    assert_eq!(display_label_for_key("custom"), "custom");
}

#[test]
fn a_successful_pass_runs_queued_running_completed() {
    let (phase, actions) = job_start();
    assert_eq!(phase, JobPhase::ReadingFolder);
    assert!(matches!(actions[0], JobAction::Record(JobStatus::Queued, None)));
    let (phase, _) = job_step(phase, JobEvent::FolderRead(Ok(true))).unwrap();
    let (phase, _) = job_step(phase, JobEvent::AudioProbed(true)).unwrap();
    let (phase, _) = job_step(phase, JobEvent::ModelsResolved(Ok(()))).unwrap();
    let (phase, actions) = job_step(phase, JobEvent::ModelsChecked(true)).unwrap();
    assert!(matches!(actions[1], JobAction::Record(JobStatus::Running, None)));
    let (phase, _) = job_step(phase, JobEvent::Analyzed(Ok(4))).unwrap();
    let (phase, actions) = job_step(phase, JobEvent::Persisted(Ok(()))).unwrap();
    assert_eq!(phase, JobPhase::Done);
    assert!(matches!(actions[0], JobAction::SyncTranscripts));
    assert!(matches!(actions[1], JobAction::Announce(JobStatus::Completed, None, Some(4))));
    assert!(job_step(JobPhase::Done, JobEvent::AudioProbed(true)).is_none());
}

#[test]
fn every_stop_is_recorded_with_its_reason() {
    let (_, actions) = job_step(JobPhase::ProbingAudio { has_folder: false }, JobEvent::AudioProbed(false)).unwrap();
    match &actions[0] {
        JobAction::Record(JobStatus::Unavailable, Some(notice)) => assert_eq!(notice.text(), "No saved audio available for speaker analysis"),
        other => panic!("unexpected {other:?}"),
    }
    let (_, actions) = job_step(JobPhase::ResolvingModels { has_folder: true }, JobEvent::ModelsResolved(Err("no dir".into()))).unwrap();
    match (&actions[0], &actions[1]) {
        (JobAction::Record(JobStatus::Failed, Some(recorded)), JobAction::Announce(JobStatus::Failed, Some(told), None)) => {
            assert_eq!(recorded.text(), "Resolve diarization model directory: no dir");
            assert_eq!(told.text(), "no dir");
        }
        other => panic!("unexpected {other:?}"),
    }
    let (_, actions) = job_step(JobPhase::Persisting { has_folder: false, turns: 2 }, JobEvent::Persisted(Ok(()))).unwrap();
    assert_eq!(actions.len(), 1);
    assert!(matches!(JobNotice::ModelsNotInstalled.text().as_str(), "Diarization models are not installed"));
}

#[test]
fn services_hold_their_backend() {
    let service = OfflineDiarizationService::new(SidecarDiarizationBackend);
    assert_eq!(service.backend_ref().name(), "diarize-helper");
}

#[test]
fn every_turn_gets_its_label_key_within_the_pass() {
    let labels: Vec<String> = vec!["Speaker 2".into(), "Alice".into(), "Bob".into(), "Alice".into()];
    assert_eq!(
        segment_keys(&labels),
        vec!["speaker_02".to_string(), "speaker_01".to_string(), "speaker_02".to_string(), "speaker_01".to_string()]
    );
    assert!(segment_keys(&Vec::new()).is_empty());
}

#[test]
fn reconciliation_handles_events_before_the_recording_start() {
    let old = identity("m-1", -120, 180, SegmentKind::Speech);
    let mut next = vec![identity("m-1", -100, 200, SegmentKind::Speech)];
    reconcile_event_ids(&mut next, &[old.clone()]);
    assert_eq!(next[0].id, old.id);
    assert_eq!(next[0].start_ms, -100);
    assert_eq!(stable_event_id("m-1", -30, 270), stable_event_id("m-1", -20, 260));
}

#[test]
fn stable_event_id_is_the_sha256_prefix_of_meeting_and_quantized_bounds() {
    assert_eq!(stable_event_id("m-1", 1_000, 1_300), "short_turn_87da3e5d7876eabf1c4f7ad2");
}

fn default_limits() -> ShortTurnLimits {
    ShortTurnLimits { min_candidate_ms: 100, very_short_ms: 500, nearby_gap_ms: 350, lexical_backchannel_enabled: true }
}

fn weight_for(duration_ms: u64) -> f64 {
    if duration_ms <= 299 {
        0.20
    } else if duration_ms <= 499 {
        0.35
    } else if duration_ms <= 799 {
        0.55
    } else if duration_ms <= 1_200 {
        0.75
    } else {
        1.0
    }
}

fn refine_facts(duration_ms: u64, text: &str, speaker: Option<&str>, confidence: f64) -> RefineFacts {
    let base = confidence.clamp(0.0, 1.0);
    let coverage: f64 = 1.0;
    RefineFacts {
        duration_ms,
        text: text.into(),
        base_at_least_high: base >= 0.75,
        coverage_at_least_three_quarters: coverage >= 0.75,
        base_below_weak: base < 0.40,
        direct_at_least_weak: base * weight_for(duration_ms) * coverage >= 0.40,
        diarization_speaker: speaker.map(str::to_string),
        previous_speaker: None,
        next_speaker: None,
        previous_gap_ms: None,
        next_gap_ms: None,
        true_speaker_overlap: false,
    }
}

#[test]
fn short_turn_never_allows_a_new_speaker() {
    let prototypes = MeetingSpeakerPrototypeStore::new(vec![]);
    let decision = refine_decision(&default_limits(), &refine_facts(200, "嗯", Some("speaker_99"), 0.95), &prototypes);
    assert!(!decision.allow_new_speaker);
    assert_eq!(decision.speaker_key, None);
}

#[test]
fn direct_credible_evidence_beats_neighbour_continuity() {
    let prototypes = MeetingSpeakerPrototypeStore::new(vec!["speaker_01".into(), "speaker_02".into()]);
    let mut value = refine_facts(300, "hmm", Some("speaker_02"), 0.90);
    value.previous_speaker = Some("speaker_01".into());
    value.next_speaker = Some("speaker_01".into());
    value.previous_gap_ms = Some(0);
    value.next_gap_ms = Some(0);
    let decision = refine_decision(&default_limits(), &value, &prototypes);
    assert_eq!(decision.kind, SegmentKind::Backchannel);
    assert_eq!(decision.speaker_key.as_deref(), Some("speaker_02"));
    assert_eq!(decision.reason, RefineReason::CredibleDirectCoverage);
}

#[test]
fn empty_weak_short_event_is_noise_without_a_speaker() {
    let prototypes = MeetingSpeakerPrototypeStore::new(vec!["speaker_01".into()]);
    let decision = refine_decision(&default_limits(), &refine_facts(180, "", None, 0.05), &prototypes);
    assert_eq!(decision.kind, SegmentKind::Noise);
    assert_eq!(decision.speaker_key, None);
}

#[test]
fn refinement_uses_known_close_neighbours_only_without_overlap() {
    let prototypes = MeetingSpeakerPrototypeStore::new(vec!["speaker_01".into()]);
    let mut value = refine_facts(600, "maybe so", None, 0.10);
    value.previous_speaker = Some("speaker_01".into());
    value.next_speaker = Some("speaker_01".into());
    value.previous_gap_ms = Some(100);
    value.next_gap_ms = Some(350);
    let decision = refine_decision(&default_limits(), &value, &prototypes);
    assert_eq!(decision.kind, SegmentKind::Speech);
    assert_eq!(decision.speaker_key.as_deref(), Some("speaker_01"));
    assert_eq!(decision.reason, RefineReason::NearbyContinuity);
    assert_eq!(RefineReason::NearbyContinuity.as_str(), "matching nearby speakers supplied soft continuity evidence");

    let mut far = value.clone();
    far.next_gap_ms = Some(351);
    assert_eq!(refine_decision(&default_limits(), &far, &prototypes).speaker_key, None);
    let mut missing_gap = value.clone();
    missing_gap.next_gap_ms = None;
    assert_eq!(refine_decision(&default_limits(), &missing_gap, &prototypes).speaker_key, None);
    let mut overlapping = value.clone();
    overlapping.true_speaker_overlap = true;
    assert_eq!(refine_decision(&default_limits(), &overlapping, &prototypes).speaker_key, None);
    let mut unknown = value.clone();
    unknown.previous_speaker = Some("speaker_09".into());
    unknown.next_speaker = Some("speaker_09".into());
    assert_eq!(refine_decision(&default_limits(), &unknown, &prototypes).speaker_key, None);
}

#[test]
fn refinement_kinds_follow_text_duration_and_confidence() {
    let prototypes = MeetingSpeakerPrototypeStore::new(vec!["speaker_01".into()]);
    let limits = default_limits();
    assert_eq!(refine_decision(&limits, &refine_facts(50, "", Some("speaker_01"), 0.99), &prototypes).kind, SegmentKind::Noise);
    let strong = refine_decision(&limits, &refine_facts(400, "", Some("speaker_01"), 0.80), &prototypes);
    assert_eq!(strong.kind, SegmentKind::Speech);
    assert_eq!(strong.speaker_key.as_deref(), Some("speaker_01"));
    let unknown = refine_decision(&limits, &refine_facts(700, "", Some("speaker_01"), 0.50), &prototypes);
    assert_eq!(unknown.kind, SegmentKind::Unknown);
    assert_eq!(unknown.speaker_key, None);
    assert_eq!(unknown.reason, RefineReason::EmptyOrWeakNonLexical);
    let off = ShortTurnLimits { lexical_backchannel_enabled: false, ..limits };
    let word = refine_decision(&off, &refine_facts(300, "Yeah!", None, 0.10), &prototypes);
    assert_eq!(word.kind, SegmentKind::Speech);
    assert!(!word.lexical_backchannel);
    assert_eq!(word.normalized_text, "yeah");
}

#[test]
fn stable_event_ids_are_short_turn_and_24_lowercase_hex_digits() {
    let id = stable_event_id("m-1", 1_000, 1_300);
    assert_eq!(id.len(), 35);
    assert!(id.starts_with("short_turn_"));
    assert!(id[11..].chars().all(|c| c.is_ascii_digit() || ('a'..='f').contains(&c)));
}

fn timeline_segment(start_ms: i64, end_ms: i64, key: &str, confidence_rank: u64) -> huitrace::diarization::timeline::TimelineSegment {
    huitrace::diarization::timeline::TimelineSegment { start_ms, end_ms, speaker_key: key.into(), confidence_rank }
}

#[test]
fn chooses_dominant_overlap_not_the_speaker_at_segment_start() {
    let segments = [timeline_segment(10_000, 11_400, "speaker_01", 1), timeline_segment(11_400, 13_000, "speaker_02", 1)];
    let (dominant, overlap) = huitrace::diarization::timeline::dominant_segment(10_200, 12_800, &segments);
    assert_eq!(dominant.map(|i| segments[i].speaker_key.as_str()), Some("speaker_02"));
    assert!(overlap);
}

#[test]
fn leaves_uncovered_transcript_unassigned() {
    assert_eq!(huitrace::diarization::timeline::dominant_segment(0, 10, &[]), (None, false));
    let apart = [timeline_segment(10, 20, "speaker_01", 0)];
    assert_eq!(huitrace::diarization::timeline::dominant_segment(0, 10, &apart), (None, false));
}

#[test]
fn equal_coverage_is_decided_by_confidence_then_key() {
    let by_rank = [timeline_segment(0, 50, "speaker_01", 1), timeline_segment(50, 100, "speaker_02", 2)];
    assert_eq!(huitrace::diarization::timeline::dominant_segment(0, 100, &by_rank), (Some(1), true));
    let by_key = [timeline_segment(0, 50, "speaker_02", 1), timeline_segment(50, 100, "speaker_01", 1)];
    assert_eq!(huitrace::diarization::timeline::dominant_segment(0, 100, &by_key), (Some(1), true));
    let single = [timeline_segment(0, 100, "speaker_03", 0)];
    assert_eq!(huitrace::diarization::timeline::dominant_segment(20, 40, &single), (Some(0), false));
}

#[test]
fn identical_revision_result_does_not_increment() {
    let key = Some("speaker_01".to_string());
    assert_eq!(revised_revision(4, &key, &key, true, SegmentKind::Speech, SegmentKind::Speech), 4);
    assert_eq!(revised_revision(4, &key, &key, true, SegmentKind::Speech, SegmentKind::Backchannel), 5);
    assert_eq!(revised_revision(4, &key, &None, true, SegmentKind::Speech, SegmentKind::Speech), 5);
    assert_eq!(revised_revision(4, &key, &key, false, SegmentKind::Speech, SegmentKind::Speech), 5);
    assert_eq!(revised_revision(i64::MAX, &key, &None, true, SegmentKind::Speech, SegmentKind::Speech), i64::MAX);
}

#[test]
fn manual_assignment_is_never_refined() {
    assert!(!may_refine(AssignmentMethod::Manual, 200, 1_200));
    assert!(may_refine(AssignmentMethod::Diarization, 200, 1_200));
    assert!(may_refine(AssignmentMethod::ShortTurnRefinement, 1_200, 1_200));
    assert!(!may_refine(AssignmentMethod::Diarization, 1_201, 1_200));
}

#[test]
fn short_transcript_is_stored_but_owned_by_primary_rendering() {
    assert_eq!(materialization_outcome(SegmentKind::Backchannel, false), (true, true));
    assert!(transcript_aligned(true, 100, 400, true));
}

#[test]
fn embedded_event_does_not_claim_transcript_rendering() {
    assert_eq!(materialization_outcome(SegmentKind::Speech, false), (true, true));
    assert!(!transcript_aligned(false, 0, 5_000, false));
    assert!(!transcript_aligned(true, 0, 5_000, true));
}

#[test]
fn unknown_events_stay_hidden_and_noise_is_dropped() {
    assert_eq!(materialization_outcome(SegmentKind::Unknown, true), (true, false));
    assert_eq!(materialization_outcome(SegmentKind::Unknown, false), (false, false));
    assert_eq!(materialization_outcome(SegmentKind::Noise, true), (false, false));
    assert_eq!(materialization_outcome(SegmentKind::NonSpeechVocalization, true), (false, false));
}
