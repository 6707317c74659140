use huitrace::evaluation::alignment::{evaluate_speaker_acceptance, map_expected_speakers, maximum_weight_assignment};
use huitrace::evaluation::production_artifact::{
    inspection_of, valid_commit_sha, valid_version_or_hash, validate_artifact, validate_production_config, ArtifactBackend,
    ProductionConfigFacts,
    ArtifactFacts, ArtifactTranscriptSpan, ArtifactTurnSpan, ArtifactVadSpan,
    SourceAudioMetadata,
};
use huitrace::database::speaker_turn::StoredTurn;
use huitrace::evaluation::temporal_matching::greedy_temporal_match;
use huitrace::evaluation::boundary_matching::{boundary_in_selected, match_boundary_errors};
use huitrace::evaluation::utterance_alignment::{align_speakers, exact_assignment};
use huitrace::evaluation::speaker_alignment::{align_meeting_speakers, mapped_speaker, rename_mapped, AlignmentRow};
use huitrace::evaluation::short_turn_export::{
    check_artifact_meeting, check_export_request, window_file_name, window_id, window_layout,
    window_suggestions,
};
use huitrace::evaluation::utterance_ground_truth::{
    manifest_row, validate_meeting_level_split, DatasetSplit, FrozenArtifactBinding,
    FrozenFileIdentity, GtAnnotationStatus, GtSpeaker, GtSpeakerInterval, GtUtterance,
    GtUtteranceBoundary, GtBoundaryKind, ScenarioBucket, UtteranceGroundTruth,
};

#[test]
fn no_expected_speakers_are_reported_unscorable() {
    let evaluation = evaluate_speaker_acceptance(&Vec::new(), &Vec::new(), &Vec::new());
    assert!(!evaluation.status.scorable);
    assert_eq!(evaluation.status.reason, Some("no_expected_speakers"));
    assert_eq!(evaluation.failed, None);
}

#[test]
fn maximum_weight_alignment_recovers_swapped_speaker_clusters() {
    assert_eq!(
        maximum_weight_assignment(&[vec![0, 2_000], vec![1_500, 0]]),
        vec![Some(1), Some(0)]
    );
}

#[test]
fn maximum_weight_assignment_is_global_not_greedy() {
    assert_eq!(
        maximum_weight_assignment(&[vec![10, 9], vec![9, 0]]),
        vec![Some(1), Some(0)]
    );
}

const SHA: &str = "7b34d7b7d422deeafeb21f07449f8a3ca8c5f60a";

fn artifact() -> ArtifactFacts {
    ArtifactFacts {
        schema_version: 2,
        artifact_id: "artifact-1".into(),
        transcription_run_id: "transcription-run-1".into(),
        meeting_id: "meeting-1".into(),
        source_audio: SourceAudioMetadata { path_hint: None, duration_ms: 2_000, sha256: None },
        created_at: "2026-09-14T00:00:00Z".into(),
        app_commit_sha: SHA.into(),
        asr: ArtifactBackend { backend: "whisper.cpp".into(), model: "large-v3".into(), version_or_hash: None },
        diarization: ArtifactBackend { backend: "sherpa-onnx".into(), model: "pyannote+campplus".into(), version_or_hash: None },
        production_config: default_config(),
        transcripts: vec![ArtifactTranscriptSpan { id: "transcript-1".into(), start_ms: 100, end_ms: 800, confidence_valid: confidence_ok(Some(0.8)) }],
        raw_diarizer_turns: vec![ArtifactTurnSpan { speaker_key: "speaker_01".into(), start_ms: 0, end_ms: 1_000, confidence_valid: confidence_ok(None) }],
        vad_events: vec![ArtifactVadSpan { start_ms: 100, end_ms: 400, confidence_valid: confidence_ok(None) }],
        accepted_speakers: vec!["speaker_01".into()],
        visible_speakers: vec!["speaker_01".into()],
    }
}

fn default_config() -> ProductionConfigFacts {
    ProductionConfigFacts {
        min_candidate_ms: 100,
        very_short_ms: 500,
        max_short_turn_ms: 1_200,
        prototype_min_duration_ms: 1_500,
        duration_weight_20_until_ms: 299,
        duration_weight_35_until_ms: 499,
        duration_weight_55_until_ms: 799,
        nearby_gap_ms: 350,
        thresholds_valid: confidence_ok(Some(0.75)) && confidence_ok(Some(0.40)) && 0.40 <= 0.75,
        vad_min_speech_ms: 100,
        vad_redemption_ms: 250,
        vad_max_candidate_ms: 1_200,
        acceptance_consistent: confidence_ok(Some(0.50)),
        confident_min_longest_turn_ms: 1_200,
        missing_confidence_min_total_ms: 4_000,
        missing_confidence_min_turns: 2,
        matching_ratios_valid: confidence_ok(Some(0.30)) && confidence_ok(Some(0.75)),
        center_tolerance_ms: 200,
        materialization_ratios_valid: true,
        vad_implementation: "silero_rs::ContinuousVadProcessor".into(),
        vad_runtime_is_object: true,
    }
}

fn confidence_ok(value: Option<f64>) -> bool {
    value.map_or(true, |v| v.is_finite() && (0.0..=1.0).contains(&v))
}

#[test]
fn future_schema_is_not_silently_reinterpreted() {
    let mut value = artifact();
    value.schema_version = 3;
    assert!(validate_artifact(&value, Some("meeting-1")).is_err());
    assert_eq!(
        validate_artifact(&value, None).unwrap_err(),
        "artifact schema 3 is unsupported; expected 2"
    );
    assert!(validate_artifact(&artifact(), Some("meeting-1")).is_ok());
}

#[test]
fn invalid_timing_and_confidence_are_rejected() {
    let mut timing = artifact();
    timing.transcripts[0].end_ms = 3_000;
    assert!(validate_artifact(&timing, Some("meeting-1")).is_err());

    let mut confidence = artifact();
    confidence.raw_diarizer_turns[0].confidence_valid = confidence_ok(Some(1.1));
    assert!(validate_artifact(&confidence, Some("meeting-1")).is_err());
}

#[test]
fn meeting_mismatch_reports_both_ids() {
    let error = validate_artifact(&artifact(), Some("meeting-2")).unwrap_err();
    assert_eq!(
        error,
        "production artifact belongs to meeting 'meeting-1', but the requested Meeting ID is 'meeting-2'"
    );
}

#[test]
fn duplicate_or_unknown_speaker_keys_are_rejected() {
    let mut duplicate = artifact();
    duplicate.accepted_speakers.push("speaker_01".into());
    assert!(validate_artifact(&duplicate, None).is_err());

    let mut unknown = artifact();
    unknown.visible_speakers = vec!["speaker_02".into()];
    assert!(validate_artifact(&unknown, None).is_err());
}

#[test]
fn inspection_rejects_incomplete_identity_backend_duration_and_config() {
    let mut a = artifact();
    a.artifact_id.clear();
    assert_eq!(validate_artifact(&a, None).unwrap_err(), "artifact id is missing");
    let mut b = artifact();
    b.source_audio.duration_ms = 0;
    assert_eq!(validate_artifact(&b, None).unwrap_err(), "artifact source audio duration must be greater than zero");
    let mut c = artifact();
    c.asr.backend.clear();
    assert_eq!(validate_artifact(&c, None).unwrap_err(), "artifact ASR backend or model is missing");
    let mut d = artifact();
    d.production_config.vad_implementation.clear();
    assert_eq!(validate_artifact(&d, None).unwrap_err(), "artifact VAD implementation or runtime config snapshot is missing");
    let mut e = artifact();
    e.production_config.min_candidate_ms = 0;
    assert_eq!(validate_artifact(&e, None).unwrap_err(), "invalid short-turn config ranges or thresholds");
}

#[test]
fn inspection_returns_only_validated_summary_fields() {
    let summary = inspection_of(&artifact());
    assert_eq!(summary.meeting_id, "meeting-1");
    assert_eq!(summary.artifact_id, "artifact-1");
    assert_eq!(summary.duration_ms, 2_000);
    assert_eq!(summary.transcript_count, 1);
    assert_eq!(summary.diarizer_turn_count, 1);
    assert_eq!(summary.vad_event_count, 1);
}

#[test]
fn commit_and_hash_formats_are_exact() {
    assert!(valid_commit_sha(SHA));
    assert!(!valid_commit_sha(&SHA[1..]));
    assert!(!valid_commit_sha(&SHA.replace('7', "g")));
    assert!(valid_version_or_hash(None));
    assert!(!valid_version_or_hash(Some("  ")));
    assert!(valid_version_or_hash(Some("v1.2")));
    assert!(valid_version_or_hash(Some(&format!("sha256:{}", "a".repeat(64)))));
    assert!(!valid_version_or_hash(Some(&format!("sha256:{}", "z".repeat(64)))));
}

fn binding() -> FrozenArtifactBinding {
    FrozenArtifactBinding {
        artifact_problem: None,
        artifact_id: "recon-1".into(),
        integrity_sha256: "abc".into(),
        source_media: FrozenFileIdentity { sha256: "media".into(), duration_ms: Some(2_000) },
    }
}

fn ground_truth() -> UtteranceGroundTruth {
    UtteranceGroundTruth {
        schema_version: 1,
        annotation_version: "utterance-ground-truth-v1".into(),
        meeting_id: "m1".into(),
        reconstruction_artifact_id: "recon-1".into(),
        reconstruction_artifact_sha256: "abc".into(),
        source_audio_sha256: "media".into(),
        dataset_split: DatasetSplit::Evaluation,
        blind_complete: true,
        review_complete: true,
        qa_passed: true,
        speakers: vec![GtSpeaker { key: "gt_speaker_1".into(), description: String::new() }],
        speaker_intervals: vec![GtSpeakerInterval {
            id: "i1".into(), start_ms: 0, end_ms: 1_000, gt_speaker_key: "gt_speaker_1".into(),
            overlap: false, uncertain: false, status: GtAnnotationStatus::Reviewed,
        }],
        utterances: vec![GtUtterance {
            id: "u1".into(), start_ms: 0, end_ms: 1_000, gt_speaker_key: "gt_speaker_1".into(),
            boundary_start_uncertain: false, boundary_end_uncertain: false, contains_backchannel: false,
            overlap: false, buckets: Vec::new(), status: GtAnnotationStatus::Reviewed,
        }],
        boundaries: vec![GtUtteranceBoundary {
            id: "b1".into(), timestamp_ms: 1_000, boundary_kind: GtBoundaryKind::Utterance,
            uncertain: false, status: GtAnnotationStatus::Reviewed,
        }],
    }
}

#[test]
fn manifest_binds_exact_artifact_audio_and_split() {
    let row = manifest_row(&binding(), &ground_truth()).unwrap();
    assert_eq!(row.reconstruction_artifact_id, "recon-1");
    assert_eq!(row.artifact_sha256, "abc");
    assert_eq!(row.source_audio_sha256, "media");
    assert_eq!(row.dataset_split, DatasetSplit::Evaluation);
}

#[test]
fn calibration_and_evaluation_meetings_cannot_overlap() {
    let mut calibration_gt = ground_truth();
    calibration_gt.dataset_split = DatasetSplit::Calibration;
    let calibration = manifest_row(&binding(), &calibration_gt).unwrap();
    let evaluation = manifest_row(&binding(), &ground_truth()).unwrap();
    assert!(validate_meeting_level_split(&[calibration.clone()], &[evaluation.clone()]).is_err());
    assert_eq!(
        validate_meeting_level_split(&[evaluation.clone()], &[]),
        Err("dataset split manifest contains a row in the wrong partition".to_string())
    );
    let mut other = evaluation;
    other.meeting_id = "m2".into();
    assert!(validate_meeting_level_split(&[calibration], &[other]).is_ok());
}

#[test]
fn pending_items_and_empty_completed_ground_truth_fail_closed() {
    let mut pending = ground_truth();
    pending.utterances[0].status = GtAnnotationStatus::Pending;
    assert!(pending.validate(&binding()).is_err());

    let mut empty = ground_truth();
    empty.speakers.clear();
    empty.speaker_intervals.clear();
    empty.utterances.clear();
    assert!(empty.validate(&binding()).is_err());
}

#[test]
fn wrong_meeting_and_wrong_artifact_are_rejected() {
    let mut other = binding();
    other.integrity_sha256 = "changed".into();
    assert_eq!(
        ground_truth().validate(&other).unwrap_err(),
        "ground truth is bound to a different frozen artifact or source media"
    );
    let mut broken = binding();
    broken.artifact_problem = Some("artifact belongs to another meeting".into());
    assert_eq!(ground_truth().validate(&broken).unwrap_err(), "artifact belongs to another meeting");
}

#[test]
fn ground_truth_ids_are_unique_across_all_items() {
    let mut gt = ground_truth();
    gt.boundaries[0].id = "i1".into();
    assert_eq!(gt.validate_structure(&binding()).unwrap_err(), "invalid ground-truth boundary");
    let mut late = ground_truth();
    late.utterances[0].end_ms = 2_001;
    assert_eq!(late.validate_structure(&binding()).unwrap_err(), "invalid ground-truth utterance");
}

#[test]
fn drafts_may_not_claim_more_than_their_items() {
    let mut draft = ground_truth();
    draft.qa_passed = false;
    draft.review_complete = false;
    draft.utterances[0].status = GtAnnotationStatus::Pending;
    assert_eq!(draft.validate_draft(&binding()).unwrap_err(), "pending annotation blocks Blind completion");
    draft.blind_complete = false;
    assert!(draft.validate_draft(&binding()).is_ok());
}

#[test]
fn windows_tile_the_recording_with_the_default_stride() {
    assert_eq!(window_layout(12_000, 5_000, 4_000), vec![(0, 5_000), (4_000, 9_000), (8_000, 12_000)]);
    assert_eq!(window_layout(3_000, 5_000, 4_000), vec![(0, 3_000)]);
    assert_eq!(window_layout(0, 5_000, 4_000), Vec::<(i64, i64)>::new());
    assert_eq!(window_file_name(7), "window_0007.wav");
    assert_eq!(window_id("m", 12), "m-window-0012");
    assert_eq!(window_suggestions(&[(0, 10), (4_999, 6_000), (5_000, 5_100)], 0, 5_000), vec![0, 1]);
    assert!(check_export_request("m", 5_000, 6_000).is_err());
    assert!(check_export_request(" ", 5_000, 4_000).is_err());
    assert!(check_export_request("m", 5_000, 4_000).is_ok());
    assert_eq!(
        check_artifact_meeting("a", "b").unwrap_err(),
        "Production Artifact meeting id 'a' does not match selected meeting 'b'"
    );
}

fn alignment_row(speaker: Option<&str>, start_ms: i64, end_ms: i64, is_reference: bool) -> AlignmentRow {
    AlignmentRow { speaker: speaker.map(|s| s.to_string()), start_ms, end_ms, is_reference }
}

fn cluster_turn(key: &str, start_ms: i64, end_ms: i64) -> ArtifactTurnSpan {
    ArtifactTurnSpan { speaker_key: key.to_string(), start_ms, end_ms, confidence_valid: true }
}

#[test]
fn alignment_maps_reference_speakers_to_overlapping_clusters() {
    let manifest = vec![
        alignment_row(Some("alice"), 0, 1_000, true),
        alignment_row(Some("bob"), 1_000, 2_000, true),
        alignment_row(Some("carol"), 3_000, 3_100, false),
        alignment_row(None, 4_000, 4_500, true),
    ];
    let turns = vec![cluster_turn("speaker_02", 0, 900), cluster_turn("speaker_01", 1_000, 2_000), cluster_turn("speaker_03", 3_000, 3_100)];
    let coverage = align_meeting_speakers(&manifest, &turns);
    assert_eq!(
        coverage.mapping,
        vec![("alice".to_string(), "speaker_02".to_string()), ("bob".to_string(), "speaker_01".to_string())]
    );
    assert_eq!(coverage.mapped_speakers, 2);
    assert_eq!(coverage.total_gt_speakers, 3);
    assert_eq!(coverage.unmapped_gt_speakers, vec!["carol".to_string()]);
    assert_eq!(coverage.reference_intervals, 3);
    assert_eq!(coverage.reference_duration_ms, 2_500);
    assert_eq!(mapped_speaker(&coverage.mapping, &Some("bob".to_string())), Some("speaker_01".to_string()));
    assert_eq!(mapped_speaker(&coverage.mapping, &Some("carol".to_string())), None);
    assert_eq!(
        rename_mapped(&coverage.mapping, &vec!["alice".to_string(), "carol".to_string()]),
        vec!["speaker_02".to_string(), "carol".to_string()]
    );
}

#[test]
fn alignment_leaves_a_speaker_without_overlap_unmapped() {
    let manifest = vec![alignment_row(Some("alice"), 0, 1_000, true), alignment_row(Some("bob"), 5_000, 6_000, true)];
    let turns = vec![cluster_turn("speaker_01", 0, 1_000), cluster_turn("speaker_02", 8_000, 9_000)];
    let coverage = align_meeting_speakers(&manifest, &turns);
    assert_eq!(coverage.mapping, vec![("alice".to_string(), "speaker_01".to_string())]);
    assert_eq!(coverage.unmapped_gt_speakers, vec!["bob".to_string()]);
}

#[test]
fn alignment_prefers_the_assignment_with_most_shared_time() {
    let manifest = vec![alignment_row(Some("a"), 0, 1_000, true), alignment_row(Some("b"), 1_000, 1_600, true)];
    let turns = vec![cluster_turn("x", 0, 1_600), cluster_turn("y", 0, 500)];
    let coverage = align_meeting_speakers(&manifest, &turns);
    assert_eq!(coverage.mapping, vec![("a".to_string(), "y".to_string()), ("b".to_string(), "x".to_string())]);
}

#[test]
fn alignment_skips_the_search_beyond_twenty_clusters() {
    let manifest = vec![alignment_row(Some("alice"), 0, 1_000, true)];
    let turns: Vec<ArtifactTurnSpan> = (0..21).map(|n| cluster_turn(&format!("c{n:02}"), 0, 1_000)).collect();
    let coverage = align_meeting_speakers(&manifest, &turns);
    assert!(coverage.mapping.is_empty());
    assert_eq!(coverage.unmapped_gt_speakers, vec!["alice".to_string()]);
}

#[test]
fn reference_alignment_recovers_swapped_clusters_and_scores_short_turns() {
    let manifest = vec![
        alignment_row(Some("gt_A"), 0, 2_000, true),
        alignment_row(Some("gt_B"), 2_000, 4_000, true),
        alignment_row(Some("gt_A"), 4_000, 4_300, false),
        alignment_row(Some("gt_B"), 4_500, 4_800, false),
    ];
    let turns = vec![cluster_turn("speaker_02", 0, 2_000), cluster_turn("speaker_01", 2_000, 4_000)];
    let coverage = align_meeting_speakers(&manifest, &turns);
    assert_eq!(mapped_speaker(&coverage.mapping, &Some("gt_A".to_string())), Some("speaker_02".to_string()));
    assert_eq!(mapped_speaker(&coverage.mapping, &Some("gt_B".to_string())), Some("speaker_01".to_string()));
}

#[test]
fn synthetic_workflow_e_wrong_short_turn_cannot_change_mapping() {
    let mut manifest = vec![
        alignment_row(Some("gt_A"), 0, 2_000, true),
        alignment_row(Some("gt_B"), 2_000, 4_000, true),
        alignment_row(Some("gt_A"), 4_000, 4_300, false),
    ];
    for i in 1..20 {
        manifest.push(alignment_row(Some("gt_A"), 4_000 + i * 300, 4_300 + i * 300, false));
    }
    let turns = vec![
        cluster_turn("speaker_01", 0, 2_000),
        cluster_turn("speaker_02", 2_000, 4_000),
        cluster_turn("speaker_02", 4_000, 10_000),
    ];
    let coverage = align_meeting_speakers(&manifest, &turns);
    assert_eq!(mapped_speaker(&coverage.mapping, &Some("gt_A".to_string())), Some("speaker_01".to_string()));
    assert_eq!(coverage.reference_intervals, 2);
}

#[test]
fn multiple_references_accumulate_and_unmapped_speaker_is_excluded() {
    let manifest = vec![
        alignment_row(Some("gt_A"), 0, 2_000, true),
        alignment_row(Some("gt_A"), 2_000, 4_000, true),
        alignment_row(Some("gt_A"), 4_000, 6_000, true),
        alignment_row(Some("gt_B"), 6_000, 8_000, true),
        alignment_row(Some("gt_A"), 8_000, 8_300, false),
        alignment_row(Some("gt_B"), 8_300, 8_600, false),
        alignment_row(Some("gt_C"), 8_600, 8_900, false),
    ];
    let turns = vec![
        cluster_turn("speaker_02", 0, 2_000),
        cluster_turn("speaker_01", 2_000, 6_000),
        cluster_turn("speaker_02", 6_000, 8_000),
        cluster_turn("speaker_03", 8_600, 8_900),
    ];
    let coverage = align_meeting_speakers(&manifest, &turns);
    assert_eq!(mapped_speaker(&coverage.mapping, &Some("gt_A".to_string())), Some("speaker_01".to_string()));
    assert_eq!(coverage.mapped_speakers, 2);
    assert_eq!(coverage.total_gt_speakers, 3);
    assert_eq!(coverage.unmapped_gt_speakers, vec!["gt_C".to_string()]);
    assert_eq!(coverage.reference_duration_ms, 8_000);
    assert_eq!(coverage.reference_intervals, 4);
}

#[test]
fn production_config_ranges_and_consistency_are_validated() {
    assert_eq!(validate_production_config(&default_config()), Ok(()));
    let mut overlap = default_config();
    overlap.acceptance_consistent = confidence_ok(Some(1.1));
    assert_eq!(
        validate_production_config(&overlap),
        Err("invalid or inconsistent speaker-acceptance config".to_string())
    );
    let mut order = default_config();
    order.very_short_ms = 1_300;
    assert_eq!(
        validate_production_config(&order),
        Err("invalid short-turn config ranges or thresholds".to_string())
    );
    let mut vad = default_config();
    vad.vad_min_speech_ms = 2_000;
    assert_eq!(validate_production_config(&vad), Err("invalid short-candidate VAD config".to_string()));
    let mut matching = default_config();
    matching.center_tolerance_ms = -1;
    assert_eq!(validate_production_config(&matching), Err("invalid candidate-matching config".to_string()));
    let mut runtime = default_config();
    runtime.vad_runtime_is_object = false;
    assert_eq!(
        validate_production_config(&runtime),
        Err("invalid materialization or VAD runtime config".to_string())
    );
}

fn utterance_reference(id: &str, start_ms: i64, end_ms: i64, speaker: &str) -> GtSpeakerInterval {
    GtSpeakerInterval {
        id: id.into(),
        start_ms,
        end_ms,
        gt_speaker_key: speaker.into(),
        overlap: false,
        uncertain: false,
        status: GtAnnotationStatus::Reviewed,
    }
}

fn utterance_turn(start_ms: i64, end_ms: i64, speaker: &str) -> StoredTurn {
    StoredTurn { start_ms, end_ms, speaker_label: speaker.into(), speaker_key: speaker.into() }
}

fn mapped<'a>(mapping: &'a [(String, String)], key: &str) -> Option<&'a str> {
    mapping.iter().find(|(gt, _)| gt == key).map(|(_, system)| system.as_str())
}

#[test]
fn speaker_mapping_is_global_maximum_weight_not_greedy() {
    let mapping = align_speakers(
        &[
            utterance_reference("g1a", 0, 9, "gt_speaker_01"),
            utterance_reference("g1b", 20, 28, "gt_speaker_01"),
            utterance_reference("g2", 2, 9, "gt_speaker_02"),
        ],
        &[utterance_turn(0, 9, "A"), utterance_turn(20, 28, "B")],
    );
    assert_eq!(mapped(&mapping, "gt_speaker_01"), Some("B"));
    assert_eq!(mapped(&mapping, "gt_speaker_02"), Some("A"));
}

#[test]
fn utterance_alignment_ignores_overlapping_and_uncertain_references() {
    let mut overlapping = utterance_reference("o", 0, 10, "gt_speaker_02");
    overlapping.overlap = true;
    let mut uncertain = utterance_reference("u", 0, 10, "gt_speaker_03");
    uncertain.uncertain = true;
    let mapping = align_speakers(
        &[utterance_reference("a", 0, 10, "gt_speaker_01"), overlapping, uncertain],
        &[utterance_turn(0, 10, "A")],
    );
    assert_eq!(mapping, vec![("gt_speaker_01".to_string(), "A".to_string())]);
}

#[test]
fn utterance_alignment_without_shared_time_maps_nothing() {
    let mapping = align_speakers(
        &[utterance_reference("a", 0, 10, "gt_speaker_01")],
        &[utterance_turn(10, 20, "A")],
    );
    assert!(mapping.is_empty());
    assert!(align_speakers(&[], &[]).is_empty());
}

#[test]
fn utterance_alignment_leaves_extra_reference_speakers_unmapped() {
    let mapping = align_speakers(
        &[
            utterance_reference("a", 0, 10, "gt_speaker_01"),
            utterance_reference("b", 0, 4, "gt_speaker_02"),
        ],
        &[utterance_turn(0, 10, "A")],
    );
    assert_eq!(mapping, vec![("gt_speaker_01".to_string(), "A".to_string())]);
}

#[test]
fn exact_assignment_breaks_score_ties_by_flag_order() {
    assert_eq!(exact_assignment(&vec![vec![5, 5]], 2), vec![Some(1)]);
    assert_eq!(exact_assignment(&vec![vec![0, 2_000], vec![1_500, 0]], 2), vec![Some(1), Some(0)]);
    assert_eq!(exact_assignment(&vec![vec![9, 8], vec![7, 0]], 2), vec![Some(1), Some(0)]);
    assert_eq!(exact_assignment(&vec![vec![0, 0]], 2), vec![None]);
    assert_eq!(exact_assignment(&vec![], 3), Vec::<Option<usize>>::new());
}

#[test]
fn duplicate_boundary_predictions_are_not_deduplicated() {
    let predicted = [1_000, 1_000];
    let errors = match_boundary_errors(&[1_000, 1_000], &predicted, Some(0));
    assert_eq!(predicted.len(), 2);
    assert_eq!(errors.len(), 2);
    assert_eq!(errors, vec![0, 0]);
}

#[test]
fn boundary_matching_respects_the_collar_and_takes_each_prediction_once() {
    assert_eq!(match_boundary_errors(&[1_000, 2_000], &[1_100, 2_600], Some(250)), vec![100]);
    assert_eq!(match_boundary_errors(&[1_000, 2_000], &[1_100, 2_600], None), vec![100, 600]);
    assert_eq!(match_boundary_errors(&[1_000, 1_050], &[1_040], None), vec![40]);
    assert!(match_boundary_errors(&[], &[1_000], None).is_empty());
    assert!(match_boundary_errors(&[1_000], &[], Some(10)).is_empty());
}

#[test]
fn boundary_matching_prefers_the_earlier_of_equally_close_predictions() {
    assert_eq!(match_boundary_errors(&[1_000, 1_000], &[1_100, 900], None), vec![100, 100]);
    assert_eq!(match_boundary_errors(&[1_000, 1_190], &[1_100, 900], None), vec![100, 90]);
    let errors = match_boundary_errors(&[1_000, 1_150], &[1_100, 900], Some(60));
    assert_eq!(errors, vec![50]);
}

fn selected_utterance(start_ms: i64, end_ms: i64) -> GtUtterance {
    GtUtterance {
        id: "u".into(),
        start_ms,
        end_ms,
        gt_speaker_key: "gt_speaker_01".into(),
        boundary_start_uncertain: false,
        boundary_end_uncertain: false,
        contains_backchannel: false,
        overlap: false,
        buckets: vec![ScenarioBucket::SpeakerHandoff],
        status: GtAnnotationStatus::Reviewed,
    }
}

#[test]
fn boundaries_count_for_a_bucket_only_inside_selected_utterances() {
    let first = selected_utterance(1_000, 2_000);
    let second = selected_utterance(5_000, 6_000);
    let selected = [&first, &second];
    assert!(boundary_in_selected(9_999, &selected, None));
    assert!(boundary_in_selected(2_000, &selected, Some(ScenarioBucket::SpeakerHandoff)));
    assert!(boundary_in_selected(5_000, &selected, Some(ScenarioBucket::SpeakerHandoff)));
    assert!(!boundary_in_selected(3_000, &selected, Some(ScenarioBucket::SpeakerHandoff)));
    assert!(!boundary_in_selected(3_000, &[], Some(ScenarioBucket::ShortSpeech)));
}

#[test]
fn complete_config_is_required_and_ranges_are_validated() {
    let max_overlap_ratio: f64 = 1.1;
    let mut invalid = default_config();
    invalid.acceptance_consistent = confidence_ok(Some(max_overlap_ratio));
    assert!(validate_production_config(&invalid).is_err());

    let main_max_short_turn_ms: u64 = 1_200;
    let acceptance_max_short_turn_ms = main_max_short_turn_ms + 1;
    let mut inconsistent = default_config();
    inconsistent.acceptance_consistent = acceptance_max_short_turn_ms == main_max_short_turn_ms;
    assert!(validate_production_config(&inconsistent).is_err());
}

fn names(items: &[&str]) -> Vec<String> {
    items.iter().map(|s| s.to_string()).collect()
}

fn pairs(items: &[(&str, &str)]) -> Vec<(String, String)> {
    items.iter().map(|(a, b)| (a.to_string(), b.to_string())).collect()
}

#[test]
fn speaker_acceptance_full_alignment_preserves_existing_scoring() {
    let expected = names(&["gt_A", "gt_B"]);
    let mapping = pairs(&[("gt_A", "speaker_01"), ("gt_B", "speaker_02")]);
    let matching = evaluate_speaker_acceptance(&expected, &mapping, &names(&["speaker_01", "speaker_02"]));
    assert!(matching.status.scorable);
    assert_eq!(matching.failed, Some(false));
    assert!(matching.status.reason.is_none());
    assert_eq!(matching.status.mapped_expected_speakers, 2);
    assert_eq!(matching.status.total_expected_speakers, 2);

    let missing = evaluate_speaker_acceptance(&expected, &mapping, &names(&["speaker_01"]));
    assert!(missing.status.scorable);
    assert_eq!(missing.failed, Some(true));
}

#[test]
fn partial_alignment_is_unscorable_even_with_an_extra_cluster() {
    let expected = names(&["gt_A", "gt_B", "gt_C"]);
    let mapping = pairs(&[("gt_A", "speaker_01"), ("gt_B", "speaker_02")]);
    assert_eq!(map_expected_speakers(&expected, &mapping), Err(names(&["gt_C"])));
    let evaluation = evaluate_speaker_acceptance(
        &expected,
        &mapping,
        &names(&["speaker_01", "speaker_02", "speaker_03"]),
    );
    assert!(!evaluation.status.scorable);
    assert_eq!(evaluation.failed, None);
    assert_eq!(evaluation.status.reason, Some("partial_speaker_alignment"));
    assert_eq!(evaluation.status.unmapped_expected_speakers, names(&["gt_C"]));
    assert_eq!(evaluation.status.mapped_expected_speakers, 2);
    assert_eq!(evaluation.status.total_expected_speakers, 3);
}

#[test]
fn temporal_matching_takes_the_best_ranked_free_pairs_one_to_one() {
    assert_eq!(greedy_temporal_match(2, 2, &[(0, 1), (1, 0), (0, 0)]), vec![Some(1), Some(0)]);
    assert_eq!(greedy_temporal_match(3, 1, &[]), vec![None, None, None]);
    assert_eq!(greedy_temporal_match(2, 1, &[(1, 0), (0, 0)]), vec![None, Some(0)]);
}

#[test]
fn temporal_matching_decides_a_row_at_its_first_ranked_pair() {
    assert_eq!(greedy_temporal_match(2, 2, &[(0, 0), (1, 0), (1, 1)]), vec![Some(0), None]);
}
