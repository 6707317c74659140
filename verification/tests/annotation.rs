use huitrace::evaluation::annotation::{
    all_blind_windows_complete, all_review_windows_complete, identity_matches, identity_precheck,
    is_supported_media_extension, manifest_line, next_event_sequence, qa_workspace,
    source_media_duration_matches, source_media_duration_tolerance_ms, validate_draft_shape,
    validate_window_completion, validate_window_provenance, AnnotationDraft, AnnotationEvent, AnnotationSession,
    AnnotationWindow, ProductionArtifactIdentity, SpeakerMapEntry,
};

fn event(id: &str, start: i64, end: i64, speaker: Option<&str>) -> AnnotationEvent {
    AnnotationEvent {
        event_id: id.into(),
        start_ms: start,
        end_ms: end,
        kind: "backchannel".into(),
        speaker: speaker.map(str::to_string),
        overlap: false,
        speaker_handoff: false,
        embedded: false,
        annotation_uncertain: false,
        expected_materialized: None,
        notes: String::new(),
        annotation_status: "blind_confirmed".into(),
    }
}

fn window(id: &str) -> AnnotationWindow {
    AnnotationWindow {
        window_id: id.into(),
        meeting_id: "meeting".into(),
        source_start_ms: 0,
        source_end_ms: 1_000,
        audio_path: String::new(),
        production_artifact_path: String::new(),
        candidate_suggestions: Vec::new(),
    }
}

fn set_status(statuses: &mut Vec<(String, String)>, id: &str, status: &str) {
    if let Some(entry) = statuses.iter_mut().find(|(k, _)| k == id) {
        entry.1 = status.into();
    } else {
        statuses.push((id.into(), status.into()));
    }
}

#[test]
fn event_identity_is_canonical_across_overlapping_viewports() {
    let item = event("meeting-event-0021", 4_610, 4_890, Some("speaker_02"));
    assert!(item.start_ms < 5_000 && item.end_ms > 4_000);
    let draft = AnnotationDraft {
        schema_version: 1,
        meeting_id: "meeting".into(),
        events: vec![item],
    };
    assert_eq!(draft.events.len(), 1);
    assert_eq!(draft.events[0].event_id, "meeting-event-0021");
}

#[test]
fn editing_bounds_keeps_event_id_and_deleting_removes_canonical_event() {
    let mut draft = AnnotationDraft {
        schema_version: 1,
        meeting_id: "meeting".into(),
        events: vec![event("meeting-event-0001", 100, 280, Some("speaker_01"))],
    };
    draft.events[0].end_ms = 310;
    assert_eq!(draft.events[0].event_id, "meeting-event-0001");
    draft.events.clear();
    assert!(draft.events.is_empty());
}

#[test]
fn media_duration_check_allows_bounded_container_timing_drift() {
    let artifact_duration = 210_597;
    assert_eq!(source_media_duration_tolerance_ms(artifact_duration), 4_211);
    assert!(source_media_duration_matches(214_221, artifact_duration));
    assert!(!source_media_duration_matches(220_000, artifact_duration));
    assert_eq!(source_media_duration_tolerance_ms(30_000), 2_000);
    assert_eq!(source_media_duration_tolerance_ms(900_000), 10_000);
}

#[test]
fn completion_uses_every_expected_window_id() {
    let windows = vec![window("w1"), window("w2"), window("w3")];
    let mut statuses = vec![("w1".to_string(), "reviewed_blind".to_string())];
    assert!(!all_blind_windows_complete(&windows, &statuses));
    set_status(&mut statuses, "w2", "reviewed_second_pass");
    set_status(&mut statuses, "w3", "reviewed_blind");
    assert!(all_blind_windows_complete(&windows, &statuses));
    assert!(!all_review_windows_complete(&windows, &statuses));
    set_status(&mut statuses, "w1", "reviewed_second_pass");
    set_status(&mut statuses, "w3", "reviewed_second_pass");
    assert!(all_review_windows_complete(&windows, &statuses));
}

#[test]
fn completion_rejects_pending_across_overlapping_windows_only() {
    let mut a = window("a");
    a.source_end_ms = 5_000;
    let mut b = window("b");
    b.source_start_ms = 4_000;
    b.source_end_ms = 9_000;
    let mut c = window("c");
    c.source_start_ms = 4_800;
    c.source_end_ms = 9_000;
    let mut draft = AnnotationDraft::empty("meeting".into());
    draft.events.push(event("e", 4_500, 4_800, None));
    draft.events[0].annotation_status = "pending".into();
    assert!(validate_window_completion(&draft, &a, false).is_err());
    assert!(validate_window_completion(&draft, &b, false).is_err());
    assert!(validate_window_completion(&draft, &c, false).is_ok());
    draft.events[0].annotation_status = "blind_confirmed".into();
    assert!(validate_window_completion(&draft, &a, false).is_ok());
    assert!(validate_window_completion(&draft, &b, false).is_ok());
    draft.events[0].annotation_status = "review_pending".into();
    assert!(validate_window_completion(&draft, &a, true).is_err());
    draft.events[0].annotation_status = "reviewed".into();
    assert!(validate_window_completion(&draft, &a, true).is_ok());
}

#[test]
fn short_ordinary_control_is_rejected_by_qa() {
    let mut draft = AnnotationDraft {
        schema_version: 1,
        meeting_id: "meeting".into(),
        events: vec![event("control", 0, 1_200, None)],
    };
    draft.events[0].kind = "ordinary_speech_control".into();
    let session = AnnotationSession::empty("meeting".into());
    let report = qa_workspace(&draft, &session, None, Err(String::new()));
    assert!(report
        .errors
        .iter()
        .any(|error| error.contains("longer than 1200")));
}

fn session_with_speaker(key: &str) -> AnnotationSession {
    let mut session = AnnotationSession::empty("meeting".into());
    session.speaker_map.push(SpeakerMapEntry {
        key: key.into(),
        description: String::new(),
    });
    session
}

#[test]
fn qa_reports_every_finding_in_order() {
    let mut noisy = event("n", 0, 300, Some("gt_speaker_1"));
    noisy.kind = "noise".into();
    noisy.annotation_status = "pending".into();
    let draft = AnnotationDraft {
        schema_version: 1,
        meeting_id: "meeting".into(),
        events: vec![noisy, event("b", 100, 2_500, None)],
    };
    let mut session = session_with_speaker("gt_speaker_1");
    session.production_artifact_path = "m/m.production.json".into();
    session.source_media_duration_ms = Some(30_000);
    let report = qa_workspace(&draft, &session, Some("missing".into()), Ok(2_000));
    assert_eq!(
        report.errors,
        vec![
            "production artifact identity: missing".to_string(),
            "source media duration 30000ms does not match artifact duration 2000ms (difference 28000ms exceeds 2000ms tolerance)".to_string(),
            "n noise should not have a speaker".to_string(),
            "n requires explicit annotation confirmation".to_string(),
            "b exceeds source duration".to_string(),
            "b requires a speaker unless uncertain".to_string(),
        ]
    );
    assert_eq!(report.source_duration_ms, Some(2_000));
}

#[test]
fn qa_requires_an_artifact_path_and_reports_artifact_errors() {
    let draft = AnnotationDraft::empty("meeting".into());
    let session = AnnotationSession::empty("meeting".into());
    let report = qa_workspace(&draft, &session, None, Ok(5_000));
    assert_eq!(report.errors, vec!["production artifact path is required".to_string()]);
    assert_eq!(report.source_duration_ms, None);

    let mut session = AnnotationSession::empty("meeting".into());
    session.production_artifact_path = "a.json".into();
    let report = qa_workspace(&draft, &session, None, Err("parse a.json".into()));
    assert_eq!(report.errors, vec!["production artifact: parse a.json".to_string()]);
}

#[test]
fn qa_flags_overlapping_duplicates_of_one_event() {
    let draft = AnnotationDraft {
        schema_version: 1,
        meeting_id: "meeting".into(),
        events: vec![event("one", 100, 300, None), event("two", 120, 320, None)],
    };
    let report = qa_workspace(&draft, &AnnotationSession::empty("meeting".into()), None, Err(String::new()));
    assert_eq!(report.possible_duplicates.len(), 1);
    assert_eq!(report.possible_duplicates[0].first_event_id, "one");
    assert_eq!(report.possible_duplicates[0].second_event_id, "two");
    assert_eq!(report.possible_duplicates[0].meeting_id, "meeting");
}

#[test]
fn draft_shape_errors_name_the_first_problem() {
    let draft = AnnotationDraft {
        schema_version: 1,
        meeting_id: "meeting".into(),
        events: vec![event("a", 0, 100, Some("gt_speaker_9"))],
    };
    assert_eq!(
        validate_draft_shape(&draft, &session_with_speaker("speaker_1")),
        Err("ground-truth speaker keys must use the gt_speaker_ namespace".to_string())
    );
    assert_eq!(
        validate_draft_shape(&draft, &session_with_speaker("gt_speaker_1")),
        Err("a references speaker not present in meeting-local speaker map".to_string())
    );
    assert_eq!(validate_draft_shape(&draft, &session_with_speaker("gt_speaker_9")), Ok(()));
    let mut bad = draft;
    bad.events[0].end_ms = 0;
    assert_eq!(
        validate_draft_shape(&bad, &session_with_speaker("gt_speaker_9")),
        Err("a has invalid timing".to_string())
    );
}

#[test]
fn next_sequence_follows_the_largest_numbered_event() {
    let events = vec![
        event("meeting-event-0007", 0, 1, None),
        event("meeting-event-x", 0, 1, None),
        event("12", 0, 1, None),
    ];
    assert_eq!(next_event_sequence(&events, 1), 13);
    assert_eq!(next_event_sequence(&events, 40), 40);
    assert_eq!(next_event_sequence(&Vec::new(), 1), 1);
}

#[test]
fn artifact_identity_binding_is_checked_in_order() {
    let identity = ProductionArtifactIdentity {
        artifact_id: "artifact-1".into(),
        sha256: "ab".into(),
        schema_version: 2,
        transcription_run_id: "run-1".into(),
        relative_path: "m/m.production.json".into(),
    };
    let mut session = AnnotationSession::empty("m".into());
    assert_eq!(
        identity_precheck(&session).unwrap_err(),
        "annotation project has no production artifact identity"
    );
    session.artifact_identity = Some(identity.clone());
    session.production_artifact_path = "other.json".into();
    assert_eq!(
        identity_precheck(&session).unwrap_err(),
        "session production artifact path differs from the bound artifact identity"
    );
    session.production_artifact_path = "m/m.production.json".into();
    assert!(identity_precheck(&session).is_ok());
    assert_eq!(
        identity_matches(&identity, "cd", "artifact-1", 2, "run-1"),
        Err("bound production artifact changed (SHA-256 mismatch)".to_string())
    );
    assert_eq!(
        identity_matches(&identity, "ab", "artifact-1", 3, "run-1"),
        Err("bound production artifact identity changed".to_string())
    );
    assert_eq!(identity_matches(&identity, "ab", "artifact-1", 2, "run-1"), Ok(()));
}

#[test]
fn only_known_media_containers_are_accepted() {
    for ext in ["wav", "mp3", "m4a", "mp4", "webm"] {
        assert!(is_supported_media_extension(ext));
    }
    assert!(!is_supported_media_extension("WAV"));
    assert!(!is_supported_media_extension("ogg"));
}

fn exported(id: &str) -> AnnotationWindow {
    let mut value = window(id);
    value.production_artifact_path = "artifact.json".into();
    value
}

#[test]
fn window_provenance_checks_meeting_ids_timing_and_artifact() {
    let windows = vec![exported("w1"), exported("w2")];
    assert_eq!(validate_window_provenance(&windows, "meeting", &[Some(true), Some(true)]), Ok(()));
    assert_eq!(
        validate_window_provenance(&windows, "other", &[Some(true), Some(true)]),
        Err("window w1 belongs to a different meeting".to_string())
    );
    let duplicate = vec![exported("w1"), exported("w1")];
    assert_eq!(
        validate_window_provenance(&duplicate, "meeting", &[Some(true), Some(true)]),
        Err("window ids must be nonempty and unique".to_string())
    );
    let mut inverted = exported("w3");
    inverted.source_end_ms = 0;
    assert_eq!(
        validate_window_provenance(&[inverted], "meeting", &[Some(true)]),
        Err("window w3 has invalid timing".to_string())
    );
    assert_eq!(
        validate_window_provenance(&[window("w4")], "meeting", &[Some(true)]),
        Err("window w4 has no production_artifact_path".to_string())
    );
    assert_eq!(
        validate_window_provenance(&windows, "meeting", &[Some(true), None]),
        Err("open window artifact for w2".to_string())
    );
    assert_eq!(
        validate_window_provenance(&windows, "meeting", &[Some(false), Some(true)]),
        Err("window w1 was exported from a different production artifact".to_string())
    );
}

#[test]
fn manifest_line_binds_event_artifact_and_visible_speakers() {
    let mut e = event("evt_0001", 1_000, 1_250, Some("speaker_01"));
    e.overlap = true;
    e.embedded = true;
    e.expected_materialized = Some(true);
    e.notes = "laugh".into();
    let visible = vec!["speaker_01".to_string(), "speaker_02".to_string()];
    let line = manifest_line(&e, "meeting-1", "meeting-1/artifact.json", "abc123", &visible);
    assert_eq!(line.ground_truth_event_id, "evt_0001");
    assert_eq!(line.record_type, "ground_truth_event");
    assert!(line.recall_eligible);
    assert_eq!(line.evidence_origin, "production_artifact");
    assert_eq!(line.meeting_id, "meeting-1");
    assert_eq!(line.production_artifact_path, "meeting-1/artifact.json");
    assert_eq!(line.production_artifact_sha256, "abc123");
    assert_eq!((line.start_ms, line.end_ms), (1_000, 1_250));
    assert_eq!(line.duration_bucket, "100-300ms");
    assert_eq!(line.ground_truth_kind, "backchannel");
    assert_eq!(line.ground_truth_speaker.as_deref(), Some("speaker_01"));
    assert!(!line.annotation_uncertain);
    assert_eq!(line.expected_materialized, Some(true));
    assert!(line.embedded);
    assert_eq!(line.expected_visible_speakers, visible);
    assert_eq!(line.tags, vec!["overlap".to_string()]);
    assert_eq!(line.notes, "laugh");
}

#[test]
fn duration_bucket_and_manifest_privacy_are_automatic() {
    let sha = "a".repeat(64);
    let row = manifest_line(
        &event("id", 100, 399, Some("speaker_01")),
        "m",
        "m/m.production.json",
        sha.as_str(),
        &vec!["speaker_01".to_string()],
    );
    assert_eq!(row.duration_bucket, "100-300ms");
    assert!(row.tags.is_empty());
    assert_eq!(row.production_artifact_sha256, sha);
    assert_eq!(row.expected_materialized, None);
}
