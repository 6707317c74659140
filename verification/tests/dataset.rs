use huitrace::evaluation::dataset::{
    check_single_artifact_per_meeting, coverage, duration_bucket, possible_duplicates, representative_data_gate,
    validate_records, CoveragePolicy, DatasetRecord,
};

fn sample(id: &str) -> DatasetRecord {
    DatasetRecord {
        ground_truth_event_id: id.into(),
        record_type: "ground_truth_event".into(),
        recall_eligible: true,
        evidence_origin: "production_artifact".into(),
        meeting_id: "meeting-1".into(),
        production_artifact_path: None,
        start_ms: 100,
        end_ms: 300,
        duration_bucket: "100-300ms".into(),
        ground_truth_kind: "short_speech".into(),
        ground_truth_speaker: Some("speaker_01".into()),
        annotation_uncertain: false,
        expected_visible_speakers: vec!["speaker_01".into()],
        tags: vec![],
    }
}

#[test]
fn uncertain_samples_do_not_fill_the_gate() {
    let mut row = sample("uncertain");
    row.annotation_uncertain = true;
    let result = coverage(&[row], &CoveragePolicy::default());
    assert_eq!(result.scorable_samples, 0);
    assert_eq!(result.uncertain_samples, 1);
    assert_eq!(result.true_short_events, 0);
}

#[test]
fn missing_quota_is_reported_as_a_delta() {
    let result = coverage(&[sample("one")], &CoveragePolicy::default());
    assert!(result
        .missing_requirements
        .contains(&"scorable_samples +99".to_string()));
    assert!(result
        .missing_requirements
        .contains(&"backchannel +15".to_string()));
}

#[test]
fn duplicate_ground_truth_is_flagged_for_review() {
    let first = sample("one");
    let mut second = sample("two");
    second.start_ms += 20;
    second.end_ms += 20;
    let duplicates = possible_duplicates(&[first, second]);
    assert_eq!(duplicates.len(), 1);
    assert_eq!(duplicates[0].first_event_id, "one");
    assert_eq!(duplicates[0].second_event_id, "two");
}

#[test]
fn distant_rows_are_not_duplicates() {
    let first = sample("one");
    let mut second = sample("two");
    second.start_ms += 150;
    second.end_ms += 150;
    assert!(possible_duplicates(&[first, second]).is_empty());
}

#[test]
fn duration_buckets_have_exact_edges() {
    assert_eq!(duration_bucket(99), "non_short_control");
    assert_eq!(duration_bucket(100), "100-300ms");
    assert_eq!(duration_bucket(299), "100-300ms");
    assert_eq!(duration_bucket(300), "300-500ms");
}

#[test]
fn a_single_valid_row_passes_record_validation() {
    let mut row = sample("one");
    row.production_artifact_path = Some("m/m.production.json".into());
    assert!(validate_records(&[row]).is_ok());
}

fn row_artifact(meeting: &str, path: &str) -> (String, String) {
    (meeting.to_string(), path.to_string())
}

#[test]
fn each_meeting_references_one_artifact() {
    let consistent = vec![row_artifact("m1", "a.json"), row_artifact("m2", "b.json"), row_artifact("m1", "a.json")];
    assert_eq!(check_single_artifact_per_meeting(&consistent), Ok(()));
    let conflicting = vec![
        row_artifact("m1", "a.json"),
        row_artifact("m2", "b.json"),
        row_artifact("m2", "b.json"),
        row_artifact("m1", "c.json"),
    ];
    assert_eq!(
        check_single_artifact_per_meeting(&conflicting),
        Err("meeting m1 references multiple production artifacts".to_string())
    );
}

#[test]
fn data_gate_needs_every_quota_and_no_duplicates() {
    let thin = coverage(&[sample("one")], &CoveragePolicy::default());
    assert!(!thin.missing_requirements.is_empty());
    assert_eq!(representative_data_gate(&thin, &Vec::new()), "INSUFFICIENT_REPRESENTATIVE_DATA");
    let mut met = thin.clone();
    met.missing_requirements.clear();
    assert_eq!(representative_data_gate(&met, &Vec::new()), "REPRESENTATIVE_DATA_READY");
    let rows = vec![sample("one"), sample("two")];
    let duplicates = possible_duplicates(&rows);
    assert!(!duplicates.is_empty());
    assert_eq!(representative_data_gate(&met, &duplicates), "INSUFFICIENT_REPRESENTATIVE_DATA");
}

#[test]
fn insufficient_categories_fail_the_data_gate() {
    assert!(!coverage(&[sample("short")], &CoveragePolicy::default())
        .missing_requirements
        .is_empty());
}
