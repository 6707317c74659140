use huitrace::database::key_remap::{plan_replacement, remap_turn_keys};
use huitrace::database::manager::{
    classify_retained_folder, cleanup_after_erase, deletion_start, deletion_step, DeletionAction, DeletionEvent, DeletionPhase,
    DeletionSummary, RecordingCleanupStatus,
};
use huitrace::database::short_turn_event::ShortTurnEventsRepository;
use huitrace::database::speaker_turn::{crc32, speaker_key_from_label, SpeakerTurnsRepository, StoredTurn};
use huitrace::licensing::{activate_license, unrestricted_status, LicensingStateKind};
use huitrace::notifications::{Notification, NotificationPriority, NotificationTimeout, NotificationType};
use huitrace::recording_consent::{may_authorize, ConsentSession, ConsentTickets, TicketValidationError, CONSENT_TTL_MS};
use huitrace::templates::{check_custom_template_id, get_template, list_template_ids, validate_template_id};
use huitrace::transcription::{
    common_prefix_bytes, parakeet_capabilities, surface_token_pieces, transcript_result_from_native,
    whisper_capabilities, whisper_timed_tokens, TimingSource, WhisperNativeToken,
};
use huitrace::ui_language::{parse_ui_language, text, UiLanguage};

#[test]
fn status_has_no_trial_expiry_or_commercial_configuration() {
    let status = unrestricted_status();
    assert_eq!(status.state, LicensingStateKind::Licensed);
    assert!(!status.configured);
    assert!(status.days_left.is_none());
    assert!(status.expires_at.is_none());
    assert!(status.display_key.is_none());
    assert_eq!(
        activate_license("KEY".into()).unwrap_err(),
        "NOT_CONFIGURED: HuiTrace does not require a license key."
    );
}

#[test]
fn approval_is_required_and_single_use() {
    let mut state = ConsentSession::new();
    assert!(!state.take_confirmation_at("t", "u", 0));
    state.confirm_at("t", "u", 0);
    assert!(state.take_confirmation_at("t", "u", 1));
    assert!(!state.take_confirmation_at("t", "u", 1));
}

#[test]
fn wrong_context_and_expired_approval_fail_closed() {
    let mut state = ConsentSession::new();
    state.confirm_at("t", "u", 0);
    assert!(!state.take_confirmation_at("other", "u", 0));
    assert!(!state.take_confirmation_at("t", "u", 0));
    state.confirm_at("t", "u", 0);
    assert!(!state.take_confirmation_at("t", "u", CONSENT_TTL_MS));
}

const TENANT: &str = "workspace-a";
const USER: &str = "user-a";

#[test]
fn absent_ticket_fails_closed() {
    let mut state = ConsentTickets::new();
    assert_eq!(state.consume_at("not-issued", TENANT, USER, 0), Err(TicketValidationError::Missing));
}

#[test]
fn expired_ticket_fails_closed_and_is_removed() {
    let mut state = ConsentTickets::new();
    let issued_at = 1_000;
    state.issue_at("token".into(), TENANT, USER, issued_at);
    assert_eq!(
        state.consume_at("token", TENANT, USER, issued_at + CONSENT_TTL_MS),
        Err(TicketValidationError::Expired)
    );
    assert_eq!(state.consume_at("token", TENANT, USER, issued_at), Err(TicketValidationError::Missing));
}

#[test]
fn ticket_is_single_use() {
    let mut state = ConsentTickets::new();
    state.issue_at("token".into(), TENANT, USER, 5);
    assert_eq!(state.consume_at("token", TENANT, USER, 5), Ok(()));
    assert_eq!(state.consume_at("token", TENANT, USER, 5), Err(TicketValidationError::Missing));
}

#[test]
fn ticket_is_bound_to_auth_context() {
    let mut state = ConsentTickets::new();
    state.issue_at("token".into(), TENANT, USER, 5);
    assert_eq!(state.consume_at("token", "workspace-b", USER, 5), Err(TicketValidationError::ContextMismatch));
}

#[test]
fn presenting_the_wrong_token_consumes_the_outstanding_ticket() {
    let mut state = ConsentTickets::new();
    state.issue_at("token".into(), TENANT, USER, 5);
    assert_eq!(state.consume_at("wrong-token", TENANT, USER, 5), Err(TicketValidationError::Invalid));
    assert_eq!(state.consume_at("token", TENANT, USER, 5), Err(TicketValidationError::Missing));
}

#[test]
fn remembered_acknowledgement_authorizes_unless_always_ask() {
    assert!(may_authorize(true, None, Some(true)));
    assert!(may_authorize(false, Some(true), None));
    assert!(!may_authorize(false, Some(true), Some(true)));
    assert!(!may_authorize(false, Some(false), None));
}

#[test]
fn test_get_nonexistent_template() {
    let available = vec!["daily_standup".to_string(), "standard_meeting".to_string()];
    let result = get_template("nonexistent_template", None, None, None, &available);
    assert!(result.is_err());
    assert_eq!(
        result.unwrap_err(),
        "Template 'nonexistent_template' not found. Available templates: daily_standup, standard_meeting"
    );
}

#[test]
fn templates_come_from_custom_then_bundled_then_builtin() {
    let ids: Vec<String> = Vec::new();
    assert_eq!(get_template("t", Some("c".into()), Some("b".into()), Some("i".into()), &ids), Ok("c".to_string()));
    assert_eq!(get_template("t", None, Some("b".into()), Some("i".into()), &ids), Ok("b".to_string()));
    assert_eq!(get_template("t", None, None, Some("i".into()), &ids), Ok("i".to_string()));
    assert_eq!(get_template("../t", Some("c".into()), None, None, &ids), Err("Invalid template identifier".to_string()));
}

#[test]
fn template_paths_and_builtin_overwrites_are_rejected() {
    for id in ["../escape", "custom_../../escape", "C:\\escape", "", "standard_meeting"] {
        assert!(check_custom_template_id(id).is_err());
    }
    assert!(check_custom_template_id("custom_test").is_ok());
    assert!(validate_template_id(&"a".repeat(100)).is_ok());
    assert!(validate_template_id(&"a".repeat(101)).is_err());
    assert!(validate_template_id("模板").is_err());
}

#[test]
fn surface_pieces_reproduce_native_decoder_text() {
    let decoded = vec!["hello".to_string(), "hello world".to_string()];
    assert_eq!(surface_token_pieces(&decoded).concat(), "hello world");
}

#[test]
fn changed_decoder_output_is_attributed_to_the_token_that_changed_it() {
    let decoded = vec!["ab".to_string(), "ac".to_string(), "acd".to_string()];
    let pieces = surface_token_pieces(&decoded);
    assert_eq!(pieces, vec!["a".to_string(), "c".to_string(), "d".to_string()]);
    assert_eq!(pieces.concat(), "acd");
    assert_eq!(common_prefix_bytes("héllo", "hélp"), 4);
}

#[test]
fn emission_times_are_kept_only_when_every_token_has_one() {
    let decoded = vec!["hello".to_string(), "hello world".to_string()];
    let result = transcript_result_from_native(" hello world ", &decoded, &[Some(80), Some(160)]);
    assert_eq!(result.text, "hello world");
    let timing = result.timing.expect("valid native timing");
    assert_eq!(timing.provider, "parakeet");
    assert_eq!(timing.tokens[0].start_ms, 80);
    assert_eq!(timing.tokens[1].start_ms, 160);
    assert!(timing.tokens.iter().all(|t| t.end_ms.is_none() && t.timing_source == TimingSource::NativeTokenEmission));
    let result = transcript_result_from_native("hello", &decoded[..1], &[None]);
    assert_eq!(result.text, "hello");
    assert!(result.timing.is_none());
}

#[test]
fn timestamp_policy_exposes_bpe_intervals_only() {
    assert!(whisper_capabilities().token_timestamps);
    assert!(whisper_capabilities().token_confidence);
    assert!(!whisper_capabilities().word_timestamps);
    assert!(!whisper_capabilities().segment_timestamps);
    assert!(!parakeet_capabilities().token_confidence);
}

#[test]
fn whisper_drops_empty_tokens() {
    let tokens = vec![
        WhisperNativeToken { text: " a".into(), start_ms: 0, end_ms: Some(10) },
        WhisperNativeToken { text: String::new(), start_ms: 10, end_ms: Some(20) },
    ];
    let timed = whisper_timed_tokens(&tokens);
    assert_eq!(timed.len(), 1);
    assert_eq!(timed[0].text, " a");
    assert_eq!(timed[0].timing_source, TimingSource::NativeToken);
}

#[test]
fn canned_notifications_follow_the_interface_language() {
    let n = Notification::meeting_reminder(UiLanguage::English, 5, Some("Sync".into()));
    assert_eq!(n.body, "Meeting 'Sync' starts in 5 minutes");
    assert_eq!(n.priority, NotificationPriority::High);
    assert_eq!(n.timeout, NotificationTimeout::Seconds(10));
    assert!(matches!(n.notification_type, NotificationType::MeetingReminder(5)));
    let zh = Notification::meeting_reminder(UiLanguage::Chinese, 5, None);
    assert_eq!(zh.body, "会议将在 5 分钟后开始");
    let started = Notification::recording_started(UiLanguage::English, Some("Weekly".into()));
    assert_eq!(started.body, "Recording started for meeting: Weekly");
    assert_eq!(started.timeout, NotificationTimeout::Seconds(5));
    let error = Notification::system_error(UiLanguage::Chinese, "disk full".into());
    assert_eq!(error.title, "HuiTrace 错误");
    assert_eq!(error.timeout, NotificationTimeout::Never);
    let built = Notification::new("t".into(), "b".into(), NotificationType::Test)
        .with_priority(NotificationPriority::Low)
        .with_sound(false)
        .with_id("id".into());
    assert_eq!(built.priority, NotificationPriority::Low);
    assert!(!built.sound);
    assert_eq!(built.id.as_deref(), Some("id"));
    assert_eq!(text(UiLanguage::Chinese, "en", "zh"), "zh");
    assert!(parse_ui_language("fr").is_err());
    assert_eq!(parse_ui_language("zh-CN"), Ok(UiLanguage::Chinese));
}

#[test]
fn stored_keys_come_from_label_numbers_or_the_label_hash() {
    assert_eq!(speaker_key_from_label("Speaker 2"), "speaker_02");
    let hash = "cluster".bytes().fold(0u32, |h, b| h.wrapping_mul(16777619) ^ u32::from(b));
    assert_eq!(crc32(b"cluster"), hash);
    assert_eq!(speaker_key_from_label("cluster"), format!("speaker_{:08x}", hash));
    assert_eq!(crc32(b""), 0);
}

#[test]
fn turns_are_checked_before_anything_is_stored() {
    let turn = |s: i64, e: i64, label: &str| StoredTurn { start_ms: s, end_ms: e, speaker_label: label.into(), speaker_key: String::new() };
    assert_eq!(SpeakerTurnsRepository::validate_replacement(" ", &[]), Err("meeting_id cannot be empty".to_string()));
    assert_eq!(
        SpeakerTurnsRepository::validate_replacement("m", &[turn(0, 10, "A"), turn(10, -5, "B")]),
        Err("refusing to store a turn that ends before it starts (10 -> -5)".to_string())
    );
    assert_eq!(
        SpeakerTurnsRepository::validate_replacement("m", &[turn(0, 10, " ")]),
        Err("refusing to store a turn with no speaker label".to_string())
    );
    assert_eq!(SpeakerTurnsRepository::validate_replacement("m", &[turn(0, 10, "A")]), Ok(()));
    assert!(SpeakerTurnsRepository::validate_rename("speaker_01", "").is_err());
    assert_eq!(SpeakerTurnsRepository::stored_key(&turn(0, 1, "Speaker 4")), "speaker_04");
}

#[test]
fn automatic_events_are_checked_and_revised() {
    assert!(ShortTurnEventsRepository::check_automatic_event("m", "other", 0, 10).is_err());
    assert!(ShortTurnEventsRepository::check_automatic_event("m", "m", 10, 10).is_err());
    assert!(ShortTurnEventsRepository::check_automatic_event("m", "m", 0, 10).is_ok());
    assert_eq!(ShortTurnEventsRepository::next_revision(3, true), 3);
    assert_eq!(ShortTurnEventsRepository::next_revision(3, false), 4);
    assert_eq!(ShortTurnEventsRepository::next_revision(i64::MAX, false), i64::MAX);
}

#[test]
fn unverifiable_folders_are_retained_and_other_failures_are_fatal() {
    assert_eq!(
        classify_retained_folder("recording folder belongs to a different workspace"),
        Some(RecordingCleanupStatus::RetainedOwnershipMismatch)
    );
    assert_eq!(
        classify_retained_folder("path is outside the managed recordings root"),
        Some(RecordingCleanupStatus::RetainedUntrusted)
    );
    assert_eq!(classify_retained_folder("permission denied"), None);
    assert_eq!(cleanup_after_erase(true), RecordingCleanupStatus::Removed);
    assert_eq!(RecordingCleanupStatus::RetainedShared.as_str(), "retained_shared");
}

fn remap_turn(start_ms: i64, end_ms: i64, label: &str, key: &str) -> StoredTurn {
    StoredTurn { start_ms, end_ms, speaker_label: label.to_string(), speaker_key: key.to_string() }
}

#[test]
fn remaps_swapped_backend_cluster_numbers_to_existing_voice_keys() {
    let old = vec![remap_turn(0, 1_000, "Alice", "speaker_01"), remap_turn(1_000, 2_000, "Bob", "speaker_02")];
    let new = vec![remap_turn(0, 1_000, "Speaker 2", "speaker_02"), remap_turn(1_000, 2_000, "Speaker 1", "speaker_01")];
    let remapped = remap_turn_keys(&old, &new);
    assert_eq!(remapped[0].speaker_key, "speaker_01");
    assert_eq!(remapped[1].speaker_key, "speaker_02");
}

#[test]
fn remap_gives_unmatched_cluster_a_fresh_key_past_earlier_keys() {
    let old = vec![remap_turn(0, 1_000, "Alice", "speaker_01")];
    let new = vec![remap_turn(5_000, 6_000, "Speaker 1", "speaker_01")];
    let remapped = remap_turn_keys(&old, &new);
    assert_eq!(remapped.len(), 1);
    assert_eq!(remapped[0].speaker_key, "speaker_02");
    assert_eq!(remapped[0].speaker_label, "Speaker 1");
    assert_eq!((remapped[0].start_ms, remapped[0].end_ms), (5_000, 6_000));
}

#[test]
fn remap_lets_the_larger_overlap_claim_a_key_once() {
    let old = vec![remap_turn(0, 1_000, "Alice", "speaker_01")];
    let new = vec![remap_turn(0, 400, "Speaker 1", ""), remap_turn(400, 1_000, "Speaker 2", "")];
    let remapped = remap_turn_keys(&old, &new);
    assert_eq!(remapped[0].speaker_key, "speaker_02");
    assert_eq!(remapped[1].speaker_key, "speaker_01");
}

#[test]
fn remap_breaks_equal_overlaps_by_label_order() {
    let old = vec![remap_turn(0, 1_000, "Alice", "speaker_01")];
    let new = vec![remap_turn(500, 1_000, "Speaker 2", ""), remap_turn(0, 500, "Speaker 1", "")];
    let remapped = remap_turn_keys(&old, &new);
    assert_eq!(remapped[0].speaker_key, "speaker_02");
    assert_eq!(remapped[1].speaker_key, "speaker_01");
}

#[test]
fn remap_ignores_empty_earlier_keys_and_reuses_one_key_per_label() {
    let old = vec![remap_turn(0, 1_000, "Alice", "")];
    let new = vec![remap_turn(0, 500, "Speaker 7", "x"), remap_turn(500, 1_000, "Speaker 7", "y")];
    let remapped = remap_turn_keys(&old, &new);
    assert_eq!(remapped[0].speaker_key, "speaker_01");
    assert_eq!(remapped[1].speaker_key, "speaker_01");
}

fn run_deletion(events: Vec<DeletionEvent>) -> Vec<DeletionAction> {
    let (mut phase, first) = deletion_start();
    let mut actions = vec![first];
    for event in events {
        let (next, action) = deletion_step(phase, event).expect("event belongs to the phase");
        phase = next;
        actions.push(action);
    }
    actions
}

#[test]
fn deletion_erases_an_unshared_folder_then_deletes_rows() {
    let actions = run_deletion(vec![
        DeletionEvent::MaintenanceResumed(true),
        DeletionEvent::MeetingLoaded(Some(Some("/recordings/m1".to_string()))),
        DeletionEvent::SharedChecked(false),
        DeletionEvent::FolderErased(true),
        DeletionEvent::RowsDeleted(true),
        DeletionEvent::MaintenanceCompleted(true),
    ]);
    assert_eq!(
        actions,
        vec![
            DeletionAction::ResumeMaintenance,
            DeletionAction::LoadMeeting,
            DeletionAction::CheckShared,
            DeletionAction::EraseFolder,
            DeletionAction::DeleteRows,
            DeletionAction::CompleteMaintenance,
            DeletionAction::Finish(DeletionSummary {
                already_absent: false,
                recording_cleanup: RecordingCleanupStatus::Removed,
                maintenance_pending: false,
            }),
        ]
    );
}

#[test]
fn deletion_keeps_an_untrusted_folder_and_still_deletes_rows() {
    let actions = run_deletion(vec![
        DeletionEvent::MaintenanceResumed(false),
        DeletionEvent::MeetingLoaded(Some(Some("/elsewhere".to_string()))),
        DeletionEvent::SharedChecked(false),
        DeletionEvent::FolderEraseRefused("Recording folder is OUTSIDE THE MANAGED recordings root".to_string()),
        DeletionEvent::RowsDeleted(true),
        DeletionEvent::MaintenanceCompleted(false),
    ]);
    assert_eq!(actions[4], DeletionAction::DeleteRows);
    assert_eq!(
        actions[6],
        DeletionAction::Finish(DeletionSummary {
            already_absent: false,
            recording_cleanup: RecordingCleanupStatus::RetainedUntrusted,
            maintenance_pending: true,
        })
    );
}

#[test]
fn deletion_fails_on_an_unclassified_erase_error() {
    let actions = run_deletion(vec![
        DeletionEvent::MaintenanceResumed(true),
        DeletionEvent::MeetingLoaded(Some(Some("/recordings/m1".to_string()))),
        DeletionEvent::SharedChecked(false),
        DeletionEvent::FolderEraseRefused("remove file: permission denied".to_string()),
    ]);
    assert_eq!(actions.last(), Some(&DeletionAction::Fail));
    assert_eq!(deletion_step(DeletionPhase::Done, DeletionEvent::RowsDeleted(true)), None);
}

#[test]
fn deletion_of_an_unknown_meeting_reports_already_absent() {
    let actions = run_deletion(vec![DeletionEvent::MaintenanceResumed(true), DeletionEvent::MeetingLoaded(None)]);
    assert_eq!(
        actions[2],
        DeletionAction::Finish(DeletionSummary {
            already_absent: true,
            recording_cleanup: RecordingCleanupStatus::Absent,
            maintenance_pending: false,
        })
    );
}

#[test]
fn deletion_skips_folder_work_for_a_blank_path_and_keeps_shared_folders() {
    let blank = run_deletion(vec![
        DeletionEvent::MaintenanceResumed(true),
        DeletionEvent::MeetingLoaded(Some(Some("   ".to_string()))),
        DeletionEvent::RowsDeleted(false),
    ]);
    assert_eq!(blank[2], DeletionAction::DeleteRows);
    assert_eq!(
        blank[3],
        DeletionAction::Finish(DeletionSummary {
            already_absent: true,
            recording_cleanup: RecordingCleanupStatus::Absent,
            maintenance_pending: false,
        })
    );
    let shared = run_deletion(vec![
        DeletionEvent::MaintenanceResumed(true),
        DeletionEvent::MeetingLoaded(Some(Some("/recordings/shared".to_string()))),
        DeletionEvent::SharedChecked(true),
        DeletionEvent::OperationFailed,
    ]);
    assert_eq!(shared[3], DeletionAction::DeleteRows);
    assert_eq!(shared[4], DeletionAction::Fail);
}

fn names(items: &[&str]) -> Vec<String> {
    items.iter().map(|s| s.to_string()).collect()
}

#[test]
fn test_list_template_ids() {
    let ids = list_template_ids(&names(&["standard_meeting", "daily_standup"]), &[], &[]);
    assert!(ids.contains(&"daily_standup".to_string()));
    assert!(ids.contains(&"standard_meeting".to_string()));
}

#[test]
fn template_ids_merge_directories_sorted_and_once() {
    let ids = list_template_ids(
        &names(&["standard_meeting", "daily_standup"]),
        &names(&["retro.json", "notes.txt", "daily_standup.json"]),
        &names(&["custom_a.json.json", "custom_b.JSON", "retro.json"]),
    );
    assert_eq!(ids, names(&["custom_a", "daily_standup", "retro", "standard_meeting"]));
}

fn seconds_to_ms(seconds: f32) -> Option<i64> {
    let milliseconds = f64::from(seconds) * 1_000.0;
    (milliseconds.is_finite() && milliseconds >= i64::MIN as f64 && milliseconds <= i64::MAX as f64)
        .then(|| milliseconds.round() as i64)
}

#[test]
fn native_emission_timestamps_are_preserved_in_milliseconds() {
    let decoded = vec!["hello".to_string(), "hello world".to_string()];
    let starts: Vec<Option<i64>> = [0.08f32, 0.16].iter().map(|s| seconds_to_ms(*s)).collect();
    let result = transcript_result_from_native("hello world", &decoded, &starts);
    let timing = result.timing.expect("valid native timing");
    assert_eq!(timing.tokens[0].start_ms, 80);
    assert_eq!(timing.tokens[1].start_ms, 160);
    assert!(timing
        .tokens
        .iter()
        .all(|token| token.end_ms.is_none() && token.timing_source == TimingSource::NativeTokenEmission));
}

#[test]
fn invalid_native_timestamp_disables_timing_without_losing_text() {
    let decoded = vec!["hello".to_string()];
    let starts: Vec<Option<i64>> = [f32::NAN].iter().map(|s| seconds_to_ms(*s)).collect();
    let result = transcript_result_from_native("hello", &decoded, &starts);
    assert_eq!(result.text, "hello");
    assert!(result.timing.is_none());
}

#[test]
fn replacement_plan_keeps_short_only_clusters_out_of_the_meeting_speakers() {
    let old = vec![remap_turn(0, 1_000, "Alice", "speaker_01")];
    let new = vec![
        remap_turn(0, 1_000, "Speaker 1", ""),
        remap_turn(5_000, 5_300, "Speaker 2", ""),
        remap_turn(7_000, 7_200, "Speaker 3", ""),
    ];
    let plan = plan_replacement(&old, &new, &vec!["speaker_01".to_string()], &vec![], &vec!["speaker_03".to_string()]);
    assert_eq!(plan.turns.len(), 3);
    assert_eq!(plan.stored_keys, vec!["speaker_01".to_string(), "speaker_02".to_string(), "speaker_03".to_string()]);
    assert_eq!(plan.profile_turns, vec![0, 2]);
    let mut known = plan.known_keys.clone();
    known.sort();
    assert_eq!(known, vec!["speaker_01".to_string(), "speaker_03".to_string()]);

    let accepted = plan_replacement(&old, &new, &vec!["speaker_01".to_string()], &vec!["speaker_02".to_string()], &vec![]);
    assert_eq!(accepted.profile_turns, vec![0, 1]);
}

#[test]
fn template_sources_prefer_custom_then_bundled() {
    assert_eq!(huitrace::templates::template_source_label(true, true), "custom");
    assert_eq!(huitrace::templates::template_source_label(false, true), "bundled");
    assert_eq!(huitrace::templates::template_source_label(false, false), "builtin");
}
