//! Desktop notifications: the message, how urgent it is, how long it stays,
//! and the canned notifications the recorder raises.
use vstd::prelude::*;
use crate::text::{concat, owned, u64_to_decimal, decimal};
use crate::ui_language::{text, is_chinese, UiLanguage};

verus! {

#[derive(Clone, Debug)]
pub enum NotificationType {
    RecordingStarted,
    RecordingStopped,
    RecordingPaused,
    RecordingResumed,
    TranscriptionComplete,
    /// Minutes until the meeting starts.
    MeetingReminder(u64),
    SystemError(String),
    Test,
}

#[derive(Clone, Copy, Debug, PartialEq, Eq, Structural)]
pub enum NotificationPriority {
    Low,
    Normal,
    High,
    Critical,
}

#[derive(Clone, Copy, Debug, PartialEq, Eq, Structural)]
pub enum NotificationTimeout {
    Never,
    Seconds(u64),
    Default,
}

#[derive(Clone, Copy, Debug, PartialEq, Eq, Structural)]
pub enum NotificationActionType {
    Button,
    Reply,
}

#[derive(Clone, Debug)]
pub struct NotificationAction {
    pub id: String,
    pub title: String,
    pub action_type: NotificationActionType,
}

#[derive(Clone, Debug)]
pub struct Notification {
    pub id: Option<String>,
    pub title: String,
    pub body: String,
    pub notification_type: NotificationType,
    pub priority: NotificationPriority,
    pub timeout: NotificationTimeout,
    pub icon: Option<String>,
    pub sound: bool,
    pub actions: Vec<NotificationAction>,
}

impl Default for NotificationPriority {
    fn default() -> (result: Self)
        ensures
            result == NotificationPriority::Normal,
    {
        NotificationPriority::Normal
    }
}

impl Default for NotificationTimeout {
    fn default() -> (result: Self)
        ensures
            result == NotificationTimeout::Default,
    {
        NotificationTimeout::Default
    }
}

/// The text for `language`, as a sequence.
pub open spec fn pick(language: UiLanguage, en: Seq<char>, zh: Seq<char>) -> Seq<char> {
    if language == UiLanguage::Chinese {
        zh
    } else {
        en
    }
}

/// A fresh notification: no id, no icon, no actions, sound on, normal
/// priority and the platform's default timeout.
pub open spec fn is_fresh(n: Notification, title: Seq<char>, body: Seq<char>, kind: NotificationType) -> bool {
    &&& n.id is None
    &&& n.title@ == title
    &&& n.body@ == body
    &&& n.notification_type == kind
    &&& n.priority == NotificationPriority::Normal
    &&& n.timeout == NotificationTimeout::Default
    &&& n.icon is None
    &&& n.sound
    &&& n.actions@.len() == 0
}

/// A canned notification: fresh, then given `priority` and `timeout`.
pub open spec fn is_canned(
    n: Notification,
    title: Seq<char>,
    body: Seq<char>,
    kind: NotificationType,
    priority: NotificationPriority,
    timeout: NotificationTimeout,
) -> bool {
    &&& n.id is None
    &&& n.title@ == title
    &&& n.body@ == body
    &&& n.notification_type == kind
    &&& n.priority == priority
    &&& n.timeout == timeout
    &&& n.icon is None
    &&& n.sound
    &&& n.actions@.len() == 0
}

impl Notification {
    pub fn new(title: String, body: String, notification_type: NotificationType) -> (result: Self)
        ensures
            is_fresh(result, title@, body@, notification_type),
    {
        Notification {
            id: None,
            title,
            body,
            notification_type,
            priority: NotificationPriority::Normal,
            timeout: NotificationTimeout::Default,
            icon: None,
            sound: true,
            actions: Vec::new(),
        }
    }

    pub fn with_priority(self, priority: NotificationPriority) -> (result: Self)
        ensures
            result == (Notification { priority, ..self }),
    {
        let mut n = self;
        n.priority = priority;
        n
    }

    pub fn with_timeout(self, timeout: NotificationTimeout) -> (result: Self)
        ensures
            result == (Notification { timeout, ..self }),
    {
        let mut n = self;
        n.timeout = timeout;
        n
    }

    pub fn with_sound(self, sound: bool) -> (result: Self)
        ensures
            result == (Notification { sound, ..self }),
    {
        let mut n = self;
        n.sound = sound;
        n
    }

    pub fn with_icon(self, icon: String) -> (result: Self)
        ensures
            result == (Notification { icon: Some(icon), ..self }),
    {
        let mut n = self;
        n.icon = Some(icon);
        n
    }

    pub fn with_id(self, id: String) -> (result: Self)
        ensures
            result == (Notification { id: Some(id), ..self }),
    {
        let mut n = self;
        n.id = Some(id);
        n
    }

    /// Appends `action` after the actions already present.
    pub fn add_action(self, action: NotificationAction) -> (result: Self)
        ensures
            result.actions@ == self.actions@.push(action),
            result.id == self.id,
            result.title == self.title,
            result.body == self.body,
            result.notification_type == self.notification_type,
            result.priority == self.priority,
            result.timeout == self.timeout,
            result.icon == self.icon,
            result.sound == self.sound,
    {
        let mut n = self;
        n.actions.push(action);
        n
    }

    pub fn recording_started(language: UiLanguage, meeting_name: Option<String>) -> (result: Self)
        ensures
            is_canned(
                result,
                "HuiTrace"@,
                match meeting_name {
                    Some(name) => pick(language, "Recording started for meeting: "@, "已开始会议录音："@) + name@,
                    None => pick(
                        language,
                        "Recording has started. Please inform others in the meeting that you are recording."@,
                        "录音已开始，请告知其他会议参与者。"@,
                    ),
                },
                NotificationType::RecordingStarted,
                NotificationPriority::High,
                NotificationTimeout::Seconds(5),
            ),
    {
        let body = match meeting_name {
            Some(name) => concat(
                text(language, "Recording started for meeting: ", "已开始会议录音："),
                name.as_str(),
            ),
            None => owned(
                text(
                    language,
                    "Recording has started. Please inform others in the meeting that you are recording.",
                    "录音已开始，请告知其他会议参与者。",
                ),
            ),
        };
        Notification::new(owned("HuiTrace"), body, NotificationType::RecordingStarted).with_priority(
            NotificationPriority::High,
        ).with_timeout(NotificationTimeout::Seconds(5))
    }

    pub fn recording_stopped(language: UiLanguage) -> (result: Self)
        ensures
            is_canned(
                result,
                "HuiTrace"@,
                pick(language, "Recording has been stopped and saved"@, "录音已停止并保存"@),
                NotificationType::RecordingStopped,
                NotificationPriority::Normal,
                NotificationTimeout::Seconds(3),
            ),
    {
        Notification::new(
            owned("HuiTrace"),
            owned(text(language, "Recording has been stopped and saved", "录音已停止并保存")),
            NotificationType::RecordingStopped,
        ).with_priority(NotificationPriority::Normal).with_timeout(NotificationTimeout::Seconds(3))
    }

    pub fn recording_paused(language: UiLanguage) -> (result: Self)
        ensures
            is_canned(
                result,
                "HuiTrace"@,
                pick(language, "Recording has been paused"@, "录音已暂停"@),
                NotificationType::RecordingPaused,
                NotificationPriority::Normal,
                NotificationTimeout::Seconds(3),
            ),
    {
        Notification::new(
            owned("HuiTrace"),
            owned(text(language, "Recording has been paused", "录音已暂停")),
            NotificationType::RecordingPaused,
        ).with_priority(NotificationPriority::Normal).with_timeout(NotificationTimeout::Seconds(3))
    }

    pub fn recording_resumed(language: UiLanguage) -> (result: Self)
        ensures
            is_canned(
                result,
                "HuiTrace"@,
                pick(language, "Recording has been resumed"@, "录音已继续"@),
                NotificationType::RecordingResumed,
                NotificationPriority::Normal,
                NotificationTimeout::Seconds(3),
            ),
    {
        Notification::new(
            owned("HuiTrace"),
            owned(text(language, "Recording has been resumed", "录音已继续")),
            NotificationType::RecordingResumed,
        ).with_priority(NotificationPriority::Normal).with_timeout(NotificationTimeout::Seconds(3))
    }

    pub fn transcription_complete(language: UiLanguage, file_path: Option<String>) -> (result: Self)
        ensures
            is_canned(
                result,
                "HuiTrace"@,
                match file_path {
                    Some(path) => pick(
                        language,
                        "Transcription completed and saved to: "@,
                        "转写已完成并保存至："@,
                    ) + path@,
                    None => pick(language, "Transcription has been completed"@, "转写已完成"@),
                },
                NotificationType::TranscriptionComplete,
                NotificationPriority::Normal,
                NotificationTimeout::Seconds(5),
            ),
    {
        let body = match file_path {
            Some(path) => if is_chinese(language) {
                concat("转写已完成并保存至：", path.as_str())
            } else {
                concat("Transcription completed and saved to: ", path.as_str())
            },
            None => owned(text(language, "Transcription has been completed", "转写已完成")),
        };
        Notification::new(owned("HuiTrace"), body, NotificationType::TranscriptionComplete).with_priority(
            NotificationPriority::Normal,
        ).with_timeout(NotificationTimeout::Seconds(5))
    }

    pub fn meeting_reminder(language: UiLanguage, minutes_until: u64, meeting_title: Option<String>) -> (result: Self)
        ensures
            is_canned(
                result,
                "HuiTrace"@,
                match meeting_title {
                    Some(title) => if language == UiLanguage::Chinese {
                        "会议“"@ + title@ + "”将在 "@ + decimal(minutes_until as nat) + " 分钟后开始"@
                    } else {
                        "Meeting '"@ + title@ + "' starts in "@ + decimal(minutes_until as nat) + " minutes"@
                    },
                    None => if language == UiLanguage::Chinese {
                        "会议将在 "@ + decimal(minutes_until as nat) + " 分钟后开始"@
                    } else {
                        "Meeting starts in "@ + decimal(minutes_until as nat) + " minutes"@
                    },
                },
                NotificationType::MeetingReminder(minutes_until),
                NotificationPriority::High,
                NotificationTimeout::Seconds(10),
            ),
    {
        let minutes = u64_to_decimal(minutes_until);
        let chinese = is_chinese(language);
        let mut body = match &meeting_title {
            Some(title) => if chinese {
                concat("会议“", title.as_str())
            } else {
                concat("Meeting '", title.as_str())
            },
            None => if chinese {
                owned("会议将在 ")
            } else {
                owned("Meeting starts in ")
            },
        };
        if meeting_title.is_some() {
            if chinese {
                body.append("”将在 ");
            } else {
                body.append("' starts in ");
            }
        }
        body.append(minutes.as_str());
        if chinese {
            body.append(" 分钟后开始");
        } else {
            body.append(" minutes");
        }
        Notification::new(owned("HuiTrace"), body, NotificationType::MeetingReminder(minutes_until)).with_priority(
            NotificationPriority::High,
        ).with_timeout(NotificationTimeout::Seconds(10))
    }

    /// An error notification: the error is both the body and the payload, it
    /// is critical and it never times out.
    pub fn system_error(language: UiLanguage, error: String) -> (result: Self)
        ensures
            result.title@ == pick(language, "HuiTrace Error"@, "HuiTrace 错误"@),
            result.body@ == error@,
            result.notification_type matches NotificationType::SystemError(e) && e@ == error@,
            result.priority == NotificationPriority::Critical,
            result.timeout == NotificationTimeout::Never,
            result.id is None,
            result.icon is None,
            result.sound,
            result.actions@.len() == 0,
    {
        let body = error.clone();
        let payload = error.clone();
        Notification::new(
            owned(text(language, "HuiTrace Error", "HuiTrace 错误")),
            body,
            NotificationType::SystemError(payload),
        ).with_priority(NotificationPriority::Critical).with_timeout(NotificationTimeout::Never)
    }

    pub fn test_notification(language: UiLanguage) -> (result: Self)
        ensures
            is_canned(
                result,
                "HuiTrace"@,
                pick(
                    language,
                    "This is a test notification to verify the system is working correctly"@,
                    "这是一条测试通知，用于确认通知系统运行正常"@,
                ),
                NotificationType::Test,
                NotificationPriority::Normal,
                NotificationTimeout::Seconds(5),
            ),
    {
        Notification::new(
            owned("HuiTrace"),
            owned(
                text(
                    language,
                    "This is a test notification to verify the system is working correctly",
                    "这是一条测试通知，用于确认通知系统运行正常",
                ),
            ),
            NotificationType::Test,
        ).with_priority(NotificationPriority::Normal).with_timeout(NotificationTimeout::Seconds(5))
    }
}

} // verus!
