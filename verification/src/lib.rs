pub mod text;
pub mod strings;
pub mod hashing;
pub mod ui_language;
pub mod notifications;
pub mod transcription;
pub mod evaluation;
pub mod diarization;
pub mod database;
pub mod recording_consent;
pub mod licensing;
pub mod templates;
