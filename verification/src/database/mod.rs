//! Storage rules: what may be written, and how stored identities are kept.

pub mod manager;
pub mod speaker_turn;
pub mod short_turn_event;
pub mod key_remap;
