//! Speaker diarization: timeline types, short-turn events and job orchestration.

pub mod types;
pub mod timeline;
pub mod short_turn;
pub mod events;
pub mod offline;
pub mod backend;
pub mod service;
