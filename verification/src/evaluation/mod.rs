//! Offline evaluation: benchmark alignment, datasets and annotation QA.

pub mod alignment;
pub mod dataset;
pub mod annotation;
pub mod production_artifact;
pub mod utterance_ground_truth;
pub mod short_turn_export;
pub mod speaker_alignment;
pub mod utterance_alignment;
pub mod boundary_matching;
pub mod temporal_matching;
