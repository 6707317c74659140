//! The diarization engine boundary. The sidecar helper is the shipped engine.
use vstd::prelude::*;

verus! {

/// The external diarization helper process.
#[derive(Debug, Clone, Copy, Default)]
pub struct SidecarDiarizationBackend;

impl SidecarDiarizationBackend {
    /// The name the helper is reported under.
    pub fn name(&self) -> (result: &'static str)
        ensures
            result@ == "diarize-helper"@,
    {
        "diarize-helper"
    }
}

} // verus!
