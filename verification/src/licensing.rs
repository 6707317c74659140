//! Licensing: the application needs no licence, so every status is unrestricted.
use vstd::prelude::*;
use crate::text::owned;

verus! {

/// The licence state reported to the settings screen.
#[derive(Debug, Clone, Copy, PartialEq, Eq, Structural)]
pub enum LicensingStateKind {
    Licensed,
}

#[derive(Debug, Clone)]
pub struct LicensingStatus {
    pub state: LicensingStateKind,
    pub days_left: Option<i64>,
    pub plan: Option<String>,
    pub expires_at: Option<String>,
    pub display_key: Option<String>,
    pub reason: Option<String>,
    pub configured: bool,
}

/// The only status there is: licensed, with no trial, plan, expiry or key.
pub open spec fn is_unrestricted(s: LicensingStatus) -> bool {
    &&& s.state == LicensingStateKind::Licensed
    &&& s.days_left is None
    &&& s.plan is None
    &&& s.expires_at is None
    &&& s.display_key is None
    &&& s.reason is None
    &&& !s.configured
}

pub fn unrestricted_status() -> (result: LicensingStatus)
    ensures
        is_unrestricted(result),
{
    LicensingStatus {
        state: LicensingStateKind::Licensed,
        days_left: None,
        plan: None,
        expires_at: None,
        display_key: None,
        reason: None,
        configured: false,
    }
}

/// Activating a key is refused: no key is needed.
pub fn activate_license(key: String) -> (result: Result<LicensingStatus, String>)
    ensures
        result matches Err(e) && e@ == "NOT_CONFIGURED: HuiTrace does not require a license key."@,
{
    Err(owned("NOT_CONFIGURED: HuiTrace does not require a license key."))
}

/// Deactivating leaves the unrestricted status.
pub fn deactivate_license() -> (result: Result<LicensingStatus, String>)
    ensures
        result matches Ok(s) && is_unrestricted(s),
{
    Ok(unrestricted_status())
}

/// Capture never depends on licence state.
pub fn ensure_capture_allowed() -> (result: Result<(), String>)
    ensures
        result is Ok,
{
    Ok(())
}

} // verus!
