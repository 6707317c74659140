//! The pre-recording consent gate: a one-use approval from the consent
//! dialog, and the short-lived ticket that exactly one recording start may
//! consume. Times are milliseconds on the caller's monotonic clock.
use vstd::prelude::*;
use crate::text::{owned, str_eq};

verus! {

/// How long a dialog approval or a ticket stays valid.
pub const CONSENT_TTL_MS: u64 = 60_000;

/// The error every refused start reports.
pub open spec fn consent_required_message() -> Seq<char> {
    "RECORDING_CONSENT_REQUIRED: Confirm participant recording consent before starting capture."@
}

pub fn consent_required_error() -> (result: String)
    ensures
        result@ == consent_required_message(),
{
    owned("RECORDING_CONSENT_REQUIRED: Confirm participant recording consent before starting capture.")
}

/// One approval from the consent dialog, bound to a tenant and a user.
#[derive(Debug)]
pub struct ConsentSession {
    confirmed: Option<(String, String, u64)>,
}

impl ConsentSession {
    /// The outstanding approval: tenant, user and expiry.
    pub closed spec fn approval(&self) -> Option<(Seq<char>, Seq<char>, u64)> {
        match self.confirmed {
            Some((t, u, e)) => Some((t@, u@, e)),
            None => None,
        }
    }

    /// A new process starts with no approval.
    pub fn new() -> (result: Self)
        ensures
            result.approval() is None,
    {
        ConsentSession { confirmed: None }
    }

    /// Records an approval for `tenant`/`user`, valid for a minute from `now`;
    /// it replaces any earlier one.
    pub fn confirm_at(&mut self, tenant: &str, user: &str, now: u64)
        requires
            now + CONSENT_TTL_MS <= u64::MAX,
        ensures
            final(self).approval() == Some((tenant@, user@, (now + CONSENT_TTL_MS) as u64)),
    {
        self.confirmed = Some((owned(tenant), owned(user), now + CONSENT_TTL_MS));
    }

    /// Uses up the approval: true only for the same tenant and user before
    /// it expires. Whatever the answer, no approval remains.
    pub fn take_confirmation_at(&mut self, tenant: &str, user: &str, now: u64) -> (granted: bool)
        ensures
            (granted, final(self).approval()) == take_outcome(old(self).approval(), tenant@, user@, now),
    {
        let taken = self.confirmed.take();
        match taken {
            Some((t, u, expiry)) => str_eq(t.as_str(), tenant) && str_eq(u.as_str(), user) && now < expiry,
            None => false,
        }
    }
}

/// What taking an approval answers, and what remains (nothing).
pub open spec fn take_outcome(
    approval: Option<(Seq<char>, Seq<char>, u64)>,
    tenant: Seq<char>,
    user: Seq<char>,
    now: u64,
) -> (bool, Option<(Seq<char>, Seq<char>, u64)>) {
    (
        match approval {
            Some((t, u, expiry)) => t == tenant && u == user && now < expiry,
            None => false,
        },
        None,
    )
}

/// Law: without an approval nothing is granted.
pub proof fn law_approval_required(tenant: Seq<char>, user: Seq<char>, now: u64)
    ensures
        !take_outcome(None, tenant, user, now).0,
{
}

/// Law: an approval is good for one recording start only.
pub proof fn law_approval_single_use(
    approval: Option<(Seq<char>, Seq<char>, u64)>,
    tenant: Seq<char>,
    user: Seq<char>,
    now: u64,
    tenant2: Seq<char>,
    user2: Seq<char>,
    later: u64,
)
    ensures
        !take_outcome(take_outcome(approval, tenant, user, now).1, tenant2, user2, later).0,
{
}

/// Law: a fresh approval is granted to its own tenant and user, and to no other.
pub proof fn law_approval_bound_to_context(tenant: Seq<char>, user: Seq<char>, other: Seq<char>, now: u64)
    requires
        now + CONSENT_TTL_MS <= u64::MAX,
        other != tenant,
    ensures
        take_outcome(Some((tenant, user, (now + CONSENT_TTL_MS) as u64)), tenant, user, now).0,
        !take_outcome(Some((tenant, user, (now + CONSENT_TTL_MS) as u64)), other, user, now).0,
        !take_outcome(Some((tenant, user, (now + CONSENT_TTL_MS) as u64)), tenant, user, (now + CONSENT_TTL_MS) as u64).0,
{
}

/// Why a presented ticket was refused.
#[derive(Debug, Clone, Copy, PartialEq, Eq, Structural)]
pub enum TicketValidationError {
    Missing,
    Expired,
    Invalid,
    ContextMismatch,
}

/// The single outstanding recording-start ticket, if any.
#[derive(Debug)]
pub struct ConsentTickets {
    current: Option<(String, String, String, u64)>,
}

impl ConsentTickets {
    /// The outstanding ticket: token, tenant, user and expiry.
    pub closed spec fn ticket(&self) -> Option<(Seq<char>, Seq<char>, Seq<char>, u64)> {
        match self.current {
            Some((k, t, u, e)) => Some((k@, t@, u@, e)),
            None => None,
        }
    }

    pub fn new() -> (result: Self)
        ensures
            result.ticket() is None,
    {
        ConsentTickets { current: None }
    }

    /// Issues `token` for `tenant`/`user`, valid for a minute from `now`. An
    /// older ticket is invalidated.
    pub fn issue_at(&mut self, token: String, tenant: &str, user: &str, now: u64)
        requires
            now + CONSENT_TTL_MS <= u64::MAX,
        ensures
            final(self).ticket() == Some((token@, tenant@, user@, (now + CONSENT_TTL_MS) as u64)),
    {
        self.current = Some((token, owned(tenant), owned(user), now + CONSENT_TTL_MS));
    }

    /// Consumes the outstanding ticket. It is removed whatever the outcome;
    /// the checks run in order: present, unexpired, same token, same context.
    pub fn consume_at(&mut self, token: &str, tenant: &str, user: &str, now: u64) -> (result: Result<(), TicketValidationError>)
        ensures
            (result, final(self).ticket()) == consume_outcome(old(self).ticket(), token@, tenant@, user@, now),
    {
        let taken = self.current.take();
        match taken {
            None => Err(TicketValidationError::Missing),
            Some((k, t, u, expiry)) => {
                if now >= expiry {
                    Err(TicketValidationError::Expired)
                } else if !str_eq(k.as_str(), token) {
                    Err(TicketValidationError::Invalid)
                } else if !str_eq(t.as_str(), tenant) || !str_eq(u.as_str(), user) {
                    Err(TicketValidationError::ContextMismatch)
                } else {
                    Ok(())
                }
            },
        }
    }
}

/// What consuming a ticket answers, and what remains (nothing).
pub open spec fn consume_outcome(
    ticket: Option<(Seq<char>, Seq<char>, Seq<char>, u64)>,
    token: Seq<char>,
    tenant: Seq<char>,
    user: Seq<char>,
    now: u64,
) -> (Result<(), TicketValidationError>, Option<(Seq<char>, Seq<char>, Seq<char>, u64)>) {
    (
        match ticket {
            None => Err(TicketValidationError::Missing),
            Some((k, t, u, expiry)) => if now >= expiry {
                Err(TicketValidationError::Expired)
            } else if k != token {
                Err(TicketValidationError::Invalid)
            } else if t != tenant || u != user {
                Err(TicketValidationError::ContextMismatch)
            } else {
                Ok(())
            },
        },
        None,
    )
}

/// Law: a ticket admits at most one recording start; any second
/// presentation finds no ticket.
pub proof fn law_ticket_single_use(
    ticket: Option<(Seq<char>, Seq<char>, Seq<char>, u64)>,
    token: Seq<char>,
    tenant: Seq<char>,
    user: Seq<char>,
    now: u64,
    token2: Seq<char>,
    tenant2: Seq<char>,
    user2: Seq<char>,
    later: u64,
)
    ensures
        consume_outcome(consume_outcome(ticket, token, tenant, user, now).1, token2, tenant2, user2, later).0
            == Err::<(), TicketValidationError>(TicketValidationError::Missing),
{
}

/// Law: a freshly issued ticket admits its own token and context until it
/// expires.
pub proof fn law_fresh_ticket_admits(token: Seq<char>, tenant: Seq<char>, user: Seq<char>, now: u64, at: u64)
    requires
        now + CONSENT_TTL_MS <= u64::MAX,
        at < now + CONSENT_TTL_MS,
    ensures
        consume_outcome(Some((token, tenant, user, (now + CONSENT_TTL_MS) as u64)), token, tenant, user, at).0
            == Ok::<(), TicketValidationError>(()),
{
}

/// A ticket is issued for a fresh dialog approval, or for a remembered
/// acknowledgement unless the user asked to be asked every time.
pub fn may_authorize(confirmed: bool, acknowledged: Option<bool>, always_ask: Option<bool>) -> (result: bool)
    ensures
        result == (confirmed || (acknowledged == Some(true) && always_ask != Some(true))),
{
    confirmed || (acknowledged == Some(true) && always_ask != Some(true))
}

} // verus!
