//! The route gate and the login/logout decision logic.
//!
//! These functions take the request data the transport layer extracted (the
//! form fields of a login attempt, the session token of a cookie) and decide
//! what the response must be and how the session store changes. The HTTP
//! layer performs the decisions: it runs the protected handler only on
//! [`GateOutcome::Proceed`], sets the cookie and status that the decision
//! names, and never decides on its own.

use vstd::prelude::*;
use crate::credential::{attempt_accepted, Identity, LoginAttempt, verify};
use crate::session::{binding_of, session_valid, SessionStore};

verus! {

/// What the route gate decides for one request to a protected route.
#[derive(Clone, Copy, PartialEq, Eq, Structural, Debug)]
pub enum GateOutcome {
    /// The session is valid: run the protected handler with this identity id
    /// attached to the request.
    Proceed(i64),
    /// No valid session: redirect to the login entry path; the protected
    /// handler must not run.
    RedirectToLogin,
}

/// What the route gate decides, as a function of the store's state, the
/// presented token and the current identity.
pub open spec fn gate_outcome(
    sessions: Map<u128, crate::session::SessionBinding>,
    token: Option<u128>,
    identity: Identity,
) -> GateOutcome {
    match token {
        Some(t) => if session_valid(sessions, t, identity) {
            GateOutcome::Proceed(sessions[t].user_id)
        } else {
            GateOutcome::RedirectToLogin
        },
        None => GateOutcome::RedirectToLogin,
    }
}

/// The route gate: run before the handler of every protected route. Lets the
/// request through exactly when the presented token names a valid session.
pub fn gate(store: &SessionStore, token: Option<u128>, identity: &Identity) -> (d: GateOutcome)
    ensures
        d == gate_outcome(store@, token, *identity),
{
    match token {
        Some(t) => match store.validate(t, identity) {
            Some(user_id) => GateOutcome::Proceed(user_id),
            None => GateOutcome::RedirectToLogin,
        },
        None => GateOutcome::RedirectToLogin,
    }
}

/// Law: the route gate redirects every request carrying no token, a token
/// the store does not hold, or a token that was invalidated, and so the
/// protected handler never runs for such a request.
pub proof fn lemma_gate_rejects_without_session(
    sessions: Map<u128, crate::session::SessionBinding>,
    token: u128,
    identity: Identity,
)
    ensures
        gate_outcome(sessions, None, identity) == GateOutcome::RedirectToLogin,
        !sessions.contains_key(token) ==> gate_outcome(sessions, Some(token), identity)
            == GateOutcome::RedirectToLogin,
        gate_outcome(sessions.remove(token), Some(token), identity)
            == GateOutcome::RedirectToLogin,
{
}

/// What the login handler decides for one `POST` to the login route.
#[derive(Clone, Copy, PartialEq, Eq, Structural, Debug)]
pub enum LoginResponse {
    /// The credentials verified: a session was created under this token; set
    /// it as the session cookie and redirect to the protected home path.
    RedirectHome(u128),
    /// The credentials did not verify: answer with an unauthorized status and
    /// no detail on which field was wrong; no session was created.
    Unauthorized,
    /// The session manager failed internally: answer with a server error
    /// status; access is never granted on a fault.
    ServerError,
}

impl LoginResponse {
    /// The HTTP status the transport layer must answer with.
    pub fn status_code(&self) -> (code: u16)
        ensures
            code == (match *self {
                LoginResponse::RedirectHome(_) => 303u16,
                LoginResponse::Unauthorized => 401u16,
                LoginResponse::ServerError => 500u16,
            }),
    {
        match *self {
            LoginResponse::RedirectHome(_) => 303,
            LoginResponse::Unauthorized => 401,
            LoginResponse::ServerError => 500,
        }
    }
}

/// The login handler: verifies the attempt against the current identity and,
/// on success, issues a session bound to it. On a credential mismatch the
/// store is untouched and the answer is unauthorized; on a session-manager
/// fault the store is untouched and the answer is a server error, never
/// access.
pub fn login(store: &mut SessionStore, identity: &Identity, attempt: &LoginAttempt) -> (r:
    LoginResponse)
    ensures
        r matches LoginResponse::RedirectHome(token) ==> attempt_accepted(*attempt, *identity)
            && !old(store)@.contains_key(token) && final(store)@ == old(store)@.insert(
            token,
            binding_of(*identity),
        ),
        r is Unauthorized <==> !attempt_accepted(*attempt, *identity),
        r is Unauthorized || r is ServerError ==> final(store)@ == old(store)@,
        attempt_accepted(*attempt, *identity) && old(store)@.len() == 0 ==> r is RedirectHome,
{
    if verify(attempt, identity.credential_hash.as_str()) {
        match store.create_session(identity) {
            Ok(token) => LoginResponse::RedirectHome(token),
            Err(_) => LoginResponse::ServerError,
        }
    } else {
        LoginResponse::Unauthorized
    }
}

/// The logout handler: invalidates the presented token, if any. The caller
/// always redirects to the login entry path afterwards, whether or not a
/// session existed.
pub fn logout(store: &mut SessionStore, token: Option<u128>)
    ensures
        final(store)@ == (match token {
            Some(t) => old(store)@.remove(t),
            None => old(store)@,
        }),
{
    if let Some(t) = token {
        store.invalidate(t);
    }
}

} // verus!
