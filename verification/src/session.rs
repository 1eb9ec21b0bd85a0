//! The session manager: an in-memory store of active sessions keyed by an
//! opaque random token.
//!
//! A session binds a token to the identity it was issued for, together with a
//! fingerprint of the credential hash at issuance time; the binding is valid
//! only while that fingerprint still equals the current identity's hash. The
//! store lives for the process lifetime only and is meant to be guarded by an
//! exclusive lock when shared between concurrent requests.

use vstd::prelude::*;
use std::collections::HashMap;
use crate::credential::Identity;

verus! {

broadcast use vstd::std_specs::hash::group_hash_axioms;

/// How many fresh random tokens are drawn before session creation gives up.
/// Each draw collides with an existing token with probability 2^-128 per
/// stored session, so exhausting the bound amounts to an engine fault.
pub const TOKEN_DRAW_BOUND: usize = 8;

/// What a session stores about the browser it authenticates: the bound
/// identity id and the credential hash the identity had when the session was
/// issued.
pub struct SessionBinding {
    pub user_id: i64,
    pub auth_hash_fingerprint: String,
}

/// The binding a freshly issued session records for `identity`.
pub open spec fn binding_of(identity: Identity) -> SessionBinding {
    SessionBinding { user_id: identity.id, auth_hash_fingerprint: identity.credential_hash }
}

/// A token is valid exactly when the store holds a binding for it whose
/// fingerprint equals the current identity's credential hash.
pub open spec fn session_valid(
    sessions: Map<u128, SessionBinding>,
    token: u128,
    identity: Identity,
) -> bool {
    sessions.contains_key(token) && sessions[token].auth_hash_fingerprint@
        == identity.credential_hash@
}

/// Failures of the session manager.
#[derive(Clone, Copy, PartialEq, Eq, Structural, Debug)]
pub enum SessionError {
    /// No unused token was found within [`TOKEN_DRAW_BOUND`] random draws.
    TokenExhausted,
}

/// Relies on `rand::random`: a token drawn from the thread-local CSPRNG.
/// Nothing is promised of the value; every caller must cope with any token.
#[verifier::external_body]
fn random_token() -> u128 {
    rand::random::<u128>()
}

/// The in-memory session store, keyed by token. Its abstract state is the map
/// from tokens to bindings.
pub struct SessionStore {
    sessions: HashMap<u128, SessionBinding>,
}

impl View for SessionStore {
    type V = Map<u128, SessionBinding>;

    closed spec fn view(&self) -> Map<u128, SessionBinding> {
        self.sessions@
    }
}

impl SessionStore {
    /// An empty store; created once at startup.
    pub fn new() -> (store: SessionStore)
        ensures
            store@ == Map::<u128, SessionBinding>::empty(),
    {
        SessionStore { sessions: HashMap::new() }
    }

    /// The number of active sessions.
    pub fn session_count(&self) -> (n: usize)
        ensures
            n == self@.len(),
    {
        self.sessions.len()
    }

    /// Issues a session for `identity`: draws an unguessable token that is
    /// not in use, stores the binding under it and returns it. Fails, leaving
    /// the store unchanged, only when every one of [`TOKEN_DRAW_BOUND`] draws
    /// collided with a stored token — which an empty store cannot do, so on
    /// an empty store a session is always issued.
    pub fn create_session(&mut self, identity: &Identity) -> (r: Result<u128, SessionError>)
        ensures
            r matches Ok(token) ==> !old(self)@.contains_key(token) && final(self)@ == old(
                self,
            )@.insert(token, binding_of(*identity)),
            r is Err ==> final(self)@ == old(self)@,
            old(self)@.len() == 0 ==> r is Ok,
    {
        let mut draws: usize = 0;
        while draws < TOKEN_DRAW_BOUND
            invariant
                *self == *old(self),
                draws > 0 ==> old(self)@.len() > 0,
            decreases TOKEN_DRAW_BOUND - draws,
        {
            let token = random_token();
            if !self.sessions.contains_key(&token) {
                let binding = SessionBinding {
                    user_id: identity.id,
                    auth_hash_fingerprint: identity.credential_hash.clone(),
                };
                self.sessions.insert(token, binding);
                return Ok(token);
            }
            proof {
                assert(self@.dom().contains(token));
                assert(self@.dom().finite());
                if self@.dom().len() == 0 {
                    self@.dom().lemma_len0_is_empty();
                }
            }
            draws = draws + 1;
        }
        Err(SessionError::TokenExhausted)
    }

    /// Looks a token up: returns the bound identity id if the token is held
    /// and its fingerprint still equals the current identity's credential
    /// hash, and `None` otherwise. An unknown token is a normal outcome, not
    /// an error.
    pub fn validate(&self, token: u128, identity: &Identity) -> (r: Option<i64>)
        ensures
            r == (if session_valid(self@, token, *identity) {
                Some(self@[token].user_id)
            } else {
                None::<i64>
            }),
    {
        match self.sessions.get(&token) {
            Some(binding) => {
                if binding.auth_hash_fingerprint == identity.credential_hash {
                    Some(binding.user_id)
                } else {
                    None
                }
            },
            None => None,
        }
    }

    /// Removes the binding under `token`, if any. Idempotent: invalidating an
    /// absent token leaves the store as it is.
    pub fn invalidate(&mut self, token: u128)
        ensures
            final(self)@ == old(self)@.remove(token),
    {
        self.sessions.remove(&token);
    }
}

/// Law: the session lifecycle. Once a binding for `identity` is stored under
/// `token`, that token validates to the identity's id; after the token is
/// invalidated it no longer validates; and invalidating it a second time
/// changes nothing.
pub proof fn lemma_session_lifecycle(
    sessions: Map<u128, SessionBinding>,
    token: u128,
    identity: Identity,
)
    ensures
        session_valid(sessions.insert(token, binding_of(identity)), token, identity),
        sessions.insert(token, binding_of(identity))[token].user_id == identity.id,
        !session_valid(sessions.insert(token, binding_of(identity)).remove(token), token, identity),
        sessions.insert(token, binding_of(identity)).remove(token).remove(token) == sessions.insert(
            token,
            binding_of(identity),
        ).remove(token),
{
    let removed = sessions.insert(token, binding_of(identity)).remove(token);
    assert(removed.remove(token) =~= removed);
}

/// Law: a session is valid only while its stored fingerprint equals the
/// current identity's credential hash. If the identity's hash is ever
/// rotated, every session issued under the old hash stops validating, with
/// no need to sweep the store.
pub proof fn lemma_rotation_invalidates_sessions(
    sessions: Map<u128, SessionBinding>,
    token: u128,
    current: Identity,
)
    requires
        sessions.contains_key(token) ==> sessions[token].auth_hash_fingerprint@
            != current.credential_hash@,
    ensures
        !session_valid(sessions, token, current),
{
}

/// Law: operations under one token never touch the entry under another.
/// Inserting or removing a binding for `t1` changes neither the presence nor
/// the value of the binding for a distinct `t2`, and in particular leaves its
/// validity as it was.
pub proof fn lemma_distinct_tokens_independent(
    sessions: Map<u128, SessionBinding>,
    t1: u128,
    t2: u128,
    binding: SessionBinding,
    identity: Identity,
)
    requires
        t1 != t2,
    ensures
        sessions.insert(t1, binding).contains_key(t2) == sessions.contains_key(t2),
        sessions.contains_key(t2) ==> sessions.insert(t1, binding)[t2] == sessions[t2],
        sessions.remove(t1).contains_key(t2) == sessions.contains_key(t2),
        sessions.contains_key(t2) ==> sessions.remove(t1)[t2] == sessions[t2],
        session_valid(sessions.insert(t1, binding), t2, identity) == session_valid(
            sessions,
            t2,
            identity,
        ),
        session_valid(sessions.remove(t1), t2, identity) == session_valid(sessions, t2, identity),
{
}

} // verus!
