//! Credential derivation and verification.
//!
//! The device has exactly one verifiable secret: a salted SHA-512 crypt hash
//! of the serial number followed by the shared secret, derived once at
//! startup. A login attempt is verified by recomputing the same concatenation
//! and checking it against the stored hash.

use vstd::prelude::*;
use vstd::string::StringExecFns;

verus! {

/// Round count for the salted SHA-512 credential hash, the scheme's default.
pub const HASH_ROUNDS: usize = 5000;

/// What `sha_crypt::sha512_check` computes: whether the encoded hash `hash`
/// (prefix, optional round count, salt and digest) matches the password `pw`.
/// The check is deterministic in its two arguments.
pub uninterp spec fn sha512_accepts(pw: Seq<char>, hash: Seq<char>) -> bool;

/// The exact text that is hashed for the device credential: the serial
/// number, then the shared secret. The order matters and is the same on the
/// deriving and the verifying side.
pub open spec fn credential_input(serial_number: Seq<char>, shared_secret: Seq<char>) -> Seq<char> {
    serial_number + shared_secret
}

/// Failures of the hashing subsystem. Neither can arise under the fixed
/// default round count; either would be fatal at startup, since a process
/// that cannot derive its own credential must not serve.
#[derive(Clone, Copy, PartialEq, Eq, Structural, Debug)]
pub enum HashError {
    /// The requested round count lies outside the range the scheme allows.
    Rounds,
    /// The hash engine failed to produce an encoded hash.
    Engine,
}

/// Relies on `sha_crypt::Sha512Params::new` and `sha_crypt::sha512_simple`:
/// the round count is accepted exactly when it lies in `1_000..=999_999_999`,
/// and with accepted parameters the hash cannot fail — the round-range check
/// is the only error path of the computation, and the crypt-base64 encoding
/// of the digest is ASCII, so the final text conversion succeeds. The encoded
/// hash, produced under a freshly drawn random salt, is accepted by
/// `sha_crypt::sha512_check` for the same password. The salt is random, so
/// two calls on the same password may return different encodings.
#[verifier::external_body]
fn sha512_hash(password: &str, rounds: usize) -> (r: Result<String, HashError>)
    ensures
        r is Ok <==> 1000 <= rounds <= 999_999_999,
        r matches Ok(h) ==> sha512_accepts(password@, h@),
{
    match sha_crypt::Sha512Params::new(rounds) {
        Ok(params) => sha_crypt::sha512_simple(password, &params).map_err(|_| HashError::Engine),
        Err(_) => Err(HashError::Rounds),
    }
}

/// Relies on `sha_crypt::sha512_check`: deterministic in the password and the
/// encoded hash, `Ok` exactly when the hash accepts the password, and `Err`
/// on any mismatch, malformed encoding or internal fault. The digest
/// comparison inside the crate is constant-time; no raw secret is compared
/// with an early exit.
#[verifier::external_body]
fn sha512_matches(password: &str, hash: &str) -> (r: bool)
    ensures
        r == sha512_accepts(password@, hash@),
{
    sha_crypt::sha512_check(password, hash).is_ok()
}

/// Derives the device credential hash from the serial number and the shared
/// secret: a salted SHA-512 crypt hash of their concatenation, under
/// [`HASH_ROUNDS`] rounds and a fresh random salt embedded in the encoding.
/// Succeeds on every input; the error type only mirrors the engine's and is
/// kept for callers that pick their own round count some day.
pub fn derive(serial_number: &str, shared_secret: &str) -> (r: Result<String, HashError>)
    ensures
        r is Ok,
        r matches Ok(h) ==> sha512_accepts(
            credential_input(serial_number@, shared_secret@),
            h@,
        ),
{
    let mut input = serial_number.to_owned();
    input.append(shared_secret);
    sha512_hash(input.as_str(), HASH_ROUNDS)
}

/// A login attempt as submitted by the form: both fields are
/// attacker-controlled text.
pub struct LoginAttempt {
    pub serial_number: String,
    pub client_secret: String,
}

/// Whether an attempt carries the credentials the identity was derived from,
/// as far as the hash can tell.
pub open spec fn attempt_accepted(attempt: LoginAttempt, identity: Identity) -> bool {
    sha512_accepts(
        credential_input(attempt.serial_number@, attempt.client_secret@),
        identity.credential_hash@,
    )
}

/// Verifies a login attempt against a stored credential hash. Returns `true`
/// only on an exact match; a mismatch, a malformed hash and an internal hash
/// fault are all reported alike as `false`.
pub fn verify(attempt: &LoginAttempt, credential_hash: &str) -> (r: bool)
    ensures
        r == sha512_accepts(
            credential_input(attempt.serial_number@, attempt.client_secret@),
            credential_hash@,
        ),
{
    let mut input = attempt.serial_number.clone();
    input.append(attempt.client_secret.as_str());
    sha512_matches(input.as_str(), credential_hash)
}

/// Law: the credential round trip. A freshly derived hash verifies every
/// attempt whose concatenated input equals the derived one — the deriving
/// pair first of all — and an attempt it rejects cannot carry that input.
/// That a *different* input never verifies is the hash's collision
/// resistance, which nothing here states; it is exercised by tests only.
pub fn derive_then_verify(serial_number: &str, shared_secret: &str, attempt: &LoginAttempt) -> (r:
    Result<bool, HashError>)
    ensures
        r is Ok,
        r matches Ok(accepted) ==> {
            &&& credential_input(attempt.serial_number@, attempt.client_secret@)
                == credential_input(serial_number@, shared_secret@) ==> accepted
            &&& !accepted ==> credential_input(attempt.serial_number@, attempt.client_secret@)
                != credential_input(serial_number@, shared_secret@)
        },
{
    let credential_hash = match derive(serial_number, shared_secret) {
        Ok(h) => h,
        Err(e) => {
            return Err(e);
        },
    };
    Ok(verify(attempt, credential_hash.as_str()))
}

/// The fixed id of the one identity of this single-user system.
pub const IDENTITY_ID: i64 = 1;

/// The one identity of the device: the fixed id and the credential hash
/// derived at startup. Immutable for the life of the process.
pub struct Identity {
    pub id: i64,
    pub credential_hash: String,
}

impl Identity {
    /// Builds the process identity from the serial number and the shared
    /// secret. Succeeds on every input; were the hashing subsystem ever to
    /// fail, that failure would be fatal and the caller must not start
    /// serving.
    pub fn derive_identity(serial_number: &str, shared_secret: &str) -> (r: Result<
        Identity,
        HashError,
    >)
        ensures
            r is Ok,
            r matches Ok(identity) ==> identity.id == IDENTITY_ID && sha512_accepts(
                credential_input(serial_number@, shared_secret@),
                identity.credential_hash@,
            ),
    {
        let credential_hash = match derive(serial_number, shared_secret) {
            Ok(h) => h,
            Err(e) => {
                return Err(e);
            },
        };
        Ok(Identity { id: IDENTITY_ID, credential_hash })
    }
}

} // verus!
