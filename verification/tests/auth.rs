use go_web_interface::cookie::{parse_token_bytes, session_token_from_cookie, token_cookie_value};
use go_web_interface::credential::{verify, Identity, LoginAttempt, IDENTITY_ID};
use go_web_interface::form::{form_decode, parse_form_field, parse_login_attempt};
use go_web_interface::routes::{gate, login, logout, GateOutcome, LoginResponse};
use go_web_interface::session::SessionStore;

fn dev_identity() -> Identity {
    Identity::derive_identity("test", "test").expect("derivation must succeed")
}

fn attempt(sn: &str, key: &str) -> LoginAttempt {
    LoginAttempt { serial_number: sn.to_owned(), client_secret: key.to_owned() }
}

#[test]
fn derive_output_verifies_against_input() {
    let hash = go_web_interface::credential::derive("test", "test").expect("derivation must succeed");
    assert!(verify(&attempt("test", "test"), &hash));
}

#[test]
fn derive_output_is_salted_and_encoded() {
    let hash = go_web_interface::credential::derive("test", "test").expect("derivation must succeed");
    assert!(hash.starts_with("$6$"));
    let again = go_web_interface::credential::derive("test", "test").expect("derivation must succeed");
    assert_ne!(hash, again);
    assert!(verify(&attempt("test", "test"), &again));
}

#[test]
fn wrong_credentials_do_not_verify() {
    let hash = go_web_interface::credential::derive("test", "test").expect("derivation must succeed");
    assert!(!verify(&attempt("wrong", "test"), &hash));
    assert!(!verify(&attempt("test", "wrong"), &hash));
    assert!(!verify(&attempt("", ""), &hash));
}

#[test]
fn pairs_with_equal_concatenation_are_indistinguishable() {
    // The hashed text is the bare concatenation of the two fields, so a pair
    // that concatenates to the same text verifies as well.
    let hash = go_web_interface::credential::derive("test", "test").expect("derivation must succeed");
    assert!(verify(&attempt("tes", "ttest"), &hash));
    assert!(verify(&attempt("testtest", ""), &hash));
}

#[test]
fn credential_round_trip() {
    let accepted = go_web_interface::credential::derive_then_verify(
        "test",
        "test",
        &attempt("test", "test"),
    )
    .expect("derivation must succeed");
    assert!(accepted);
    let rejected = go_web_interface::credential::derive_then_verify(
        "test",
        "test",
        &attempt("other", "key"),
    )
    .expect("derivation must succeed");
    assert!(!rejected);
}

#[test]
fn malformed_hash_never_verifies() {
    assert!(!verify(&attempt("test", "test"), "not a hash"));
    assert!(!verify(&attempt("test", "test"), ""));
    assert!(!verify(&attempt("test", "test"), "$6$"));
}

#[test]
fn identity_has_fixed_id() {
    let identity = dev_identity();
    assert_eq!(identity.id, IDENTITY_ID);
    assert_eq!(identity.id, 1);
}

#[test]
fn session_lifecycle() {
    let identity = dev_identity();
    let mut store = SessionStore::new();
    assert_eq!(store.session_count(), 0);
    let token = store.create_session(&identity).expect("token draw must succeed");
    assert_eq!(store.session_count(), 1);
    assert_eq!(store.validate(token, &identity), Some(1));
    store.invalidate(token);
    assert_eq!(store.validate(token, &identity), None);
    store.invalidate(token);
    assert_eq!(store.validate(token, &identity), None);
    assert_eq!(store.session_count(), 0);
}

#[test]
fn unknown_token_is_absent_not_an_error() {
    let identity = dev_identity();
    let store = SessionStore::new();
    assert_eq!(store.validate(12345, &identity), None);
}

#[test]
fn rotated_credential_invalidates_sessions() {
    let identity = dev_identity();
    let mut store = SessionStore::new();
    let token = store.create_session(&identity).expect("token draw must succeed");
    let rotated = Identity::derive_identity("test", "other").expect("derivation must succeed");
    assert_eq!(store.validate(token, &rotated), None);
    assert_eq!(store.validate(token, &identity), Some(1));
}

#[test]
fn distinct_sessions_do_not_disturb_each_other() {
    let identity = dev_identity();
    let mut store = SessionStore::new();
    let a = store.create_session(&identity).expect("token draw must succeed");
    let b = store.create_session(&identity).expect("token draw must succeed");
    let c = store.create_session(&identity).expect("token draw must succeed");
    assert_ne!(a, b);
    assert_ne!(a, c);
    assert_ne!(b, c);
    assert_eq!(store.session_count(), 3);
    store.invalidate(b);
    assert_eq!(store.validate(a, &identity), Some(1));
    assert_eq!(store.validate(b, &identity), None);
    assert_eq!(store.validate(c, &identity), Some(1));
    store.invalidate(a);
    assert_eq!(store.validate(c, &identity), Some(1));
    assert_eq!(store.session_count(), 1);
}

#[test]
fn gate_redirects_without_session() {
    let identity = dev_identity();
    let mut store = SessionStore::new();
    assert_eq!(gate(&store, None, &identity), GateOutcome::RedirectToLogin);
    assert_eq!(gate(&store, Some(7), &identity), GateOutcome::RedirectToLogin);
    let token = store.create_session(&identity).expect("token draw must succeed");
    assert_eq!(gate(&store, Some(token), &identity), GateOutcome::Proceed(1));
    store.invalidate(token);
    assert_eq!(gate(&store, Some(token), &identity), GateOutcome::RedirectToLogin);
}

#[test]
fn login_issues_session_and_redirects() {
    let identity = dev_identity();
    let mut store = SessionStore::new();
    let response = login(&mut store, &identity, &attempt("test", "test"));
    let token = match response {
        LoginResponse::RedirectHome(token) => token,
        other => panic!("expected a redirect, got {:?}", other),
    };
    assert_eq!(response.status_code(), 303);
    assert_eq!(store.validate(token, &identity), Some(1));
}

#[test]
fn failed_login_leaves_no_session() {
    let identity = dev_identity();
    let mut store = SessionStore::new();
    let response = login(&mut store, &identity, &attempt("wrong", "test"));
    assert_eq!(response, LoginResponse::Unauthorized);
    assert_eq!(response.status_code(), 401);
    assert_eq!(store.session_count(), 0);
}

#[test]
fn logout_is_idempotent() {
    let identity = dev_identity();
    let mut store = SessionStore::new();
    let token = store.create_session(&identity).expect("token draw must succeed");
    logout(&mut store, Some(token));
    assert_eq!(store.validate(token, &identity), None);
    logout(&mut store, Some(token));
    logout(&mut store, None);
    assert_eq!(store.session_count(), 0);
}

#[test]
fn end_to_end_login_browse_logout() {
    let identity = dev_identity();
    let mut store = SessionStore::new();

    let body = b"sn=test&client_key=test";
    let attempt = parse_login_attempt(body).expect("the form fields are present");
    let response = login(&mut store, &identity, &attempt);
    let token = match response {
        LoginResponse::RedirectHome(token) => token,
        other => panic!("expected a redirect, got {:?}", other),
    };

    let mut header = b"session=".to_vec();
    header.extend_from_slice(&token_cookie_value(token));
    let presented = session_token_from_cookie(&header);
    assert_eq!(presented, Some(token));
    assert_eq!(gate(&store, presented, &identity), GateOutcome::Proceed(1));

    logout(&mut store, presented);
    assert_eq!(gate(&store, presented, &identity), GateOutcome::RedirectToLogin);
}

#[test]
fn end_to_end_bad_serial_is_unauthorized() {
    let identity = dev_identity();
    let mut store = SessionStore::new();
    let body = b"sn=wrong&client_key=test";
    let attempt = parse_login_attempt(body).expect("the form fields are present");
    let response = login(&mut store, &identity, &attempt);
    assert_eq!(response, LoginResponse::Unauthorized);
    assert_eq!(response.status_code(), 401);
    assert_eq!(store.session_count(), 0);
}

#[test]
fn form_decoding_handles_plus_and_percent() {
    assert_eq!(form_decode(b"a+b%21"), b"a b!".to_vec());
    assert_eq!(form_decode(b"%41%6a%6A"), b"Ajj".to_vec());
    assert_eq!(form_decode(b""), Vec::<u8>::new());
    let attempt = parse_login_attempt(b"sn=a+b%21&client_key=x%20y").expect("fields present");
    assert_eq!(attempt.serial_number, "a b!");
    assert_eq!(attempt.client_secret, "x y");
}

#[test]
fn malformed_escapes_pass_through() {
    assert_eq!(form_decode(b"%zz"), b"%zz".to_vec());
    assert_eq!(form_decode(b"a%"), b"a%".to_vec());
    assert_eq!(form_decode(b"a%1"), b"a%1".to_vec());
    assert_eq!(form_decode(b"%%41"), b"%A".to_vec());
}

#[test]
fn form_lookup_takes_the_first_match_and_needs_both_fields() {
    let attempt = parse_login_attempt(b"sn=first&sn=second&client_key=k").expect("fields present");
    assert_eq!(attempt.serial_number, "first");
    assert!(parse_login_attempt(b"sn=onlyserial").is_none());
    assert!(parse_login_attempt(b"client_key=onlykey").is_none());
    assert!(parse_login_attempt(b"").is_none());
    let empty = parse_login_attempt(b"sn=&client_key=").expect("fields present");
    assert_eq!(empty.serial_number, "");
    assert_eq!(empty.client_secret, "");
    let value = parse_form_field(b"a=1&b=2&c=3", b"b").expect("field present");
    assert_eq!(value, b"2".to_vec());
    assert!(parse_form_field(b"a=1&b=2", b"d").is_none());
}

#[test]
fn lossy_text_replaces_invalid_utf8() {
    let attempt = parse_login_attempt(b"sn=%ff&client_key=ok").expect("fields present");
    assert_eq!(attempt.serial_number, "\u{fffd}");
    assert_eq!(attempt.client_secret, "ok");
}

#[test]
fn cookie_header_lookup() {
    assert_eq!(session_token_from_cookie(b"session=42"), Some(42));
    assert_eq!(session_token_from_cookie(b"a=1; session=42; b=2"), Some(42));
    assert_eq!(session_token_from_cookie(b"a=1;session=7"), Some(7));
    assert_eq!(session_token_from_cookie(b"a=1; b=2"), None);
    assert_eq!(session_token_from_cookie(b""), None);
    assert_eq!(session_token_from_cookie(b"session=abc"), None);
    assert_eq!(session_token_from_cookie(b"session="), None);
    assert_eq!(session_token_from_cookie(b"sessions=42"), None);
    assert_eq!(session_token_from_cookie(b"x=1;  session=5"), Some(5));
    assert_eq!(session_token_from_cookie(b" session=5"), Some(5));
}

#[test]
fn token_decimal_round_trip() {
    assert_eq!(token_cookie_value(0), b"0".to_vec());
    assert_eq!(token_cookie_value(12345), b"12345".to_vec());
    assert_eq!(parse_token_bytes(b"12345"), Some(12345));
    assert_eq!(parse_token_bytes(b"0"), Some(0));
    let max = u128::MAX;
    assert_eq!(parse_token_bytes(&token_cookie_value(max)), Some(max));
    assert_eq!(parse_token_bytes(b"340282366920938463463374607431768211455"), Some(max));
    assert_eq!(parse_token_bytes(b"340282366920938463463374607431768211456"), None);
    assert_eq!(parse_token_bytes(b"999999999999999999999999999999999999999999"), None);
    assert_eq!(parse_token_bytes(b""), None);
    assert_eq!(parse_token_bytes(b"12a"), None);
}
