//! Authentication and session subsystem for a single-user embedded device
//! status page: credential derivation and verification, an in-memory session
//! store, the route gate, and the login/logout decision logic, together with
//! the parsing of the login form body and of the session cookie header.

pub mod cookie;
pub mod credential;
pub mod form;
pub mod routes;
pub mod session;
