//! Session recovery: from the session cookie's value to the account id.

use vstd::prelude::*;
use vstd::utf8::encode_utf8;
use crate::token::{verify, verify_spec, TokenError};

verus! {

/// Name of the cookie that carries the session token.
pub const COOKIE_UUID_NAME: &'static str = "SRRS_USER_COOKIE";

/// Why a request is not taken as coming from a known account.
#[derive(Debug, Clone, Copy, PartialEq, Eq, Structural)]
pub enum AuthError {
    /// The request carries no session cookie.
    MissingCookie,
    /// The session token was refused.
    Token(TokenError),
    /// The token's payload is not an account id.
    BadId,
}

/// The status code each refusal is answered with: the client is not
/// authenticated, whatever the token's fault, or it sent a bad id.
pub open spec fn status_of(e: AuthError) -> u16 {
    match e {
        AuthError::MissingCookie => 401,
        AuthError::Token(_) => 401,
        AuthError::BadId => 400,
    }
}

impl AuthError {
    /// The HTTP status code for this refusal.
    pub fn status_code(&self) -> (r: u16)
        ensures
            r == status_of(*self),
    {
        match self {
            AuthError::MissingCookie => 401,
            AuthError::Token(_) => 401,
            AuthError::BadId => 400,
        }
    }
}

/// The 128-bit value of the UUID that `text` spells, in any of the forms
/// that `uuid::Uuid::parse_str` reads, or `None`.
pub uninterp spec fn uuid_of(text: Seq<char>) -> Option<u128>;

/// Relies on `uuid::Uuid::parse_str`, read back with `Uuid::as_u128`.
#[verifier::external_body]
fn parse_uuid(text: &str) -> (r: Option<u128>)
    ensures
        r == uuid_of(text@),
{
    uuid::Uuid::parse_str(text).ok().map(|u| u.as_u128())
}

/// What the session cookie `cookie` says of the account at time `now`.
pub open spec fn account_of(cookie: Option<Seq<char>>, key: Seq<u8>, now: u64) -> Result<
    u128,
    AuthError,
> {
    match cookie {
        None => Err(AuthError::MissingCookie),
        Some(c) => match verify_spec(key, encode_utf8(c), now) {
            Err(e) => Err(AuthError::Token(e)),
            Ok(payload) => match uuid_of(payload) {
                Some(id) => Ok(id),
                None => Err(AuthError::BadId),
            },
        },
    }
}

/// The account id that the session cookie's value carries, verified under
/// `key` at time `now` (seconds).
pub fn get_id(cookie: Option<&str>, key: &[u8], now: u64) -> (r: Result<u128, AuthError>)
    ensures
        r == account_of(
            match cookie {
                Some(c) => Some(c@),
                None => None,
            },
            key@,
            now,
        ),
{
    match cookie {
        None => Err(AuthError::MissingCookie),
        Some(c) => match verify(c, key, now) {
            Err(e) => Err(AuthError::Token(e)),
            Ok(payload) => match parse_uuid(payload.as_str()) {
                Some(id) => Ok(id),
                None => Err(AuthError::BadId),
            },
        },
    }
}

} // verus!
