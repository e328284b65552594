//! Token claims, roles and the `Authorization` header.
use vstd::prelude::*;
use crate::errors::ApiError;
use crate::text::{starts_with, str_eq, suffix_from, trim, trim_start_matches, trim_start_matches_seq, trimmed};

verus! {

/// What a session token asserts: the user, the user's role and the expiry time (seconds since the epoch).
#[derive(Clone, Debug)]
pub struct Claims {
    pub user_id: String,
    pub role: String,
    pub exp: usize,
}

/// Roles that may use the client's developer tools.
pub fn role_allows_client_dev(role: &str) -> (allowed: bool)
    ensures
        allowed == (role@ == "admin"@ || role@ == "superuser"@),
{
    str_eq(role, "admin") || str_eq(role, "superuser")
}

/// The role to act with: an empty role (tokens issued before roles existed) means `user`.
pub fn effective_role(role: &str) -> (r: &str)
    ensures
        role@.len() == 0 ==> r@ == "user"@,
        role@.len() > 0 ==> r@ == role@,
{
    if role.is_empty() {
        "user"
    } else {
        role
    }
}

/// Expiry time of a token issued at `now_secs` that lives `expires_in_seconds` (saturating).
pub open spec fn expiry(now_secs: u64, expires_in_seconds: u64) -> usize {
    (if now_secs + expires_in_seconds > u64::MAX { u64::MAX as int } else { now_secs + expires_in_seconds }) as usize
}

/// Claims of a token for `user_id` with `role`, issued at `now_secs`.
pub fn claims_for(user_id: &str, role: &str, now_secs: u64, expires_in_seconds: u64) -> (c: Claims)
    ensures
        c.user_id@ == user_id@,
        c.role@ == role@,
        c.exp == expiry(now_secs, expires_in_seconds),
{
    let exp = now_secs.saturating_add(expires_in_seconds) as usize;
    Claims { user_id: String::from_str(user_id), role: String::from_str(role), exp }
}

/// The token of an `Authorization: Bearer <token>` header, white space around it removed.
pub open spec fn bearer_token_of(auth: Seq<char>) -> Option<Seq<char>> {
    let p = "Bearer "@;
    if p.len() <= auth.len() && auth.subrange(0, p.len() as int) == p {
        Some(trimmed(auth.subrange(p.len() as int, auth.len() as int)))
    } else {
        None
    }
}

/// The token after the `Bearer ` prefix of an `Authorization` header, trimmed.
pub fn bearer_token(auth: &str) -> (token: Option<&str>)
    ensures
        match token {
            Some(t) => bearer_token_of(auth@) == Some(t@),
            None => bearer_token_of(auth@) is None,
        },
{
    let prefix = "Bearer ";
    if !starts_with(auth, prefix) {
        return None;
    }
    let rest = suffix_from(auth, prefix.unicode_len());
    Some(trim(rest))
}

/// Session token of a request, from its `Authorization` header: the header must start with
/// `Bearer `; every leading `Bearer ` is dropped and white space is trimmed.
pub open spec fn session_token_of(auth: Option<Seq<char>>) -> Result<Seq<char>, ApiError> {
    match auth {
        None => Err(ApiError::Unauthorized),
        Some(a) => {
            let p = "Bearer "@;
            if p.len() <= a.len() && a.subrange(0, p.len() as int) == p {
                Ok(trimmed(trim_start_matches_seq(a, p)))
            } else {
                Err(ApiError::Unauthorized)
            }
        },
    }
}

/// Session token of a request (see `session_token_of`); `auth` is the header's text, absent
/// when the header is missing or not readable as text.
pub fn session_token(auth: Option<&str>) -> (token: Result<&str, ApiError>)
    ensures
        match token {
            Ok(t) => session_token_of(
                match auth {
                    Some(a) => Some(a@),
                    None => None,
                },
            ) == Ok::<Seq<char>, ApiError>(t@),
            Err(e) => session_token_of(
                match auth {
                    Some(a) => Some(a@),
                    None => None,
                },
            ) == Err::<Seq<char>, ApiError>(e),
        },
{
    match auth {
        None => Err(ApiError::Unauthorized),
        Some(a) => {
            if !starts_with(a, "Bearer ") {
                return Err(ApiError::Unauthorized);
            }
            Ok(trim(trim_start_matches(a, "Bearer ")))
        },
    }
}

} // verus!
