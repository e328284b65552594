//! Account requests: their validation and password checks.
use vstd::prelude::*;
use vstd::string::StrSliceExecFns;
use crate::errors::ApiError;

verus! {

/// A request to create an account.
#[derive(Debug)]
pub struct RegisterRequest {
    pub username: String,
    pub email: String,
    pub password: String,
}

/// A request to log in.
#[derive(Debug)]
pub struct LoginRequest {
    pub email: String,
    pub password: String,
}

/// Which fields of an account request were refused.
#[derive(Clone, Copy, Debug, PartialEq, Eq, Structural)]
pub struct FieldViolations {
    /// The username is not 3 to 20 characters long.
    pub username_length: bool,
    /// The email address is not valid.
    pub email: bool,
    /// The password is shorter than 6 characters.
    pub password_length: bool,
}

/// Result of `validator::ValidateEmail::validate_email` on an address (HTML5 address syntax,
/// with length limits and internationalised domains).
pub uninterp spec fn valid_email(s: Seq<char>) -> bool;

/// Checks an address with `validator::ValidateEmail::validate_email`; the result is named, not described.
#[verifier::external_body]
fn email_is_valid(s: &str) -> (ok: bool)
    ensures
        ok == valid_email(s@),
{
    validator::ValidateEmail::validate_email(&s)
}

/// Outcome of `bcrypt::verify` on a password and a stored hash: whether they match, or the
/// text of the error when the hash cannot be read.
pub uninterp spec fn bcrypt_verify_outcome(password: Seq<char>, hash: Seq<char>) -> Result<bool, Seq<char>>;

/// Checks a password against a stored hash with `bcrypt::verify`; an error is handed back as
/// its text. The outcome is named, not described.
#[verifier::external_body]
fn bcrypt_verify(password: &str, hash: &str) -> (res: Result<bool, String>)
    ensures
        match res {
            Ok(b) => bcrypt_verify_outcome(password@, hash@) == Ok::<bool, Seq<char>>(b),
            Err(t) => bcrypt_verify_outcome(password@, hash@) == Err::<bool, Seq<char>>(t@),
        },
{
    match bcrypt::verify(password, hash) {
        Ok(b) => Ok(b),
        Err(e) => Err(format!("{e}")),
    }
}

/// Hashes a password with `bcrypt::hash` at the crate's default cost; an error is handed back
/// as its text. The salt is random, so the hash itself is not stated, nor the text of an error
/// (it comes from the system's random source); what is stated is that `bcrypt::verify` accepts
/// the password against the hash, as `verify` recomputes it from the salt and cost it records.
#[verifier::external_body]
fn bcrypt_hash(password: &str) -> (res: Result<String, String>)
    ensures
        match res {
            Ok(h) => bcrypt_verify_outcome(password@, h@) == Ok::<bool, Seq<char>>(true),
            Err(_) => true,
        },
{
    match bcrypt::hash(password, bcrypt::DEFAULT_COST) {
        Ok(h) => Ok(h),
        Err(e) => Err(format!("{e}")),
    }
}

/// Why a password could not be checked or stored.
#[derive(Clone, Debug, PartialEq, Eq)]
pub enum PasswordError {
    /// A refusal the client is told about.
    Refused(ApiError),
    /// The hashing failed; the text is the message sent with the failure (see `internal_message`).
    Internal(String),
}

/// Message of an internal failure: `Internal server error: ` and the text of its cause.
pub open spec fn internal_message(cause: Seq<char>) -> Seq<char> {
    "Internal server error: "@ + cause
}

fn internal_failure(cause: &str) -> (e: PasswordError)
    ensures
        e matches PasswordError::Internal(t) && t@ == internal_message(cause@),
{
    let mut text = String::from_str("Internal server error: ");
    text.append(cause);
    PasswordError::Internal(text)
}

/// Character count is within `[min, max]`.
pub open spec fn length_within(s: Seq<char>, min: int, max: int) -> bool {
    min <= s.len() <= max
}

impl RegisterRequest {
    /// Refused fields of the request: username of 3 to 20 characters, a valid email, a
    /// password of at least 6 characters.
    pub fn validate(&self) -> (res: Result<(), FieldViolations>)
        ensures
            ({
                let v = FieldViolations {
                    username_length: !length_within(self.username@, 3, 20),
                    email: !valid_email(self.email@),
                    password_length: self.password@.len() < 6,
                };
                if !v.username_length && !v.email && !v.password_length {
                    res == Ok::<(), FieldViolations>(())
                } else {
                    res == Err::<(), FieldViolations>(v)
                }
            }),
    {
        let ulen = self.username.as_str().unicode_len();
        let v = FieldViolations {
            username_length: ulen < 3 || ulen > 20,
            email: !email_is_valid(self.email.as_str()),
            password_length: self.password.as_str().unicode_len() < 6,
        };
        if !v.username_length && !v.email && !v.password_length {
            Ok(())
        } else {
            Err(v)
        }
    }
}

impl LoginRequest {
    /// Refused fields of the request: the email must be valid.
    pub fn validate(&self) -> (res: Result<(), FieldViolations>)
        ensures
            valid_email(self.email@) ==> res == Ok::<(), FieldViolations>(()),
            !valid_email(self.email@) ==> res == Err::<(), FieldViolations>(
                FieldViolations { username_length: false, email: true, password_length: false },
            ),
    {
        if email_is_valid(self.email.as_str()) {
            Ok(())
        } else {
            Err(FieldViolations { username_length: false, email: true, password_length: false })
        }
    }
}

/// A new account needs an unused email and username (`existing` counts accounts using either).
pub fn ensure_account_free(existing: i64) -> (res: Result<(), ApiError>)
    ensures
        res is Ok <==> existing <= 0,
        res matches Err(e) ==> e == ApiError::AccountExists,
{
    if existing > 0 {
        Err(ApiError::AccountExists)
    } else {
        Ok(())
    }
}

/// Checks a login password against the stored hash: a mismatch is refused as invalid
/// credentials, an unreadable hash is an internal failure that carries bcrypt's error text.
pub fn check_password(password: &str, stored_hash: &str) -> (res: Result<(), PasswordError>)
    ensures
        match bcrypt_verify_outcome(password@, stored_hash@) {
            Ok(true) => res == Ok::<(), PasswordError>(()),
            Ok(false) => res == Err::<(), PasswordError>(PasswordError::Refused(ApiError::InvalidCredentials)),
            Err(cause) => res matches Err(PasswordError::Internal(t)) && t@ == internal_message(cause),
        },
{
    match bcrypt_verify(password, stored_hash) {
        Ok(true) => Ok(()),
        Ok(false) => Err(PasswordError::Refused(ApiError::InvalidCredentials)),
        Err(cause) => Err(internal_failure(cause.as_str())),
    }
}

/// Hashes a new password for storage; a failure of the hashing is an internal failure that
/// carries bcrypt's error text. The stored hash accepts the password at login (see `check_password`).
pub fn hash_password(password: &str) -> (res: Result<String, PasswordError>)
    ensures
        res matches Ok(h) ==> bcrypt_verify_outcome(password@, h@) == Ok::<bool, Seq<char>>(true),
        res matches Err(e) ==> exists|cause: Seq<char>| e matches PasswordError::Internal(t) && t@ == #[trigger] internal_message(cause),
{
    match bcrypt_hash(password) {
        Ok(h) => Ok(h),
        Err(cause) => Err(internal_failure(cause.as_str())),
    }
}

} // verus!
