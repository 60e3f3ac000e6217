//! Authentication for the HTTP API: password hashing with bcrypt, the
//! checks of signup and login, and the replies the API gives.

use bcrypt::BcryptError;
use vstd::prelude::*;
use vstd::string::StringExecFns;

verus! {

#[verifier::external_type_specification]
#[verifier::external_body]
pub struct ExBcryptError(BcryptError);

/// What `bcrypt::verify` answers for `password` against `hash`: `Some` of
/// its verdict, or `None` when it fails (a hash it cannot read).
pub uninterp spec fn bcrypt_verdict(password: Seq<char>, hash: Seq<char>) -> Option<bool>;

/// The form of the text `bcrypt::hash` writes at its default cost 12:
/// `$2b$12$` followed by the 22 characters of the salt and the 31 of the
/// hash, 60 characters in all.
pub open spec fn bcrypt_form(h: Seq<char>) -> bool {
    &&& h.len() == 60
    &&& h.subrange(0, 7) == seq!['$', '2', 'b', '$', '1', '2', '$']
}

/// Calls `bcrypt::hash` at `bcrypt::DEFAULT_COST` with a fresh random salt.
/// Claimed: a hash it returns is one that `bcrypt::verify` accepts for the
/// same password, and has the form `bcrypt::hash` writes (`$2b$`, the cost
/// in two digits, the salt and the hash in bcrypt's base 64). Nothing is
/// claimed of which salt and hash characters come, which depend on the
/// random salt, nor of when it fails (only when the system's randomness
/// fails).
#[verifier::external_body]
pub fn hash_password(password: &str) -> (r: Result<String, BcryptError>)
    ensures
        r matches Ok(h) ==> bcrypt_verdict(password@, h@) == Some(true) && bcrypt_form(h@),
{
    bcrypt::hash(password, bcrypt::DEFAULT_COST)
}

/// Calls `bcrypt::verify`; its answer is a function of the password and the
/// hash.
#[verifier::external_body]
pub fn verify_password(password: &str, hashed: &str) -> (r: Result<bool, BcryptError>)
    ensures
        match r {
            Ok(b) => bcrypt_verdict(password@, hashed@) == Some(b),
            Err(_) => bcrypt_verdict(password@, hashed@) is None,
        },
{
    bcrypt::verify(password, hashed)
}

/// Why signing up or logging in failed.
#[derive(Debug, Clone, Copy, PartialEq, Eq, Structural)]
pub enum AuthError {
    UserAlreadyExists,
    UserNotFound,
    InvalidCredentials,
    Database,
    Hash,
    Jwt,
}

/// The stored credentials of a user.
#[derive(Debug)]
pub struct StoredCredentials {
    pub user_id: String,
    pub password_hash: String,
}

/// Signing up and logging in.
pub struct AuthService;

impl AuthService {
    /// The password hash stored for a new user: it admits the password and
    /// has bcrypt's form; a failure of bcrypt is `AuthError::Hash`.
    pub fn hash_for_signup(password: &str) -> (r: Result<String, AuthError>)
        ensures
            r matches Ok(h) ==> bcrypt_verdict(password@, h@) == Some(true) && bcrypt_form(h@),
            r matches Err(e) ==> e == AuthError::Hash,
    {
        match hash_password(password) {
            Ok(h) => Ok(h),
            Err(_) => Err(AuthError::Hash),
        }
    }

    /// A signup of an email that already has a user is refused.
    pub fn check_new_email(already_registered: bool) -> (r: Result<(), AuthError>)
        ensures
            r == if already_registered {
                Err::<(), AuthError>(AuthError::UserAlreadyExists)
            } else {
                Ok::<(), AuthError>(())
            },
    {
        if already_registered {
            Err(AuthError::UserAlreadyExists)
        } else {
            Ok(())
        }
    }

    /// Checks a login against the stored credentials found for its email:
    /// no user is `UserNotFound`; a password bcrypt rejects is
    /// `InvalidCredentials`; a failure of bcrypt is `Hash`; otherwise the
    /// user's id, for its token.
    pub fn check_login(found: Option<StoredCredentials>, password: &str) -> (r: Result<String, AuthError>)
        ensures
            login_view(r) == login_outcome(found, password@),
    {
        match found {
            None => Err(AuthError::UserNotFound),
            Some(c) => match verify_password(password, c.password_hash.as_str()) {
                Err(_) => Err(AuthError::Hash),
                Ok(false) => Err(AuthError::InvalidCredentials),
                Ok(true) => Ok(c.user_id),
            },
        }
    }
}

/// A login's result, with the user id as its text.
pub open spec fn login_view(r: Result<String, AuthError>) -> Result<Seq<char>, AuthError> {
    match r {
        Ok(id) => Ok(id@),
        Err(e) => Err(e),
    }
}

/// What a login with `password` comes to, given the credentials found for
/// its email.
pub open spec fn login_outcome(found: Option<StoredCredentials>, password: Seq<char>) -> Result<
    Seq<char>,
    AuthError,
> {
    match found {
        None => Err(AuthError::UserNotFound),
        Some(c) => match bcrypt_verdict(password, c.password_hash@) {
            None => Err(AuthError::Hash),
            Some(false) => Err(AuthError::InvalidCredentials),
            Some(true) => Ok(c.user_id@),
        },
    }
}

/// The hash stored at signup is not the password itself, unless the
/// password already has the form of a bcrypt hash.
pub proof fn lemma_stored_hash_is_not_the_password(password: Seq<char>, hash: Seq<char>)
    requires
        bcrypt_form(hash),
        !bcrypt_form(password),
    ensures
        hash != password,
{
}

/// The password a user signed up with logs that user in: a hash made at
/// signup, once stored, admits the same password.
pub proof fn lemma_signup_password_logs_in(password: Seq<char>, stored: StoredCredentials)
    requires
        bcrypt_verdict(password, stored.password_hash@) == Some(true),
    ensures
        login_outcome(Some(stored), password) == Ok::<Seq<char>, AuthError>(stored.user_id@),
{
}

/// A JSON reply of the authentication routes: the HTTP status, `success`,
/// and a `message` or the `user_id`.
#[derive(Debug)]
pub struct AuthReply {
    pub status: u16,
    pub success: bool,
    pub message: Option<String>,
    pub user_id: Option<String>,
    /// The validation errors of a refused form, as JSON text.
    pub errors: Option<String>,
}

/// A reply with a message.
fn message_reply(status: u16, success: bool, message: &str) -> (r: AuthReply)
    ensures
        r.status == status,
        r.success == success,
        r.message matches Some(m) && m@ == message@,
        r.user_id is None,
        r.errors is None,
{
    AuthReply {
        status,
        success,
        message: Some(<String as StringExecFns>::from_str(message)),
        user_id: None,
        errors: None,
    }
}

/// A reply with its status, success flag and message.
pub open spec fn says(r: AuthReply, status: u16, success: bool, message: Seq<char>) -> bool {
    &&& r.status == status
    &&& r.success == success
    &&& r.message matches Some(m) && m@ == message
    &&& r.user_id is None
    &&& r.errors is None
}

/// A signup or login form is checked before the service sees it: a form
/// that fails its validation is answered at once with 400 and its
/// validation errors, and the service is not called; a valid form goes on.
pub fn screen_form(validation: Result<(), String>) -> (r: Result<(), AuthReply>)
    ensures
        match validation {
            Ok(_) => r is Ok,
            Err(errors) => r matches Err(rep) && rep.status == 400 && !rep.success && rep.message is None
                && rep.user_id is None && rep.errors == Some(errors),
        },
{
    match validation {
        Ok(()) => Ok(()),
        Err(errors) => Err(AuthReply { status: 400, success: false, message: None, user_id: None, errors: Some(errors) }),
    }
}

/// The reply to a signup: 201 when it succeeded, 409 when the user exists,
/// 500 otherwise.
pub fn signup_reply(result: &Result<String, AuthError>) -> (r: AuthReply)
    ensures
        match result {
            Ok(_) => says(r, 201, true, "Signup successful"@),
            Err(AuthError::UserAlreadyExists) => says(r, 409, false, "User already exists"@),
            Err(_) => says(r, 500, false, "Internal server error"@),
        },
{
    match result {
        Ok(_) => message_reply(201, true, "Signup successful"),
        Err(AuthError::UserAlreadyExists) => message_reply(409, false, "User already exists"),
        Err(_) => message_reply(500, false, "Internal server error"),
    }
}

/// The reply to a login: 200 when it succeeded, 404 for an unknown user,
/// 401 for a wrong password, 500 otherwise.
pub fn login_reply(result: &Result<String, AuthError>) -> (r: AuthReply)
    ensures
        match result {
            Ok(_) => says(r, 200, true, "Login successful"@),
            Err(AuthError::UserNotFound) => says(r, 404, false, "User not found"@),
            Err(AuthError::InvalidCredentials) => says(r, 401, false, "Invalid credentials"@),
            Err(_) => says(r, 500, false, "Internal server error"@),
        },
{
    match result {
        Ok(_) => message_reply(200, true, "Login successful"),
        Err(AuthError::UserNotFound) => message_reply(404, false, "User not found"),
        Err(AuthError::InvalidCredentials) => message_reply(401, false, "Invalid credentials"),
        Err(_) => message_reply(500, false, "Internal server error"),
    }
}

/// The reply to a logout.
pub fn logout_reply() -> (r: AuthReply)
    ensures
        says(r, 200, true, "Logout successful"@),
{
    message_reply(200, true, "Logout successful")
}

/// The reply to an authentication check, given the token cookie's user:
/// `None` when there is no token, `Some(None)` when the token does not
/// verify, `Some(Some(id))` for the user it names.
pub fn check_auth_reply(token_user: Option<Option<String>>) -> (r: AuthReply)
    ensures
        match token_user {
            None => says(r, 401, false, "Not authenticated"@),
            Some(None) => says(r, 401, false, "Invalid token"@),
            Some(Some(id)) => r.status == 200 && r.success && r.message is None && r.user_id == Some(id)
                && r.errors is None,
        },
{
    match token_user {
        None => message_reply(401, false, "Not authenticated"),
        Some(None) => message_reply(401, false, "Invalid token"),
        Some(Some(id)) => AuthReply { status: 200, success: true, message: None, user_id: Some(id), errors: None },
    }
}

/// Whether a request to a protected route goes on, for the user its token
/// names, or is answered at once: 500 when the server has no token secret,
/// 401 without a token or with a token that does not verify.
pub fn authorize_request(secret_configured: bool, token_user: Option<Option<String>>) -> (r: Result<
    String,
    AuthReply,
>)
    ensures
        !secret_configured ==> (r matches Err(rep) && says(rep, 500, false, "Server configuration error"@)),
        secret_configured ==> match token_user {
            None => r matches Err(rep) && says(rep, 401, false, "Authentication required"@),
            Some(None) => r matches Err(rep) && says(rep, 401, false, "Invalid or expired token"@),
            Some(Some(id)) => r == Ok::<String, AuthReply>(id),
        },
{
    if !secret_configured {
        return Err(message_reply(500, false, "Server configuration error"));
    }
    match token_user {
        None => Err(message_reply(401, false, "Authentication required")),
        Some(None) => Err(message_reply(401, false, "Invalid or expired token")),
        Some(Some(id)) => Ok(id),
    }
}

} // verus!
