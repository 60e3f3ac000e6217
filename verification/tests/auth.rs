use exchange::cookies::{build_auth_cookie, clear_auth_cookie};
use exchange::auth::{
    authorize_request, check_auth_reply, hash_password, login_reply, logout_reply, screen_form, signup_reply,
    verify_password, AuthError, AuthReply, AuthService, StoredCredentials,
};

fn said(r: &AuthReply) -> (u16, bool, Option<&str>) {
    (r.status, r.success, r.message.as_deref())
}

#[test]
fn hashed_password_verifies_and_others_do_not() {
    let h = hash_password("s3cret").unwrap();
    assert_ne!(h, "s3cret");
    assert!(h.starts_with("$2"));
    assert_eq!(verify_password("s3cret", &h).unwrap(), true);
    assert_eq!(verify_password("S3cret", &h).unwrap(), false);
}

#[test]
fn unreadable_hash_is_an_error() {
    assert!(verify_password("s3cret", "not a bcrypt hash").is_err());
}

#[test]
fn login_checks_user_and_password() {
    let h = AuthService::hash_for_signup("pw").unwrap();
    let creds = |hash: &str| StoredCredentials { user_id: "user-7".to_string(), password_hash: hash.to_string() };
    assert_eq!(AuthService::check_login(None, "pw"), Err(AuthError::UserNotFound));
    assert_eq!(AuthService::check_login(Some(creds(&h)), "pw"), Ok("user-7".to_string()));
    assert_eq!(AuthService::check_login(Some(creds(&h)), "wrong"), Err(AuthError::InvalidCredentials));
    assert_eq!(AuthService::check_login(Some(creds("garbage")), "pw"), Err(AuthError::Hash));
}

#[test]
fn signup_refuses_a_registered_email() {
    assert_eq!(AuthService::check_new_email(true), Err(AuthError::UserAlreadyExists));
    assert_eq!(AuthService::check_new_email(false), Ok(()));
}

#[test]
fn signup_replies() {
    assert_eq!(said(&signup_reply(&Ok("t".to_string()))), (201, true, Some("Signup successful")));
    assert_eq!(said(&signup_reply(&Err(AuthError::UserAlreadyExists))), (409, false, Some("User already exists")));
    assert_eq!(said(&signup_reply(&Err(AuthError::Database))), (500, false, Some("Internal server error")));
}

#[test]
fn login_replies() {
    assert_eq!(said(&login_reply(&Ok("t".to_string()))), (200, true, Some("Login successful")));
    assert_eq!(said(&login_reply(&Err(AuthError::UserNotFound))), (404, false, Some("User not found")));
    assert_eq!(said(&login_reply(&Err(AuthError::InvalidCredentials))), (401, false, Some("Invalid credentials")));
    assert_eq!(said(&login_reply(&Err(AuthError::Jwt))), (500, false, Some("Internal server error")));
    assert_eq!(said(&logout_reply()), (200, true, Some("Logout successful")));
}

#[test]
fn auth_check_replies() {
    assert_eq!(said(&check_auth_reply(None)), (401, false, Some("Not authenticated")));
    assert_eq!(said(&check_auth_reply(Some(None))), (401, false, Some("Invalid token")));
    let ok = check_auth_reply(Some(Some("u9".to_string())));
    assert_eq!(said(&ok), (200, true, None));
    assert_eq!(ok.user_id.as_deref(), Some("u9"));
}

#[test]
fn protected_routes_need_a_valid_token() {
    let r = authorize_request(false, Some(Some("u1".to_string()))).unwrap_err();
    assert_eq!(said(&r), (500, false, Some("Server configuration error")));
    let r = authorize_request(true, None).unwrap_err();
    assert_eq!(said(&r), (401, false, Some("Authentication required")));
    let r = authorize_request(true, Some(None)).unwrap_err();
    assert_eq!(said(&r), (401, false, Some("Invalid or expired token")));
    assert_eq!(authorize_request(true, Some(Some("u1".to_string()))).ok(), Some("u1".to_string()));
}

#[test]
fn session_cookie_attributes() {
    let c = build_auth_cookie("tok".to_string(), true);
    assert_eq!((c.name.as_str(), c.value.as_str(), c.path.as_str()), ("token", "tok", "/"));
    assert!(c.http_only && c.same_site_lax && !c.expires_at_epoch);
    assert_eq!(c.secure, Some(true));
    assert_eq!(c.max_age_seconds, 7 * 24 * 3600);
    assert_eq!(build_auth_cookie("tok".to_string(), false).secure, Some(false));
    let gone = clear_auth_cookie();
    assert_eq!((gone.name.as_str(), gone.value.as_str(), gone.path.as_str()), ("token", "", "/"));
    assert!(gone.http_only && !gone.same_site_lax && gone.expires_at_epoch);
    assert_eq!(gone.secure, None);
    assert_eq!(gone.max_age_seconds, 0);
}

#[test]
fn hash_has_bcrypt_form_and_is_not_the_password() {
    let h = hash_password("hunter2").unwrap();
    assert_eq!(h.chars().count(), 60);
    assert!(h.starts_with("$2b$12$"));
    assert_ne!(h, "hunter2");
    let s = AuthService::hash_for_signup("hunter2").unwrap();
    assert!(s.starts_with("$2b$12$") && s.len() == 60);
}

#[test]
fn invalid_form_is_refused_before_the_service() {
    assert!(screen_form(Ok(())).is_ok());
    let r = screen_form(Err("{\"email\":[]}".to_string())).unwrap_err();
    assert_eq!((r.status, r.success), (400, false));
    assert_eq!(r.errors.as_deref(), Some("{\"email\":[]}"));
    assert!(r.message.is_none() && r.user_id.is_none());
}
