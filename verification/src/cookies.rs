//! The session cookie the API sets at signup and login and clears at
//! logout.

use vstd::prelude::*;
use vstd::string::StringExecFns;

verus! {

/// A cookie's attributes; an attribute not set is `None` or `false`.
#[derive(Debug)]
pub struct AuthCookie {
    pub name: String,
    pub value: String,
    pub path: String,
    pub http_only: bool,
    pub secure: Option<bool>,
    /// `SameSite=Lax` is set.
    pub same_site_lax: bool,
    pub max_age_seconds: i64,
    /// `Expires` is set to the Unix epoch.
    pub expires_at_epoch: bool,
}

/// Seconds in a week.
pub const WEEK_SECONDS: i64 = 604800;

/// The cookie that carries a session token: named `token`, for every path,
/// hidden from scripts, sent only over HTTPS in production, `SameSite=Lax`,
/// and kept for a week, as long as the token lasts.
pub fn build_auth_cookie(token: String, production: bool) -> (c: AuthCookie)
    ensures
        c.name@ == "token"@,
        c.value == token,
        c.path@ == "/"@,
        c.http_only,
        c.secure == Some(production),
        c.same_site_lax,
        c.max_age_seconds == WEEK_SECONDS,
        !c.expires_at_epoch,
{
    AuthCookie {
        name: <String as StringExecFns>::from_str("token"),
        value: token,
        path: <String as StringExecFns>::from_str("/"),
        http_only: true,
        secure: Some(production),
        same_site_lax: true,
        max_age_seconds: WEEK_SECONDS,
        expires_at_epoch: false,
    }
}

/// The cookie that ends a session: `token` emptied, for every path, hidden
/// from scripts, with no age left and expired since the Unix epoch.
pub fn clear_auth_cookie() -> (c: AuthCookie)
    ensures
        c.name@ == "token"@,
        c.value@ == Seq::<char>::empty(),
        c.path@ == "/"@,
        c.http_only,
        c.secure is None,
        !c.same_site_lax,
        c.max_age_seconds == 0,
        c.expires_at_epoch,
{
    AuthCookie {
        name: <String as StringExecFns>::from_str("token"),
        value: String::new(),
        path: <String as StringExecFns>::from_str("/"),
        http_only: true,
        secure: None,
        same_site_lax: false,
        max_age_seconds: 0,
        expires_at_epoch: true,
    }
}

} // verus!
