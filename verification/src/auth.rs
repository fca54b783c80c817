//! Rules of signing up and signing in.

use vstd::prelude::*;
use vstd::string::StringSliceAdditionalSpecFns;
use crate::error::AppError;
use crate::path::{chars_view, split_on, split_text_on};
use crate::serve::{has_username_chars, only_username_chars};
use crate::text::{
    chars_have_at, chars_of, concat, is_prefix_of, lowercase_of, str_eq, string_from, string_of,
    to_lowercase, trim, trimmed_of,
};

verus! {

/// What a session token says of its bearer.
#[derive(Debug)]
pub struct Claims {
    /// The user's name.
    pub sub: String,
    pub is_admin: bool,
    /// When the token ends, in seconds since the epoch.
    pub exp: usize,
}

/// A signed-in user.
#[derive(Debug)]
pub struct AuthUser {
    pub username: String,
    pub is_admin: bool,
}

/// A signed-in administrator.
#[derive(Debug)]
pub struct AdminUser {
    pub username: String,
}

/// What a sign-up sends.
#[derive(Debug)]
pub struct RegisterForm {
    pub username: String,
    pub password: String,
    pub invite_code: String,
}

/// What a sign-in sends.
#[derive(Debug)]
pub struct LoginForm {
    pub username: String,
    pub password: String,
}

/// Seconds that a session lasts.
pub const SESSION_SECONDS: u64 = 86400;

/// Longest user name, in bytes.
pub const MAX_USERNAME_BYTES: usize = 32;

/// When a session that begins at `now` ends: a day later, or at the
/// largest value that fits where that does not.
pub open spec fn expiry_of(now: u64) -> usize {
    if now + SESSION_SECONDS <= usize::MAX {
        (now + SESSION_SECONDS) as usize
    } else {
        usize::MAX
    }
}

/// When a session that begins at `now` ends.
pub fn token_expiry(now: u64) -> (r: usize)
    ensures
        r == expiry_of(now),
{
    if now <= u64::MAX - SESSION_SECONDS {
        let end: u64 = now + SESSION_SECONDS;
        if end <= usize::MAX as u64 {
            return end as usize;
        }
    }
    usize::MAX
}

/// Reads the clock: `std::time::SystemTime::now`, as whole seconds since
/// `UNIX_EPOCH`; `None` for a clock that stands before it. Nothing is
/// known of the value.
#[verifier::external_body]
fn unix_seconds_now() -> Option<u64> {
    std::time::SystemTime::now().duration_since(std::time::UNIX_EPOCH).ok().map(|d| d.as_secs())
}

/// When a session that begins now ends; `None` where the clock stands
/// before the epoch.
pub fn chrono_exp_24h() -> (r: Option<usize>)
    ensures
        r matches Some(end) ==> exists|now: u64| end == expiry_of(now),
{
    expiry_by_clock(unix_seconds_now())
}

/// When a session ends that begins at the time that the clock gives, in
/// seconds since the epoch; `None` where the clock gives none.
pub fn expiry_by_clock(clock: Option<u64>) -> (r: Option<usize>)
    ensures
        r == match clock {
            Some(now) => Some(expiry_of(now)),
            None => None,
        },
{
    match clock {
        Some(now) => Some(token_expiry(now)),
        None => None,
    }
}

/// The claims of a session of `username` that begins at `now`.
pub fn claims_for(username: &str, is_admin: bool, now: u64) -> (r: Claims)
    ensures
        r.sub@ == username@,
        r.is_admin == is_admin,
        r.exp == expiry_of(now),
{
    Claims { sub: username.to_owned(), is_admin, exp: token_expiry(now) }
}

impl AuthUser {
    /// The user that a token's claims stand for.
    pub fn from_claims(claims: Claims) -> (r: AuthUser)
        ensures
            r.username == claims.sub,
            r.is_admin == claims.is_admin,
    {
        AuthUser { username: claims.sub, is_admin: claims.is_admin }
    }
}

impl AdminUser {
    /// Admits a signed-in user as administrator, or refuses one who is
    /// none.
    pub fn from_auth(auth: AuthUser) -> (r: Result<AdminUser, AppError>)
        ensures
            match r {
                Ok(admin) => auth.is_admin && admin.username == auth.username,
                Err(e) => !auth.is_admin && e is Forbidden && e.detail()
                    == "Admin access required"@,
            },
    {
        if !auth.is_admin {
            return Err(AppError::Forbidden("Admin access required".to_owned()));
        }
        Ok(AdminUser { username: auth.username })
    }
}

/// `s` without every leading repetition of `prefix`.
pub open spec fn strip_prefix_all(s: Seq<char>, prefix: Seq<char>) -> Seq<char>
    decreases s.len(),
{
    if prefix.len() > 0 && is_prefix_of(prefix, s) {
        strip_prefix_all(s.skip(prefix.len() as int), prefix)
    } else {
        s
    }
}

/// The words that a session cookie begins with.
pub open spec fn token_key() -> Seq<char> {
    "token="@
}

/// The token that one cookie carries, if it is the session cookie: the
/// cookie is trimmed, has to begin with `token=`, and gives what follows
/// every leading `token=`.
pub open spec fn token_of_cookie(cookie: Seq<char>) -> Option<Seq<char>> {
    let trimmed = trimmed_of(cookie);
    if is_prefix_of(token_key(), trimmed) {
        Some(strip_prefix_all(trimmed, token_key()))
    } else {
        None
    }
}

/// The token of the first session cookie among `cookies`.
pub open spec fn first_token(cookies: Seq<Seq<char>>) -> Option<Seq<char>>
    decreases cookies.len(),
{
    if cookies.len() == 0 {
        None
    } else {
        match first_token(cookies.drop_last()) {
            Some(token) => Some(token),
            None => token_of_cookie(cookies.last()),
        }
    }
}

/// The session token in the value of a `Cookie` header, whose cookies are
/// separated by `;`.
pub open spec fn token_in_cookies(header: Seq<char>) -> Option<Seq<char>> {
    first_token(split_on(header, ';'))
}

/// The token that a trimmed cookie carries, if it is the session cookie.
pub fn token_of_trimmed(trimmed: &str) -> (r: Option<String>)
    ensures
        match r {
            Some(token) => is_prefix_of(token_key(), trimmed@) && token@ == strip_prefix_all(
                trimmed@,
                token_key(),
            ),
            None => !is_prefix_of(token_key(), trimmed@),
        },
{
    let chars = chars_of(trimmed);
    let key = chars_of("token=");
    proof {
        reveal_strlit("token=");
    }
    if !chars_have_at(&chars, 0, &key) {
        assert(chars@.skip(0) =~= chars@);
        return None;
    }
    let mut at: usize = 0;
    assert(chars@.skip(0) =~= chars@);
    while chars_have_at(&chars, at, &key)
        invariant
            at <= chars.len(),
            key@ == token_key(),
            key@.len() == 6,
            strip_prefix_all(chars@, key@) == strip_prefix_all(chars@.skip(at as int), key@),
        decreases chars.len() - at,
    {
        proof {
            assert(chars@.skip(at as int).skip(6) =~= chars@.skip(at + 6));
        }
        at += 6;
    }
    Some(string_from(&chars, at))
}

/// The session token in the value of a `Cookie` header.
pub fn token_from_cookies(header: &str) -> (r: Option<String>)
    ensures
        match r {
            Some(token) => token_in_cookies(header@) == Some(token@),
            None => token_in_cookies(header@) is None,
        },
{
    let pieces = split_text_on(header, ';');
    let ghost cookies = chars_view(pieces@);
    let mut found: Option<String> = None;
    let mut i: usize = 0;
    proof {
        assert(cookies.take(0) =~= Seq::<Seq<char>>::empty());
    }
    while i < pieces.len()
        invariant
            i <= pieces.len(),
            cookies == chars_view(pieces@),
            match found {
                Some(token) => first_token(cookies.take(i as int)) == Some(token@),
                None => first_token(cookies.take(i as int)) is None,
            },
        decreases pieces.len() - i,
    {
        proof {
            assert(cookies.take(i + 1).drop_last() =~= cookies.take(i as int));
            assert(cookies.take(i + 1).last() == cookies[i as int]);
        }
        if found.is_none() {
            let cookie = string_of(&pieces[i]);
            found = token_of_trimmed(trim(cookie.as_str()));
        }
        i += 1;
    }
    proof {
        assert(cookies.take(pieces.len() as int) =~= cookies);
    }
    found
}

/// A user name as it is stored: trimmed, then in lowercase.
pub open spec fn normalized_username(raw: Seq<char>) -> Seq<char> {
    lowercase_of(trimmed_of(raw))
}

/// Brings a user name into the form in which it is stored.
pub fn normalize_username(raw: &str) -> (r: String)
    ensures
        r@ == normalized_username(raw@),
{
    to_lowercase(trim(raw))
}

/// The names that no user can take.
pub open spec fn is_reserved_name(name: Seq<char>) -> bool {
    name == "admin"@ || name == "api"@ || name == "static"@ || name == "dashboard"@ || name
        == "register"@ || name == "login"@ || name == "logout"@
}

/// Why a user name cannot be taken, if it cannot: the message for the
/// first of the rules that it breaks. A name is 1 to 32 bytes long, made
/// of letters, digits, `-` and `_`, and not reserved.
pub open spec fn username_fault(name: Seq<char>, bytes: nat) -> Option<Seq<char>> {
    if name.len() == 0 || bytes > MAX_USERNAME_BYTES {
        Some("Username must be 1-32 characters"@)
    } else if !has_username_chars(name) {
        Some("Username may only contain letters, numbers, hyphens, and underscores"@)
    } else if is_reserved_name(name) {
        Some("This username is reserved"@)
    } else {
        None
    }
}

/// Whether no user can take the name.
pub fn reserved_name(name: &str) -> (r: bool)
    ensures
        r == is_reserved_name(name@),
{
    str_eq(name, "admin") || str_eq(name, "api") || str_eq(name, "static") || str_eq(
        name,
        "dashboard",
    ) || str_eq(name, "register") || str_eq(name, "login") || str_eq(name, "logout")
}

/// Checks a normalized user name against the rules for new accounts.
pub fn validate_username(name: &str) -> (r: Result<(), AppError>)
    ensures
        match r {
            Ok(_) => username_fault(name@, name.spec_bytes().len()) is None,
            Err(e) => e is BadRequest && username_fault(name@, name.spec_bytes().len()) == Some(
                e.detail(),
            ),
        },
{
    if name.is_empty() || name.as_bytes().len() > MAX_USERNAME_BYTES {
        return Err(AppError::BadRequest("Username must be 1-32 characters".to_owned()));
    }
    if !only_username_chars(name) {
        return Err(
            AppError::BadRequest(
                "Username may only contain letters, numbers, hyphens, and underscores".to_owned(),
            ),
        );
    }
    if reserved_name(name) {
        return Err(AppError::BadRequest("This username is reserved".to_owned()));
    }
    Ok(())
}

/// The cookie that carries a session token for a day.
pub open spec fn session_cookie_of(token: Seq<char>) -> Seq<char> {
    "token="@ + token + "; Path=/; HttpOnly; SameSite=Lax; Max-Age=86400"@
}

/// The cookie that carries a session token for a day.
pub fn session_cookie(token: &str) -> (r: String)
    ensures
        r@ == session_cookie_of(token@),
{
    let head = concat("token=", token);
    concat(head.as_str(), "; Path=/; HttpOnly; SameSite=Lax; Max-Age=86400")
}

/// The cookie that ends a session.
pub fn logout_cookie() -> (r: String)
    ensures
        r@ == "token=; Path=/; HttpOnly; SameSite=Lax; Max-Age=0"@,
{
    "token=; Path=/; HttpOnly; SameSite=Lax; Max-Age=0".to_owned()
}

/// How a sign-in goes on once the name and the password are in.
#[derive(Clone, Copy, Debug, PartialEq, Eq, Structural)]
pub enum LoginStep {
    /// The administrator gave the configured password.
    AdminGranted,
    /// The administrator's name came with another password.
    AdminDenied,
    /// The name is a user's: the account has to be looked up.
    LookUpUser,
}

/// How a sign-in goes on. The name `admin` is checked against the
/// configured password; every other name is a user's.
pub open spec fn login_step_of(
    username: Seq<char>,
    password: Seq<char>,
    admin_password: Seq<char>,
) -> LoginStep {
    if username == "admin"@ {
        if password == admin_password {
            LoginStep::AdminGranted
        } else {
            LoginStep::AdminDenied
        }
    } else {
        LoginStep::LookUpUser
    }
}

/// Decides how a sign-in with a normalized name goes on.
pub fn begin_login(username: &str, password: &str, admin_password: &str) -> (r: LoginStep)
    ensures
        r == login_step_of(username@, password@, admin_password@),
{
    if str_eq(username, "admin") {
        if str_eq(password, admin_password) {
            LoginStep::AdminGranted
        } else {
            LoginStep::AdminDenied
        }
    } else {
        LoginStep::LookUpUser
    }
}

/// Ends a user's sign-in: it succeeds when the account exists and the
/// password matches its hash, and is refused in the same words otherwise.
pub fn finish_login(account_found: bool, password_matches: bool) -> (r: Result<(), AppError>)
    ensures
        match r {
            Ok(_) => account_found && password_matches,
            Err(e) => !(account_found && password_matches) && e is Unauthorized && e.detail()
                == "Invalid credentials"@,
        },
{
    if account_found && password_matches {
        Ok(())
    } else {
        Err(AppError::Unauthorized("Invalid credentials".to_owned()))
    }
}

/// Where a signed-in visitor is sent: administrators to `/admin`, users
/// to `/dashboard`.
pub fn landing_page(is_admin: bool) -> (r: &'static str)
    ensures
        r@ == if is_admin {
            "/admin"@
        } else {
            "/dashboard"@
        },
{
    if is_admin {
        "/admin"
    } else {
        "/dashboard"
    }
}

} // verus!
