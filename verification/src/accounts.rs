//! Accounts and invite codes as they are stored, and the decisions of the
//! sign-up.

use vstd::prelude::*;
use crate::error::AppError;

verus! {

/// A stored account.
#[derive(Debug)]
pub struct User {
    pub id: i64,
    pub username: String,
    pub password_hash: String,
    pub is_admin: bool,
    pub created_at: String,
}

/// A stored invite code.
#[derive(Debug)]
pub struct InviteCode {
    pub code: String,
    pub created_at: String,
    pub used_by: Option<String>,
    pub used_at: Option<String>,
}

/// Whether a stored flag, an integer, is set.
pub fn flag_is_set(stored: i32) -> (r: bool)
    ensures
        r == (stored != 0),
{
    stored != 0
}

/// Admits a sign-up whose invite code matches at least one unused code.
pub fn check_invite_code(unused_matches: i32) -> (r: Result<(), AppError>)
    ensures
        match r {
            Ok(_) => unused_matches > 0,
            Err(e) => unused_matches <= 0 && e is BadRequest && e.detail()
                == "Invalid or already used invite code"@,
        },
{
    if unused_matches > 0 {
        Ok(())
    } else {
        Err(AppError::BadRequest("Invalid or already used invite code".to_owned()))
    }
}

/// The error for an account that could not be stored: a conflict where
/// the name is taken already, else an internal error with the store's own
/// words.
pub fn account_not_stored(name_is_taken: bool, detail: String) -> (r: AppError)
    ensures
        if name_is_taken {
            r is Conflict && r.detail() == "Username already taken"@
        } else {
            r is Internal && r.detail() == detail@
        },
{
    if name_is_taken {
        AppError::Conflict("Username already taken".to_owned())
    } else {
        AppError::Internal(detail)
    }
}

/// Whether a deletion that touched `rows` rows deleted anything.
pub fn deleted_any(rows: usize) -> (r: bool)
    ensures
        r == (rows > 0),
{
    rows > 0
}

} // verus!
