//! Password hashes, by the `argon2` crate.

use vstd::prelude::*;
use crate::error::AppError;
use crate::text::{concat, is_prefix_of};

verus! {

/// The error of `argon2`'s password hashing, opaque here.
#[verifier::external_type_specification]
#[verifier::external_body]
pub struct ExPasswordHashError(argon2::password_hash::Error);

/// What checking `password` against the stored `hash` gives: `None` where
/// `argon2::PasswordHash::new` cannot parse the hash, else whether
/// `verify_password` of `argon2::Argon2::default()` accepts the password.
pub uninterp spec fn argon2_verdict(password: Seq<char>, hash: Seq<char>) -> Option<bool>;

/// Calls `hash_password` of `argon2::Argon2::default()` with a salt from
/// `SaltString::generate` over the system's random numbers, and gives the
/// hash in its text form. The salt is random, so the hash itself is not
/// known. What is claimed of it is what the crate's documentation shows of
/// every hash so made: parsed again, it is accepted by `verify_password`
/// for the same password, which computes the hash anew with the salt and
/// the parameters that the text carries and compares.
#[verifier::external_body]
fn argon2_hash(password: &str) -> (r: Result<String, argon2::password_hash::Error>)
    ensures
        r matches Ok(hash) ==> argon2_verdict(password@, hash@) == Some(true),
{
    let salt = argon2::password_hash::SaltString::generate(
        &mut argon2::password_hash::rand_core::OsRng,
    );
    argon2::PasswordHasher::hash_password(&argon2::Argon2::default(), password.as_bytes(), &salt)
        .map(|hash| hash.to_string())
}

/// Calls `argon2::PasswordHash::new` on the stored hash and, where it
/// parses, `verify_password` of `argon2::Argon2::default()`. The result
/// depends on the password and the hash alone.
#[verifier::external_body]
fn argon2_verify(password: &str, hash: &str) -> (r: Result<bool, argon2::password_hash::Error>)
    ensures
        match r {
            Ok(accepted) => argon2_verdict(password@, hash@) == Some(accepted),
            Err(_) => argon2_verdict(password@, hash@) is None,
        },
{
    argon2::PasswordHash::new(hash).map(
        |parsed|
            argon2::PasswordVerifier::verify_password(
                &argon2::Argon2::default(),
                password.as_bytes(),
                &parsed,
            ).is_ok(),
    )
}

/// The words of an error of `argon2`, by its `to_string`.
#[verifier::external_body]
fn argon2_error_text(error: &argon2::password_hash::Error) -> String {
    error.to_string()
}

/// What the hashing of a password comes to: the hash, or an internal
/// error that carries the words of the failure.
pub fn hashing_result(outcome: Result<String, String>) -> (r: Result<String, AppError>)
    ensures
        match outcome {
            Ok(hash) => r == Ok::<String, AppError>(hash),
            Err(words) => r matches Err(e) && e is Internal && e.detail()
                == "Failed to hash password: "@ + words@,
        },
{
    match outcome {
        Ok(hash) => Ok(hash),
        Err(words) => Err(
            AppError::Internal(concat("Failed to hash password: ", words.as_str())),
        ),
    }
}

/// What the check of a password comes to: the verdict, or an internal
/// error that carries the words of the failure to parse the stored hash.
pub fn verification_result(outcome: Result<bool, String>) -> (r: Result<bool, AppError>)
    ensures
        match outcome {
            Ok(accepted) => r == Ok::<bool, AppError>(accepted),
            Err(words) => r matches Err(e) && e is Internal && e.detail()
                == "Invalid password hash: "@ + words@,
        },
{
    match outcome {
        Ok(accepted) => Ok(accepted),
        Err(words) => Err(AppError::Internal(concat("Invalid password hash: ", words.as_str()))),
    }
}

/// Hashes a password for storage, with a salt of its own for each call.
/// The hash that comes back is one that `verify_password` accepts for this
/// password. A failure of the hashing is an internal error.
pub fn hash_password(password: &str) -> (r: Result<String, AppError>)
    ensures
        match r {
            Ok(hash) => argon2_verdict(password@, hash@) == Some(true),
            Err(e) => e is Internal && is_prefix_of("Failed to hash password: "@, e.detail()),
        },
{
    let outcome = match argon2_hash(password) {
        Ok(hash) => Ok(hash),
        Err(error) => Err(argon2_error_text(&error)),
    };
    let r = hashing_result(outcome);
    proof {
        if r is Err {
            assert(r->Err_0.detail().take("Failed to hash password: "@.len() as int)
                =~= "Failed to hash password: "@);
        }
    }
    r
}

/// Checks a password against a stored hash. A hash that cannot be parsed
/// is an internal error.
pub fn verify_password(password: &str, hash: &str) -> (r: Result<bool, AppError>)
    ensures
        match argon2_verdict(password@, hash@) {
            Some(accepted) => r == Ok::<bool, AppError>(accepted),
            None => r matches Err(e) && e is Internal && is_prefix_of(
                "Invalid password hash: "@,
                e.detail(),
            ),
        },
{
    let outcome = match argon2_verify(password, hash) {
        Ok(accepted) => Ok(accepted),
        Err(error) => Err(argon2_error_text(&error)),
    };
    let r = verification_result(outcome);
    proof {
        if r is Err {
            assert(r->Err_0.detail().take("Invalid password hash: "@.len() as int)
                =~= "Invalid password hash: "@);
        }
    }
    r
}

} // verus!
