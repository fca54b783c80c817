//! How the errors of the pipeline are reported over HTTP.

use vstd::prelude::*;
use vstd::string::StringExecFns;
use crate::config::MEBIBYTE;
use crate::error::{AppError, SiteError, UnsafePath};

verus! {

/// The character of a decimal digit.
pub open spec fn digit_char(digit: nat) -> char {
    if digit == 0 {
        '0'
    } else if digit == 1 {
        '1'
    } else if digit == 2 {
        '2'
    } else if digit == 3 {
        '3'
    } else if digit == 4 {
        '4'
    } else if digit == 5 {
        '5'
    } else if digit == 6 {
        '6'
    } else if digit == 7 {
        '7'
    } else if digit == 8 {
        '8'
    } else {
        '9'
    }
}

/// A number in decimal, without leading zeros.
pub open spec fn decimal_of(n: nat) -> Seq<char>
    decreases n,
{
    if n < 10 {
        seq![digit_char(n)]
    } else {
        decimal_of(n / 10).push(digit_char(n % 10))
    }
}

/// The character of a decimal digit.
fn digit(d: u64) -> (r: char)
    requires
        d < 10,
    ensures
        r == digit_char(d as nat),
{
    if d == 0 {
        '0'
    } else if d == 1 {
        '1'
    } else if d == 2 {
        '2'
    } else if d == 3 {
        '3'
    } else if d == 4 {
        '4'
    } else if d == 5 {
        '5'
    } else if d == 6 {
        '6'
    } else if d == 7 {
        '7'
    } else if d == 8 {
        '8'
    } else {
        '9'
    }
}

/// Appends a number in decimal to a text.
pub fn push_decimal(out: &mut String, n: u64)
    ensures
        final(out)@ == old(out)@ + decimal_of(n as nat),
    decreases n,
{
    if n >= 10 {
        push_decimal(out, n / 10);
    }
    let ghost before = out@;
    out.push(digit(n % 10));
    proof {
        if n >= 10 {
            assert(before.push(digit_char((n % 10) as nat)) =~= old(out)@ + decimal_of(n as nat));
        } else {
            assert(before.push(digit_char(n as nat)) =~= old(out)@ + decimal_of(n as nat));
        }
    }
}

/// A size in tenths of a mebibyte, rounded to the nearest tenth and,
/// half-way between two, to the even one.
pub open spec fn tenths_of_mebibytes(size: nat) -> nat {
    let scaled = size * 10;
    let whole = scaled / 0x10_0000;
    let rest = scaled % 0x10_0000;
    if rest > 0x8_0000 || (rest == 0x8_0000 && whole % 2 == 1) {
        whole + 1
    } else {
        whole
    }
}

/// A size in mebibytes with one decimal place, rounded as
/// `tenths_of_mebibytes` says.
pub open spec fn mebibytes_text(size: nat) -> Seq<char> {
    let tenths = tenths_of_mebibytes(size);
    decimal_of(tenths / 10).push('.').push(digit_char(tenths % 10))
}

/// Appends a size in mebibytes, with one decimal place, to a text.
pub fn push_mebibytes(out: &mut String, size: u64)
    ensures
        final(out)@ == old(out)@ + mebibytes_text(size as nat),
{
    let scaled: u128 = size as u128 * 10;
    let whole: u128 = scaled / 0x10_0000;
    let rest: u128 = scaled % 0x10_0000;
    let tenths: u128 = if rest > 0x8_0000 || (rest == 0x8_0000 && whole % 2 == 1) {
        whole + 1
    } else {
        whole
    };
    assert(tenths == tenths_of_mebibytes(size as nat));
    assert(tenths / 10 <= u64::MAX);
    let units: u64 = (tenths / 10) as u64;
    let last: u64 = (tenths % 10) as u64;
    push_decimal(out, units);
    out.push('.');
    out.push(digit(last));
    proof {
        assert(out@ =~= old(out)@ + mebibytes_text(size as nat));
    }
}

/// The words that say why a path was refused.
pub open spec fn unsafe_path_text(reason: UnsafePath) -> Seq<char> {
    match reason {
        UnsafePath::AbsolutePath => "Absolute path in archive"@,
        UnsafePath::PathTraversal => "Path traversal in archive"@,
        UnsafePath::HiddenEntry => "Hidden file in archive"@,
    }
}

/// The message that a pipeline error is reported with. No message holds a
/// path of the server.
pub open spec fn message_of(error: SiteError) -> Seq<char> {
    match error {
        SiteError::UploadTooLarge { limit } => "File exceeds maximum upload size of "@
            + decimal_of((limit / MEBIBYTE) as nat) + " MB"@,
        SiteError::UnsupportedFormat => "Unsupported format. Please upload a .zip or .tar.gz file"@,
        SiteError::CorruptArchive => "Invalid or damaged archive"@,
        SiteError::UnsafePath(reason) => unsafe_path_text(reason),
        SiteError::QuotaExceeded { size, limit } => "Extracted files ("@ + mebibytes_text(
            size as nat,
        ) + " MB) exceed disk quota of "@ + decimal_of((limit / MEBIBYTE) as nat) + " MB"@,
        SiteError::NotFound => "Not found"@,
        SiteError::Forbidden => "Access denied"@,
        SiteError::IOFailure => "Storage operation failed"@,
    }
}

/// The HTTP status that a pipeline error is reported with: what the client
/// can mend is a client error, a storage failure is the server's.
pub open spec fn status_of(error: SiteError) -> u16 {
    match error {
        SiteError::UploadTooLarge { .. } => 413,
        SiteError::UnsupportedFormat => 400,
        SiteError::CorruptArchive => 400,
        SiteError::UnsafePath(_) => 400,
        SiteError::QuotaExceeded { .. } => 413,
        SiteError::NotFound => 404,
        SiteError::Forbidden => 403,
        SiteError::IOFailure => 500,
    }
}

/// The message that a pipeline error is reported with.
pub fn error_message(error: SiteError) -> (r: String)
    ensures
        r@ == message_of(error),
{
    match error {
        SiteError::UploadTooLarge { limit } => {
            let mut out = "File exceeds maximum upload size of ".to_owned();
            push_decimal(&mut out, limit / MEBIBYTE);
            out.append(" MB");
            out
        },
        SiteError::UnsupportedFormat => {
            "Unsupported format. Please upload a .zip or .tar.gz file".to_owned()
        },
        SiteError::CorruptArchive => "Invalid or damaged archive".to_owned(),
        SiteError::UnsafePath(reason) => match reason {
            UnsafePath::AbsolutePath => "Absolute path in archive".to_owned(),
            UnsafePath::PathTraversal => "Path traversal in archive".to_owned(),
            UnsafePath::HiddenEntry => "Hidden file in archive".to_owned(),
        },
        SiteError::QuotaExceeded { size, limit } => {
            let mut out = "Extracted files (".to_owned();
            push_mebibytes(&mut out, size);
            out.append(" MB) exceed disk quota of ");
            push_decimal(&mut out, limit / MEBIBYTE);
            out.append(" MB");
            out
        },
        SiteError::NotFound => "Not found".to_owned(),
        SiteError::Forbidden => "Access denied".to_owned(),
        SiteError::IOFailure => "Storage operation failed".to_owned(),
    }
}

/// A pipeline error as the HTTP layer reports it.
pub fn to_app_error(error: SiteError) -> (r: AppError)
    ensures
        r.spec_status_code() == status_of(error),
        r.detail() == message_of(error),
{
    let message = error_message(error);
    match error {
        SiteError::UploadTooLarge { .. } => AppError::PayloadTooLarge(message),
        SiteError::UnsupportedFormat => AppError::BadRequest(message),
        SiteError::CorruptArchive => AppError::BadRequest(message),
        SiteError::UnsafePath(_) => AppError::BadRequest(message),
        SiteError::QuotaExceeded { .. } => AppError::PayloadTooLarge(message),
        SiteError::NotFound => AppError::NotFound(message),
        SiteError::Forbidden => AppError::Forbidden(message),
        SiteError::IOFailure => AppError::Internal(message),
    }
}

/// Only a storage failure is reported as the server's own error, and its
/// message never reaches the client.
pub proof fn law_client_errors_are_told_apart(error: SiteError)
    ensures
        status_of(error) == 500 <==> !error.spec_is_client_fixable(),
        error.spec_is_client_fixable() ==> 400 <= status_of(error) < 500,
{
}

} // verus!
