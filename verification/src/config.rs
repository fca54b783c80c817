//! Settings that the service runs with.

use vstd::prelude::*;
use crate::path::{join_paths, join_relative};
use crate::text::chars_of;

verus! {

/// The largest number of mebibytes whose byte count fits in 64 bits.
pub const MAX_MEBIBYTES: u64 = 0xfff_ffff_ffff;

/// Bytes in one mebibyte.
pub const MEBIBYTE: u64 = 0x10_0000;

/// The settings of one running service.
#[derive(Clone, Debug)]
pub struct Config {
    /// Directory that holds the database and the published sites.
    pub data_dir: String,
    /// Largest total size of one published site, in bytes.
    pub disk_quota_bytes: u64,
    /// Largest accepted upload, in bytes.
    pub max_upload_bytes: u64,
    /// Password of the administrator account.
    pub admin_password: String,
    /// Key that session tokens are signed with.
    pub jwt_secret: String,
    /// Address that the service listens on.
    pub listen_addr: String,
}

/// A setting that is given as a number of mebibytes.
#[derive(Clone, Copy, Debug, PartialEq, Eq, Structural)]
pub enum Limit {
    DiskQuota,
    MaxUpload,
}

/// Why the settings cannot be used.
#[derive(Clone, Copy, Debug, PartialEq, Eq, Structural)]
pub enum ConfigError {
    /// The setting is no number.
    NotANumber(Limit),
    /// The setting, in bytes, does not fit in 64 bits.
    TooLarge(Limit),
}

/// The settings as the environment gives them: each one a text, or
/// `None` where it is not set.
#[derive(Debug)]
pub struct Settings {
    pub data_dir: Option<String>,
    pub disk_quota_mb: Option<String>,
    pub max_upload_mb: Option<String>,
    pub admin_password: Option<String>,
    pub jwt_secret: Option<String>,
    pub listen_addr: Option<String>,
}

/// A decimal digit.
pub open spec fn is_digit(c: char) -> bool {
    '0' <= c && c <= '9'
}

/// The number that a digit stands for.
pub open spec fn digit_value(c: char) -> nat {
    (c as int - '0' as int) as nat
}

/// The number that a text of digits stands for.
pub open spec fn digits_value(digits: Seq<char>) -> nat
    decreases digits.len(),
{
    if digits.len() == 0 {
        0
    } else {
        digits_value(digits.drop_last()) * 10 + digit_value(digits.last())
    }
}

/// Whether a text holds nothing but decimal digits.
pub open spec fn all_digits(digits: Seq<char>) -> bool {
    forall|i: int| 0 <= i < digits.len() ==> is_digit(#[trigger] digits[i])
}

/// A text without the `+` that it may begin with.
pub open spec fn unsigned_part(text: Seq<char>) -> Seq<char> {
    if text.len() > 0 && text[0] == '+' {
        text.skip(1)
    } else {
        text
    }
}

/// The number that a text stands for: one or more decimal digits, which a
/// `+` may precede. Anything else stands for none.
pub open spec fn number_of(text: Seq<char>) -> Option<nat> {
    let digits = unsigned_part(text);
    if digits.len() > 0 && all_digits(digits) {
        Some(digits_value(digits))
    } else {
        None
    }
}

/// The number that a text stands for, where it fits in 64 bits.
pub open spec fn number_in_u64(text: Seq<char>) -> Option<u64> {
    match number_of(text) {
        Some(n) => if n <= u64::MAX {
            Some(n as u64)
        } else {
            None
        },
        None => None,
    }
}

/// The value of the first digits is no larger than that of all.
pub proof fn lemma_digits_value_grows(digits: Seq<char>, upto: int)
    requires
        0 <= upto <= digits.len(),
    ensures
        digits_value(digits.take(upto)) <= digits_value(digits),
    decreases digits.len() - upto,
{
    if upto < digits.len() {
        lemma_digits_value_grows(digits, upto + 1);
        assert(digits.take(upto + 1).drop_last() =~= digits.take(upto));
    } else {
        assert(digits.take(upto) =~= digits);
    }
}

/// Reads a number in decimal, as `u64::from_str` does: digits only, after
/// an optional `+`. A text that is no number, or one whose number does not
/// fit in 64 bits, gives `None`.
pub fn parse_number(text: &str) -> (r: Option<u64>)
    ensures
        r == number_in_u64(text@),
{
    let chars = chars_of(text);
    let start: usize = if chars.len() > 0 && chars[0] == '+' {
        1
    } else {
        0
    };
    if start == chars.len() {
        return None;
    }
    let ghost digits = unsigned_part(chars@);
    proof {
        assert(chars@.skip(0) =~= chars@);
        assert(digits =~= chars@.skip(start as int));
    }
    let mut value: u64 = 0;
    let mut i: usize = start;
    proof {
        assert(digits.take(0) =~= Seq::<char>::empty());
    }
    while i < chars.len()
        invariant
            start <= i <= chars.len(),
            start < chars.len(),
            chars@ == text@,
            digits == chars@.skip(start as int),
            digits == unsigned_part(text@),
            forall|k: int| 0 <= k < i - start ==> is_digit(#[trigger] digits[k]),
            value == digits_value(digits.take(i - start)),
        decreases chars.len() - i,
    {
        let c = chars[i];
        proof {
            assert(digits[i - start] == c);
            assert(digits.take(i - start + 1).drop_last() =~= digits.take(i - start));
            assert(digits.take(i - start + 1).last() == c);
        }
        if !('0' <= c && c <= '9') {
            return None;
        }
        let d: u64 = (c as u32 - '0' as u32) as u64;
        assert(d == digit_value(c));
        if value > (u64::MAX - d) / 10 {
            proof {
                lemma_digits_value_grows(digits, i - start + 1);
            }
            return None;
        }
        value = value * 10 + d;
        i += 1;
    }
    proof {
        assert(digits.take(digits.len() as int) =~= digits);
    }
    Some(value)
}

/// A limit in mebibytes: 50 where it is not set, else the number that it
/// is set to.
pub fn limit_in_mebibytes(set_to: &Option<String>, which: Limit) -> (r: Result<u64, ConfigError>)
    ensures
        r == match limit_of(*set_to) {
            Ok(n) => Ok::<u64, ConfigError>(n),
            Err(fault) => Err::<u64, ConfigError>(fault.on(which)),
        },
{
    match set_to {
        None => Ok(50),
        Some(text) => match parse_number(text.as_str()) {
            None => Err(ConfigError::NotANumber(which)),
            Some(n) => if n > MAX_MEBIBYTES {
                Err(ConfigError::TooLarge(which))
            } else {
                Ok(n)
            },
        },
    }
}

/// The text that a setting is set to, or its default.
fn text_or(set_to: Option<String>, default: &str) -> (r: String)
    ensures
        r@ == text_of(set_to, default@),
{
    match set_to {
        Some(text) => text,
        None => default.to_owned(),
    }
}

/// Why a limit cannot be used, whichever limit it is.
#[derive(Clone, Copy, Debug, PartialEq, Eq, Structural)]
pub enum LimitFault {
    NotANumber,
    TooLarge,
}

impl LimitFault {
    /// The fault as that of the limit `which`.
    pub open spec fn on(self, which: Limit) -> ConfigError {
        match self {
            LimitFault::NotANumber => ConfigError::NotANumber(which),
            LimitFault::TooLarge => ConfigError::TooLarge(which),
        }
    }
}

/// The number of mebibytes that a limit is set to: 50 where it is not set.
pub open spec fn limit_of(set_to: Option<String>) -> Result<u64, LimitFault> {
    match set_to {
        None => Ok(50),
        Some(text) => match number_in_u64(text@) {
            None => Err(LimitFault::NotANumber),
            Some(n) => if n > MAX_MEBIBYTES {
                Err(LimitFault::TooLarge)
            } else {
                Ok(n)
            },
        },
    }
}

/// The text that a setting is set to, or its default.
pub open spec fn text_of(set_to: Option<String>, default: Seq<char>) -> Seq<char> {
    match set_to {
        Some(text) => text@,
        None => default,
    }
}

impl Config {
    /// The settings of a service from what the environment gives. What is
    /// not set takes its default: 50 mebibytes for each limit, `/data` for
    /// the data directory, `admin` for the administrator's password,
    /// `change-me-in-production` for the signing key and `0.0.0.0:8080` for
    /// the address. The quota is looked at before the upload limit.
    pub fn from_settings(settings: Settings) -> (r: Result<Config, ConfigError>)
        ensures
            match r {
                Ok(config) => {
                    &&& limit_of(settings.disk_quota_mb) matches Ok(quota)
                    &&& limit_of(settings.max_upload_mb) matches Ok(upload)
                    &&& config.disk_quota_bytes == quota * MEBIBYTE
                    &&& config.max_upload_bytes == upload * MEBIBYTE
                    &&& config.data_dir@ == text_of(settings.data_dir, "/data"@)
                    &&& config.admin_password@ == text_of(settings.admin_password, "admin"@)
                    &&& config.jwt_secret@ == text_of(
                        settings.jwt_secret,
                        "change-me-in-production"@,
                    )
                    &&& config.listen_addr@ == text_of(settings.listen_addr, "0.0.0.0:8080"@)
                },
                Err(e) => match limit_of(settings.disk_quota_mb) {
                    Err(fault) => e == fault.on(Limit::DiskQuota),
                    Ok(_) => limit_of(settings.max_upload_mb) matches Err(fault) && e == fault.on(
                        Limit::MaxUpload,
                    ),
                },
            },
    {
        let Settings {
            data_dir,
            disk_quota_mb,
            max_upload_mb,
            admin_password,
            jwt_secret,
            listen_addr,
        } = settings;
        let quota = match limit_in_mebibytes(&disk_quota_mb, Limit::DiskQuota) {
            Ok(n) => n,
            Err(e) => {
                return Err(e);
            },
        };
        let upload = match limit_in_mebibytes(&max_upload_mb, Limit::MaxUpload) {
            Ok(n) => n,
            Err(e) => {
                return Err(e);
            },
        };
        Ok(
            Config::from_parts(
                text_or(data_dir, "/data"),
                quota,
                upload,
                text_or(admin_password, "admin"),
                text_or(jwt_secret, "change-me-in-production"),
                text_or(listen_addr, "0.0.0.0:8080"),
            ),
        )
    }

    /// Settings from their parts, with the two limits given in mebibytes.
    pub fn from_parts(
        data_dir: String,
        disk_quota_mb: u64,
        max_upload_mb: u64,
        admin_password: String,
        jwt_secret: String,
        listen_addr: String,
    ) -> (r: Config)
        requires
            disk_quota_mb <= MAX_MEBIBYTES,
            max_upload_mb <= MAX_MEBIBYTES,
        ensures
            r.data_dir == data_dir,
            r.disk_quota_bytes == disk_quota_mb * MEBIBYTE,
            r.max_upload_bytes == max_upload_mb * MEBIBYTE,
            r.admin_password == admin_password,
            r.jwt_secret == jwt_secret,
            r.listen_addr == listen_addr,
    {
        Config {
            data_dir,
            disk_quota_bytes: disk_quota_mb * MEBIBYTE,
            max_upload_bytes: max_upload_mb * MEBIBYTE,
            admin_password,
            jwt_secret,
            listen_addr,
        }
    }

    /// Where the database file lives: `pages.db` inside the data directory.
    pub fn db_path(&self) -> (r: String)
        ensures
            r@ == join_paths(self.data_dir@, "pages.db"@),
    {
        join_relative(self.data_dir.as_str(), "pages.db")
    }

    /// The sandbox root: `sites` inside the data directory.
    pub fn sites_dir(&self) -> (r: String)
        ensures
            r@ == join_paths(self.data_dir@, "sites"@),
    {
        join_relative(self.data_dir.as_str(), "sites")
    }
}

} // verus!
