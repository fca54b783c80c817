use simple_pages::accounts::{account_not_stored, check_invite_code, deleted_any, flag_is_set};
use simple_pages::admin::{
    capped_count, default_count, generate_invite_code, invite_code_from, revocation_result,
};
use simple_pages::auth::{
    begin_login, chrono_exp_24h, claims_for, expiry_by_clock, finish_login, landing_page, logout_cookie,
    normalize_username, reserved_name, session_cookie, token_expiry, token_from_cookies,
    token_of_trimmed, validate_username, AdminUser, AuthUser, Claims, LoginStep,
};
use simple_pages::config::Config;
use simple_pages::error::{AppError, SiteError, UnsafePath};
use simple_pages::inspect::{site_info, site_url, FileEntry};
use simple_pages::password::{hash_password, hashing_result, verification_result, verify_password};
use simple_pages::report::{error_message, to_app_error};

const ALPHABET: &str = "ABCDEFGHJKLMNPQRSTUVWXYZ23456789";

#[test]
fn default_count_is_one() {
    assert_eq!(default_count(), 1);
}

#[test]
fn count_is_capped_at_fifty() {
    assert_eq!(capped_count(0), 0);
    assert_eq!(capped_count(1), 1);
    assert_eq!(capped_count(50), 50);
    assert_eq!(capped_count(51), 50);
    assert_eq!(capped_count(usize::MAX), 50);
}

#[test]
fn invite_code_from_picks() {
    assert_eq!(invite_code_from(&vec![0, 1, 2, 3, 4, 5, 6, 7]).unwrap(), "ABCD-EFGH");
    assert_eq!(invite_code_from(&vec![31, 30, 24, 25, 8, 0, 0, 31]).unwrap(), "9823-JAA9");
    assert_eq!(invite_code_from(&vec![23, 22, 13, 12, 7, 8, 9, 10]).unwrap(), "ZYPN-HJKL");
    assert_eq!(invite_code_from(&vec![0; 8]).unwrap(), "AAAA-AAAA");
    assert_eq!(invite_code_from(&vec![0; 7]), None);
    assert_eq!(invite_code_from(&vec![0; 9]), None);
    assert_eq!(invite_code_from(&vec![0, 0, 0, 0, 0, 0, 0, 32]), None);
}

#[test]
fn generated_invite_codes_have_the_form() {
    let mut seen = Vec::new();
    for _ in 0..200 {
        let code = generate_invite_code();
        let chars: Vec<char> = code.chars().collect();
        assert_eq!(chars.len(), 9, "{code}");
        assert_eq!(chars[4], '-');
        for (i, c) in chars.iter().enumerate() {
            if i != 4 {
                assert!(ALPHABET.contains(*c), "{code}");
            }
        }
        seen.push(code);
    }
    seen.sort();
    seen.dedup();
    assert!(seen.len() > 190, "codes repeat: {}", seen.len());
}

#[test]
fn revocation_of_a_missing_code_is_not_found() {
    assert_eq!(revocation_result(true), Ok(()));
    assert_eq!(
        revocation_result(false),
        Err(AppError::NotFound("Code not found or already used".to_string()))
    );
}

#[test]
fn session_ends_a_day_later() {
    assert_eq!(token_expiry(0), 86400);
    assert_eq!(token_expiry(1_700_000_000), 1_700_086_400);
    assert_eq!(token_expiry(u64::MAX), usize::MAX);
    assert_eq!(token_expiry(u64::MAX - 86400), usize::MAX);
    assert_eq!(expiry_by_clock(Some(1_700_000_000)), Some(1_700_086_400));
    assert_eq!(expiry_by_clock(Some(0)), Some(86400));
    assert_eq!(expiry_by_clock(None), None);
    let claims = claims_for("alice", false, 1000);
    assert_eq!((claims.sub.as_str(), claims.is_admin, claims.exp), ("alice", false, 87400));
    let now = std::time::SystemTime::now().duration_since(std::time::UNIX_EPOCH).unwrap().as_secs();
    let end = chrono_exp_24h().unwrap() as u64;
    assert!(end >= now + 86400 && end <= now + 86400 + 5);
}

#[test]
fn users_from_claims() {
    let user = AuthUser::from_claims(Claims { sub: "root".to_string(), is_admin: true, exp: 1 });
    assert_eq!((user.username.as_str(), user.is_admin), ("root", true));
    assert_eq!(AdminUser::from_auth(user).unwrap().username, "root");
    let plain = AuthUser { username: "bob".to_string(), is_admin: false };
    assert_eq!(
        AdminUser::from_auth(plain).unwrap_err(),
        AppError::Forbidden("Admin access required".to_string())
    );
}

#[test]
fn token_is_found_among_cookies() {
    assert_eq!(token_from_cookies("token=abc"), Some("abc".to_string()));
    assert_eq!(token_from_cookies("theme=dark; token=abc.def; lang=en"), Some("abc.def".to_string()));
    assert_eq!(token_from_cookies("  token=abc  ;x=y"), Some("abc".to_string()));
    assert_eq!(token_from_cookies("token=first; token=second"), Some("first".to_string()));
    assert_eq!(token_from_cookies("token="), Some(String::new()));
    assert_eq!(token_from_cookies("token=token=abc"), Some("abc".to_string()));
    assert_eq!(token_from_cookies("token=a=b"), Some("a=b".to_string()));
}

#[test]
fn token_is_missing_among_other_cookies() {
    assert_eq!(token_from_cookies(""), None);
    assert_eq!(token_from_cookies("theme=dark"), None);
    assert_eq!(token_from_cookies("xtoken=abc"), None);
    assert_eq!(token_from_cookies("Token=abc"), None);
    assert_eq!(token_from_cookies("token"), None);
    assert_eq!(token_from_cookies("theme=dark, token=abc"), None);
    assert_eq!(token_of_trimmed(" token=abc"), None);
    assert_eq!(token_of_trimmed("token=abc "), Some("abc ".to_string()));
}

#[test]
fn user_names_are_trimmed_and_lowercased() {
    assert_eq!(normalize_username("  Alice \n"), "alice");
    assert_eq!(normalize_username("BOB_99"), "bob_99");
    assert_eq!(normalize_username("\u{212a}evin"), "kevin");
    assert_eq!(normalize_username(" "), "");
}

#[test]
fn user_names_are_validated() {
    let bad = |m: &str| Err(AppError::BadRequest(m.to_string()));
    assert_eq!(validate_username("alice"), Ok(()));
    assert_eq!(validate_username("a"), Ok(()));
    assert_eq!(validate_username("a-b_c9"), Ok(()));
    assert_eq!(validate_username(&"x".repeat(32)), Ok(()));
    assert_eq!(validate_username(""), bad("Username must be 1-32 characters"));
    assert_eq!(validate_username(&"x".repeat(33)), bad("Username must be 1-32 characters"));
    assert_eq!(validate_username(&"é".repeat(17)), bad("Username must be 1-32 characters"));
    assert_eq!(
        validate_username(&"é".repeat(16)),
        bad("Username may only contain letters, numbers, hyphens, and underscores")
    );
    assert_eq!(
        validate_username("a.b"),
        bad("Username may only contain letters, numbers, hyphens, and underscores")
    );
    for name in ["admin", "api", "static", "dashboard", "register", "login", "logout"] {
        assert_eq!(validate_username(name), bad("This username is reserved"));
        assert!(reserved_name(name));
    }
    assert!(!reserved_name("administrator"));
    assert_eq!(validate_username("Admin"), Ok(()));
}

#[test]
fn session_cookies() {
    assert_eq!(
        session_cookie("abc.def"),
        "token=abc.def; Path=/; HttpOnly; SameSite=Lax; Max-Age=86400"
    );
    assert_eq!(logout_cookie(), "token=; Path=/; HttpOnly; SameSite=Lax; Max-Age=0");
}

#[test]
fn sign_in_of_the_administrator_and_of_users() {
    assert_eq!(begin_login("admin", "s3cret", "s3cret"), LoginStep::AdminGranted);
    assert_eq!(begin_login("admin", "guess", "s3cret"), LoginStep::AdminDenied);
    assert_eq!(begin_login("admin", "", "s3cret"), LoginStep::AdminDenied);
    assert_eq!(begin_login("alice", "s3cret", "s3cret"), LoginStep::LookUpUser);
    assert_eq!(begin_login("", "", ""), LoginStep::LookUpUser);
    let refused = Err(AppError::Unauthorized("Invalid credentials".to_string()));
    assert_eq!(finish_login(true, true), Ok(()));
    assert_eq!(finish_login(true, false), refused);
    assert_eq!(finish_login(false, true), refused);
    assert_eq!(finish_login(false, false), refused);
    assert_eq!(landing_page(true), "/admin");
    assert_eq!(landing_page(false), "/dashboard");
}

#[test]
fn sign_up_decisions() {
    assert_eq!(check_invite_code(1), Ok(()));
    assert_eq!(check_invite_code(3), Ok(()));
    let invalid = Err(AppError::BadRequest("Invalid or already used invite code".to_string()));
    assert_eq!(check_invite_code(0), invalid);
    assert_eq!(check_invite_code(-1), invalid);
    assert_eq!(
        account_not_stored(true, "UNIQUE constraint failed".to_string()),
        AppError::Conflict("Username already taken".to_string())
    );
    assert_eq!(
        account_not_stored(false, "disk I/O error".to_string()),
        AppError::Internal("disk I/O error".to_string())
    );
    assert!(deleted_any(1));
    assert!(!deleted_any(0));
    assert!(flag_is_set(1));
    assert!(flag_is_set(-7));
    assert!(!flag_is_set(0));
}

#[test]
fn passwords_are_hashed_and_verified() {
    let hash = hash_password("correct horse").unwrap();
    assert!(hash.starts_with("$argon2"));
    assert_ne!(hash, "correct horse");
    assert_eq!(verify_password("correct horse", &hash), Ok(true));
    assert_eq!(verify_password("wrong horse", &hash), Ok(false));
    assert_eq!(verify_password("", &hash), Ok(false));
    let again = hash_password("correct horse").unwrap();
    assert_ne!(hash, again);
    assert_eq!(verify_password("correct horse", &again), Ok(true));
}

#[test]
fn malformed_hash_is_an_internal_error() {
    for hash in ["", "plain", "$argon2id$"] {
        match verify_password("pw", hash) {
            Err(AppError::Internal(message)) => {
                assert!(message.starts_with("Invalid password hash: "), "{message}")
            }
            other => panic!("{hash:?}: {other:?}"),
        }
    }
}

#[test]
fn app_errors_have_status_and_messages() {
    let cases = [
        (AppError::BadRequest("m".to_string()), 400, "Bad request: m"),
        (AppError::Unauthorized("m".to_string()), 401, "Unauthorized: m"),
        (AppError::Forbidden("m".to_string()), 403, "Forbidden: m"),
        (AppError::NotFound("m".to_string()), 404, "Not found: m"),
        (AppError::Conflict("m".to_string()), 409, "Conflict: m"),
        (AppError::PayloadTooLarge("m".to_string()), 413, "Payload too large: m"),
        (AppError::Internal("m".to_string()), 500, "Internal error: m"),
    ];
    for (error, status, text) in cases {
        assert_eq!(error.status_code(), status);
        assert_eq!(error.describe(), text);
        let shown = if status == 500 { "Internal server error" } else { "m" };
        assert_eq!(error.client_message(), shown);
    }
}

#[test]
fn pipeline_errors_are_reported() {
    let mib = 1024 * 1024;
    let cases = [
        (
            SiteError::UploadTooLarge { limit: 50 * mib },
            AppError::PayloadTooLarge("File exceeds maximum upload size of 50 MB".to_string()),
        ),
        (
            SiteError::UploadTooLarge { limit: mib - 1 },
            AppError::PayloadTooLarge("File exceeds maximum upload size of 0 MB".to_string()),
        ),
        (
            SiteError::UnsupportedFormat,
            AppError::BadRequest("Unsupported format. Please upload a .zip or .tar.gz file".to_string()),
        ),
        (SiteError::CorruptArchive, AppError::BadRequest("Invalid or damaged archive".to_string())),
        (
            SiteError::UnsafePath(UnsafePath::AbsolutePath),
            AppError::BadRequest("Absolute path in archive".to_string()),
        ),
        (
            SiteError::UnsafePath(UnsafePath::PathTraversal),
            AppError::BadRequest("Path traversal in archive".to_string()),
        ),
        (
            SiteError::UnsafePath(UnsafePath::HiddenEntry),
            AppError::BadRequest("Hidden file in archive".to_string()),
        ),
        (
            SiteError::QuotaExceeded { size: 52 * mib + mib / 2, limit: 50 * mib },
            AppError::PayloadTooLarge("Extracted files (52.5 MB) exceed disk quota of 50 MB".to_string()),
        ),
        (SiteError::NotFound, AppError::NotFound("Not found".to_string())),
        (SiteError::Forbidden, AppError::Forbidden("Access denied".to_string())),
        (SiteError::IOFailure, AppError::Internal("Storage operation failed".to_string())),
    ];
    for (error, expected) in cases {
        assert_eq!(to_app_error(error), expected);
        assert_eq!(error.is_client_fixable(), expected.status_code() != 500);
    }
}

#[test]
fn quota_message_agrees_with_floating_point_formatting() {
    let mib = 1024.0 * 1024.0;
    let sizes: [u64; 16] = [
        0,
        1,
        52_428,
        52_429,
        104_857,
        104_858,
        157_286,
        157_287,
        262_144,
        786_432,
        1_310_720,
        1_048_576,
        53_000_000,
        1_234_567_890,
        (1 << 53) - 1,
        999_999_999_999,
    ];
    for size in sizes {
        let expected = format!(
            "Extracted files ({:.1} MB) exceed disk quota of {} MB",
            size as f64 / mib,
            7
        );
        assert_eq!(
            error_message(SiteError::QuotaExceeded { size, limit: 7 * 1024 * 1024 + 5 }),
            expected,
            "{size}"
        );
    }
}

#[test]
fn config_paths() {
    let config = Config::from_parts(
        "/data".to_string(),
        50,
        20,
        "admin".to_string(),
        "secret".to_string(),
        "0.0.0.0:8080".to_string(),
    );
    assert_eq!(config.db_path(), "/data/pages.db");
    assert_eq!(config.sites_dir(), "/data/sites");
    assert_eq!(config.disk_quota_bytes, 50 * 1024 * 1024);
    assert_eq!(config.max_upload_bytes, 20 * 1024 * 1024);
    assert_eq!(config.data_dir, "/data");
    let trailing = Config::from_parts(
        "data/".to_string(),
        0,
        0,
        String::new(),
        String::new(),
        String::new(),
    );
    assert_eq!(trailing.db_path(), "data/pages.db");
    assert_eq!(trailing.sites_dir(), "data/sites");
    for dir in ["/data", "data/", "", "/", "a/b"] {
        let config = Config::from_parts(dir.to_string(), 1, 1, String::new(), String::new(), String::new());
        let expected = std::path::PathBuf::from(dir).join("sites");
        assert_eq!(config.sites_dir(), expected.to_str().unwrap(), "{dir:?}");
    }
}

#[test]
fn site_info_names_the_public_prefix() {
    assert_eq!(site_url("alice"), "/alice/");
    let files = vec![FileEntry { path: "index.html".to_string(), size: 3 }];
    let info = site_info("alice", files, 3, 100);
    assert_eq!(info.username, "alice");
    assert_eq!(info.site_url, "/alice/");
    assert_eq!(info.disk_usage_bytes, 3);
    assert_eq!(info.quota_bytes, 100);
    assert_eq!(info.files.len(), 1);
    assert_eq!(info.files[0].path, "index.html");
}

#[test]
fn outcomes_of_hashing_and_checking() {
    assert_eq!(hashing_result(Ok("$argon2id$x".to_string())), Ok("$argon2id$x".to_string()));
    assert_eq!(
        hashing_result(Err("out of memory".to_string())),
        Err(AppError::Internal("Failed to hash password: out of memory".to_string()))
    );
    assert_eq!(verification_result(Ok(true)), Ok(true));
    assert_eq!(verification_result(Ok(false)), Ok(false));
    assert_eq!(
        verification_result(Err("invalid".to_string())),
        Err(AppError::Internal("Invalid password hash: invalid".to_string()))
    );
}
