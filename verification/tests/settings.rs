use simple_pages::config::{
    limit_in_mebibytes, parse_number, Config, ConfigError, Limit, Settings, MAX_MEBIBYTES, MEBIBYTE,
};

fn unset() -> Settings {
    Settings {
        data_dir: None,
        disk_quota_mb: None,
        max_upload_mb: None,
        admin_password: None,
        jwt_secret: None,
        listen_addr: None,
    }
}

#[test]
fn numbers_are_read_as_the_standard_library_reads_them() {
    let texts = [
        "0",
        "7",
        "50",
        "007",
        "+12",
        "+0",
        "18446744073709551615",
        "18446744073709551616",
        "+18446744073709551615",
        "99999999999999999999999",
        "000000000000000000000000000001",
        "",
        "+",
        "-",
        "-0",
        "-1",
        "++1",
        "+-1",
        "1+",
        " 1",
        "1 ",
        "1_000",
        "1.5",
        "1e3",
        "0x10",
        "ten",
        "١٢٣",
        "１２",
        "12a",
        "a12",
        "1844674407370955161a",
    ];
    for text in texts {
        assert_eq!(parse_number(text), text.parse::<u64>().ok(), "{text:?}");
    }
    assert_eq!(parse_number("50"), Some(50));
    assert_eq!(parse_number("+12"), Some(12));
    assert_eq!(parse_number("18446744073709551615"), Some(u64::MAX));
    assert_eq!(parse_number("18446744073709551616"), None);
}

#[test]
fn limits_default_to_fifty_mebibytes() {
    assert_eq!(limit_in_mebibytes(&None, Limit::DiskQuota), Ok(50));
    assert_eq!(limit_in_mebibytes(&Some("5".to_string()), Limit::DiskQuota), Ok(5));
    assert_eq!(
        limit_in_mebibytes(&Some("five".to_string()), Limit::MaxUpload),
        Err(ConfigError::NotANumber(Limit::MaxUpload))
    );
    assert_eq!(limit_in_mebibytes(&Some(MAX_MEBIBYTES.to_string()), Limit::DiskQuota), Ok(MAX_MEBIBYTES));
    assert_eq!(
        limit_in_mebibytes(&Some((MAX_MEBIBYTES + 1).to_string()), Limit::DiskQuota),
        Err(ConfigError::TooLarge(Limit::DiskQuota))
    );
    assert_eq!(MAX_MEBIBYTES, u64::MAX / MEBIBYTE);
    assert_eq!(MEBIBYTE, 1024 * 1024);
}

#[test]
fn unset_settings_take_their_defaults() {
    let config = Config::from_settings(unset()).unwrap();
    assert_eq!(config.data_dir, "/data");
    assert_eq!(config.disk_quota_bytes, 50 * 1024 * 1024);
    assert_eq!(config.max_upload_bytes, 50 * 1024 * 1024);
    assert_eq!(config.admin_password, "admin");
    assert_eq!(config.jwt_secret, "change-me-in-production");
    assert_eq!(config.listen_addr, "0.0.0.0:8080");
    assert_eq!(config.db_path(), "/data/pages.db");
    assert_eq!(config.sites_dir(), "/data/sites");
}

#[test]
fn settings_that_are_set_are_taken() {
    let settings = Settings {
        data_dir: Some("/var/pages".to_string()),
        disk_quota_mb: Some("200".to_string()),
        max_upload_mb: Some("10".to_string()),
        admin_password: Some("hunter2".to_string()),
        jwt_secret: Some("k".to_string()),
        listen_addr: Some("127.0.0.1:3000".to_string()),
    };
    let config = Config::from_settings(settings).unwrap();
    assert_eq!(config.data_dir, "/var/pages");
    assert_eq!(config.disk_quota_bytes, 200 * 1024 * 1024);
    assert_eq!(config.max_upload_bytes, 10 * 1024 * 1024);
    assert_eq!(config.admin_password, "hunter2");
    assert_eq!(config.jwt_secret, "k");
    assert_eq!(config.listen_addr, "127.0.0.1:3000");
}

#[test]
fn settings_with_bad_limits_are_refused() {
    let mut settings = unset();
    settings.disk_quota_mb = Some("lots".to_string());
    settings.max_upload_mb = Some("more".to_string());
    assert_eq!(
        Config::from_settings(settings).unwrap_err(),
        ConfigError::NotANumber(Limit::DiskQuota)
    );
    let mut settings = unset();
    settings.max_upload_mb = Some("".to_string());
    assert_eq!(
        Config::from_settings(settings).unwrap_err(),
        ConfigError::NotANumber(Limit::MaxUpload)
    );
    let mut settings = unset();
    settings.max_upload_mb = Some("17592186044416".to_string());
    assert_eq!(
        Config::from_settings(settings).unwrap_err(),
        ConfigError::TooLarge(Limit::MaxUpload)
    );
}
