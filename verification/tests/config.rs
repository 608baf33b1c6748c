use outlook_mail_pool_api::config::{env_i64, env_usize, imap_worker_permits};

#[test]
fn numeric_settings_fall_back_to_defaults() {
    assert_eq!(env_i64(Some("42"), 900), 42);
    assert_eq!(env_i64(Some("-5"), 900), -5);
    assert_eq!(env_i64(Some("+7"), 900), 7);
    assert_eq!(env_i64(Some(" 7"), 900), 900);
    assert_eq!(env_i64(Some("abc"), 900), 900);
    assert_eq!(env_i64(Some("-"), 900), 900);
    assert_eq!(env_i64(Some("9223372036854775807"), 1), i64::MAX);
    assert_eq!(env_i64(Some("-9223372036854775808"), 1), i64::MIN);
    assert_eq!(env_i64(Some("9223372036854775808"), 1), 1);
    assert_eq!(env_i64(None, 900), 900);
}

#[test]
fn count_settings_fall_back_to_defaults() {
    assert_eq!(env_usize(Some("4"), 16), 4);
    assert_eq!(env_usize(Some("-1"), 16), 16);
    assert_eq!(env_usize(Some(""), 16), 16);
    assert_eq!(env_usize(None, 16), 16);
    assert_eq!(env_usize(Some("99999999999999999999999"), 16), 16);
}

#[test]
fn at_least_one_imap_worker() {
    assert_eq!(imap_worker_permits(0), 1);
    assert_eq!(imap_worker_permits(16), 16);
}
