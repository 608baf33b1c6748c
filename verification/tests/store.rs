use outlook_mail_pool_api::importer::ImportedAccount;
use outlook_mail_pool_api::store::{
    account_record, checked_status, choose_lease_row, count_stats, lease_from, lease_times,
    lease_ttl_seconds, leased_account, stored_mail, time_text, truncate_error, AccountRow,
    LeaseRow, MailRow, Timestamp,
};

fn row(id: &str, status: &str, until: Option<&str>, updated_at: &str) -> LeaseRow {
    LeaseRow {
        id: id.to_string(),
        email: format!("{id}@outlook.com"),
        password: format!("{id}-pass"),
        imap_host: "outlook.office365.com".to_string(),
        imap_port: 993,
        status: status.to_string(),
        lease_token: String::new(),
        lease_until: until.map(|u| u.to_string()),
        updated_at: updated_at.to_string(),
    }
}

const T0: &str = "2026-01-01T00:00:00+00:00";
const T1: &str = "2026-01-01T00:01:00+00:00";
const T5: &str = "2026-01-01T00:05:00+00:00";
const T9: &str = "2026-01-01T00:09:00+00:00";

/// The row that importing an account creates.
fn imported_row(id: &str, account: &ImportedAccount) -> LeaseRow {
    LeaseRow {
        id: id.to_string(),
        email: account.email.clone(),
        password: account.password.clone(),
        imap_host: account.imap_host.clone(),
        imap_port: i64::from(account.imap_port),
        status: "idle".to_string(),
        lease_token: String::new(),
        lease_until: None,
        updated_at: T0.to_string(),
    }
}

#[test]
fn imports_and_leases_distinct_accounts() {
    let accounts = [
        ImportedAccount {
            email: "a@outlook.com".to_string(),
            password: "a-pass".to_string(),
            imap_host: "outlook.office365.com".to_string(),
            imap_port: 993,
        },
        ImportedAccount {
            email: "b@outlook.com".to_string(),
            password: "b-pass".to_string(),
            imap_host: "outlook.office365.com".to_string(),
            imap_port: 993,
        },
    ];
    let mut rows = vec![imported_row("1", &accounts[0]), imported_row("2", &accounts[1])];
    let now = Timestamp { secs: 1_767_225_600, nanos: 0 };
    let (taken, until) = lease_times(now, 300).unwrap();

    let i = lease_from(&mut rows, &taken, &until, "token-1").unwrap();
    let first = leased_account(&rows[i]);
    let j = lease_from(&mut rows, &taken, &until, "token-2").unwrap();
    let second = leased_account(&rows[j]);

    assert_ne!(first.email, second.email);
    assert!(!first.token.is_empty());
    assert!(!second.token.is_empty());
    assert!(lease_from(&mut rows, &taken, &until, "token-3").is_none());
}

#[test]
fn leases_distinct_accounts_until_the_pool_is_empty() {
    let mut rows = vec![row("a", "idle", None, T0), row("b", "idle", None, T0)];
    let first = lease_from(&mut rows, T1, T5, "tok-1").unwrap();
    let second = lease_from(&mut rows, T1, T5, "tok-2").unwrap();
    assert_ne!(first, second);
    assert_ne!(rows[first].email, rows[second].email);
    assert_eq!(rows[first].status, "leased");
    assert_eq!(rows[first].lease_token, "tok-1");
    assert_eq!(rows[first].lease_until.as_deref(), Some(T5));
    assert_eq!(rows[first].updated_at, T1);
    assert_eq!(lease_from(&mut rows, T1, T5, "tok-3"), None);
    assert_eq!(rows.len(), 2);
    let leased = leased_account(&rows[second]);
    assert_eq!(leased.token, "tok-2");
    assert!(!leased.token.is_empty());
}

#[test]
fn expired_lease_makes_account_available_again() {
    let mut rows = vec![row("a", "idle", None, T0)];
    assert_eq!(lease_from(&mut rows, T0, T5, "tok-1"), Some(0));
    assert_eq!(lease_from(&mut rows, T5, T9, "tok-2"), None);
    assert_eq!(lease_from(&mut rows, T9, T9, "tok-3"), Some(0));
    assert_eq!(rows[0].lease_token, "tok-3");
}

#[test]
fn ready_accounts_go_before_idle_then_oldest_update_first() {
    let rows = vec![
        row("e", "error", None, T0),
        row("i2", "idle", None, T5),
        row("i1", "idle", None, T1),
        row("r", "ready", None, T9),
        row("x", "disabled", None, T0),
    ];
    assert_eq!(choose_lease_row(&rows, T9), Some(3));
    let mut rows = vec![row("e", "error", None, T0), row("i2", "idle", None, T5), row("i1", "idle", None, T1)];
    assert_eq!(choose_lease_row(&rows, T9), Some(2));
    assert_eq!(lease_from(&mut rows, T9, T9, "t"), Some(2));
    assert_eq!(rows[0].status, "error");
    assert_eq!(rows[1].status, "idle");
    assert_eq!(rows[1].updated_at, T5);
    let rows = vec![row("e", "error", None, T0), row("x", "disabled", None, T0)];
    assert_eq!(choose_lease_row(&rows, T9), Some(0));
    let rows = vec![row("x", "disabled", None, T0), row("l", "leased", None, T0)];
    assert_eq!(choose_lease_row(&rows, T9), None);
    let rows = vec![row("a", "idle", None, T1), row("b", "idle", None, T1)];
    assert_eq!(choose_lease_row(&rows, T9), Some(0));
}

#[test]
fn lease_lasts_at_least_a_minute() {
    assert_eq!(lease_ttl_seconds(300), 300);
    assert_eq!(lease_ttl_seconds(5), 60);
    assert_eq!(lease_ttl_seconds(-10), 60);
}

#[test]
fn recorded_errors_are_cut_to_500_characters() {
    let long: String = "é".repeat(600);
    assert_eq!(truncate_error(&long).chars().count(), 500);
    assert_eq!(truncate_error("short"), "short");
}

#[test]
fn checked_status_follows_the_error() {
    assert_eq!(checked_status(""), "ready");
    assert_eq!(checked_status("boom"), "error");
}

#[test]
fn stats_count_accounts_by_status() {
    let statuses: Vec<String> = ["idle", "leased", "ready", "ready", "error", "odd"]
        .iter()
        .map(|s| s.to_string())
        .collect();
    let stats = count_stats(&statuses, 9);
    assert_eq!(stats.total, 6);
    assert_eq!(stats.idle, 1);
    assert_eq!(stats.leased, 1);
    assert_eq!(stats.ready, 2);
    assert_eq!(stats.error, 1);
    assert_eq!(stats.messages, 9);
    let known: Vec<String> = ["idle", "leased", "ready", "error", "ready"].iter().map(|s| s.to_string()).collect();
    let stats = count_stats(&known, 0);
    assert_eq!(stats.idle + stats.leased + stats.ready + stats.error, stats.total);
}

#[test]
fn lease_times_are_rfc3339_and_at_least_a_minute_apart() {
    let now = Timestamp { secs: 1_751_364_000, nanos: 0 };
    let (taken, until) = lease_times(now, 5).unwrap();
    assert_eq!(taken, "2025-07-01T10:00:00+00:00");
    assert_eq!(until, "2025-07-01T10:01:00+00:00");
    let (_, until) = lease_times(now, 900).unwrap();
    assert_eq!(until, "2025-07-01T10:15:00+00:00");
    assert_eq!(lease_times(now, i64::MAX), None);
}

fn account_row(created: &str, updated: &str, checked: Option<&str>) -> AccountRow {
    AccountRow {
        id: "id-1".to_string(),
        email: "a@outlook.com".to_string(),
        imap_host: "outlook.office365.com".to_string(),
        imap_port: 993,
        status: "ready".to_string(),
        last_error: String::new(),
        last_checked_at: checked.map(|c| c.to_string()),
        created_at: created.to_string(),
        updated_at: updated.to_string(),
    }
}

#[test]
fn account_records_read_their_stored_times() {
    let record = account_record(account_row(T0, "2026-01-01T08:01:00+08:00", Some(T5))).unwrap();
    assert_eq!(record.id, "id-1");
    assert_eq!(record.email, "a@outlook.com");
    assert_eq!(record.status, "ready");
    assert_eq!(record.imap_port, 993);
    assert_eq!(record.created_at, Timestamp { secs: 1_767_225_600, nanos: 0 });
    assert_eq!(record.updated_at, Timestamp { secs: 1_767_225_660, nanos: 0 });
    assert_eq!(record.last_checked_at, Some(Timestamp { secs: 1_767_225_900, nanos: 0 }));
    let unchecked = account_record(account_row(T0, T0, None)).unwrap();
    assert_eq!(unchecked.last_checked_at, None);
}

#[test]
fn account_records_with_unreadable_times_are_refused() {
    assert!(account_record(account_row("yesterday", T0, None)).is_none());
    assert!(account_record(account_row(T0, "", None)).is_none());
    assert!(account_record(account_row(T0, T0, Some("later"))).is_none());
}

fn mail_row(received_at: &str) -> MailRow {
    MailRow {
        id: "a@outlook.com:7:abc".to_string(),
        account_email: "a@outlook.com".to_string(),
        subject: "Your code".to_string(),
        text: "Your code is 123456".to_string(),
        html: String::new(),
        from_addr: "OpenAI <noreply@tm.openai.com>".to_string(),
        received_at: received_at.to_string(),
        verification_code: Some("123456".to_string()),
    }
}

#[test]
fn stored_mail_writes_its_time_again_in_utc() {
    let mail = stored_mail(mail_row("2026-01-01T08:00:00.5+08:00")).unwrap();
    assert_eq!(mail.received_at, "2026-01-01T00:00:00.500+00:00");
    assert_eq!(mail.id, "a@outlook.com:7:abc");
    assert_eq!(mail.subject, "Your code");
    assert_eq!(mail.verification_code.as_deref(), Some("123456"));
    assert!(stored_mail(mail_row("not a time")).is_none());
}

#[test]
fn time_text_is_chrono_rfc3339() {
    assert_eq!(
        time_text(Timestamp { secs: 1_767_225_600, nanos: 0 }).as_deref(),
        Some("2026-01-01T00:00:00+00:00")
    );
    assert_eq!(time_text(Timestamp { secs: i64::MAX, nanos: 0 }), None);
}

#[test]
fn a_lease_stays_exclusive_across_other_leases() {
    let mut rows = vec![
        row("a", "idle", None, T0),
        row("b", "idle", None, T0),
        row("c", "idle", None, T0),
    ];
    let first = lease_from(&mut rows, T0, T9, "tok-1").unwrap();
    let second = lease_from(&mut rows, T1, T5, "tok-2").unwrap();
    let third = lease_from(&mut rows, T1, T5, "tok-3").unwrap();
    assert_ne!(first, second);
    assert_ne!(first, third);
    assert_ne!(second, third);
    assert_eq!(lease_from(&mut rows, T5, T9, "tok-4"), None);
    let later = lease_from(&mut rows, T9, T9, "tok-5").unwrap();
    assert_ne!(later, first);
    assert_eq!(rows[first].lease_token, "tok-1");
}
