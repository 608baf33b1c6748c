use outlook_mail_pool_api::mail::extract_verification_code;

#[test]
fn extracts_openai_six_digit_codes_and_ignores_known_false_positive() {
    assert_eq!(
        extract_verification_code("Subject: OpenAI code 123456\nYour code is 123456"),
        Some("123456".to_string())
    );
    assert_eq!(
        extract_verification_code("Ignore 177010 but keep 654321"),
        Some("654321".to_string())
    );
}

#[test]
fn prefers_highlighted_block_then_tags_and_skips_css_colours() {
    let html = "<p style=\"background-color: #F3F3F3; x\">Code: 111222</p> Subject: 333444";
    assert_eq!(extract_verification_code(html), Some("111222".to_string()));
    assert_eq!(
        extract_verification_code("color #123456 and <b> 987654 </b>"),
        Some("987654".to_string())
    );
    assert_eq!(extract_verification_code("color #123456 &654321"), None);
}

#[test]
fn blank_or_codeless_text_has_no_code() {
    assert_eq!(extract_verification_code("   \n"), None);
    assert_eq!(extract_verification_code("no digits here 12345 1234567"), None);
}

use outlook_mail_pool_api::mail::{
    fetch_sequence, hash_raw, messages_from_fetch, parsed_mail_to_new_mail, FetchedMessage,
};
use outlook_mail_pool_api::store::Timestamp;

const NOW: Timestamp = Timestamp { secs: 1_800_000_000, nanos: 5 };

fn plain_mail(date: &str, body: &str) -> Vec<u8> {
    format!(
        "From: OpenAI <noreply@tm.openai.com>\r\nTo: user@outlook.com\r\nSubject: Your code\r\n{date}Content-Type: text/plain\r\n\r\n{body}\r\n"
    )
    .into_bytes()
}

#[test]
fn hash_is_lowercase_sha1_hex() {
    assert_eq!(hash_raw(b"abc"), "a9993e364706816aba3e25717850c26c9cd0d89d");
    assert_eq!(hash_raw(b"").len(), 40);
    assert_eq!(hash_raw(&[0u8; 1000]).len(), 40);
}

#[test]
fn converts_a_plain_message() {
    let raw = plain_mail("Date: Tue, 1 Jul 2025 10:00:00 +0000\r\n", "Your code is 123456");
    let mail = parsed_mail_to_new_mail("user@outlook.com", 7, &raw, NOW).unwrap();
    assert_eq!(mail.subject, "Your code");
    assert_eq!(mail.from_addr, "OpenAI <noreply@tm.openai.com>");
    assert!(mail.text.contains("Your code is 123456"));
    assert_eq!(mail.html, "");
    assert_eq!(mail.verification_code.as_deref(), Some("123456"));
    assert_eq!(mail.received_at, Timestamp { secs: 1_751_364_000, nanos: 0 });
    assert_eq!(mail.raw_hash, hash_raw(&raw));
    assert_eq!(mail.id, format!("user@outlook.com:7:{}", mail.raw_hash));
    assert_eq!(mail.account_email, "user@outlook.com");
}

#[test]
fn missing_or_bad_date_uses_now() {
    let raw = plain_mail("", "no code");
    let mail = parsed_mail_to_new_mail("u@x.com", 1, &raw, NOW).unwrap();
    assert_eq!(mail.received_at, NOW);
    assert_eq!(mail.verification_code, None);
    let raw = plain_mail("Date: yesterday\r\n", "no code");
    assert_eq!(parsed_mail_to_new_mail("u@x.com", 1, &raw, NOW).unwrap().received_at, NOW);
}

#[test]
fn multipart_message_splits_text_and_html() {
    let raw = b"Subject: Hi\r\nContent-Type: multipart/alternative; boundary=XX\r\n\r\n--XX\r\nContent-Type: text/plain\r\n\r\nplain part\r\n--XX\r\nContent-Type: text/html\r\n\r\n<p>Code: 654321</p>\r\n--XX--\r\n";
    let mail = parsed_mail_to_new_mail("u@x.com", 2, raw, NOW).unwrap();
    assert!(mail.text.contains("plain part"));
    assert!(!mail.text.contains("654321"));
    assert!(mail.html.contains("<p>Code: 654321</p>"));
    assert_eq!(mail.verification_code.as_deref(), Some("654321"));
}

#[test]
fn single_html_part_goes_to_html() {
    let raw = b"Subject: Hi\r\nContent-Type: TEXT/HTML\r\n\r\n<b>hello</b>\r\n";
    let mail = parsed_mail_to_new_mail("u@x.com", 3, raw, NOW).unwrap();
    assert_eq!(mail.text, "");
    assert!(mail.html.contains("<b>hello</b>"));
}

#[test]
fn fetched_messages_come_newest_first_and_bodiless_ones_are_dropped() {
    let older = plain_mail("Date: Tue, 1 Jul 2025 10:00:00 +0000\r\n", "older 111111");
    let newer = plain_mail("Date: Wed, 2 Jul 2025 10:00:00 +0000\r\n", "newer 222222");
    let fetched = vec![
        FetchedMessage { sequence: 1, body: Some(older) },
        FetchedMessage { sequence: 2, body: None },
        FetchedMessage { sequence: 3, body: Some(newer) },
    ];
    let mails = messages_from_fetch("u@x.com", fetched, NOW);
    assert_eq!(mails.len(), 2);
    assert_eq!(mails[0].verification_code.as_deref(), Some("222222"));
    assert_eq!(mails[0].received_at.secs, 1_751_450_400);
    assert_eq!(mails[1].verification_code.as_deref(), Some("111111"));
}

#[test]
fn equal_times_keep_the_later_fetch_first() {
    let a = plain_mail("", "first 111111");
    let b = plain_mail("", "second 222222");
    let fetched = vec![
        FetchedMessage { sequence: 1, body: Some(a) },
        FetchedMessage { sequence: 2, body: Some(b) },
    ];
    let mails = messages_from_fetch("u@x.com", fetched, NOW);
    assert_eq!(mails[0].id.split(':').nth(1), Some("2"));
    assert_eq!(mails[1].id.split(':').nth(1), Some("1"));
}

#[test]
fn fetch_window_covers_the_latest_messages() {
    assert_eq!(fetch_sequence(0, 20), None);
    assert_eq!(fetch_sequence(100, 20).as_deref(), Some("81:*"));
    assert_eq!(fetch_sequence(5, 20).as_deref(), Some("1:*"));
    assert_eq!(fetch_sequence(100, 0).as_deref(), Some("100:*"));
    assert_eq!(fetch_sequence(100, 500).as_deref(), Some("51:*"));
}

#[test]
fn placeholder_code_only_comes_from_the_highlighted_block() {
    assert_eq!(extract_verification_code("Subject: 177010"), None);
    assert_eq!(extract_verification_code("<td> 177010 </td> 177010"), None);
    let html = "<p style=\"background-color:#F3F3F3\">177010</p>";
    assert_eq!(extract_verification_code(html), Some("177010".to_string()));
}

#[test]
fn a_found_code_occurs_in_the_content() {
    let contents = [
        "Subject: Your ChatGPT code is 482913\r\n\r\nhello",
        "<p style=\"background-color: #F3F3F3\">\n  730215\n</p>",
        "<td> 551204 </td>",
        "colour #123456 then code 908172 here",
        "Prüfcode für Sie: 246801.",
    ];
    for content in contents {
        let code = extract_verification_code(content).unwrap();
        assert_eq!(code.chars().count(), 6);
        assert!(code.chars().all(|c| c.is_ascii_digit()));
        assert!(content.contains(code.as_str()));
    }
}
