use outlook_mail_pool_api::compat::{
    latest_response, yyds_account_response, yyds_messages_response, MailPayload,
};

fn sample_mail() -> MailPayload {
    MailPayload {
        id: "m1".to_string(),
        subject: "Your code is 123456".to_string(),
        text: "123456".to_string(),
        html: "<p>123456</p>".to_string(),
        from: "OpenAI <noreply@tm.openai.com>".to_string(),
        to: "user@outlook.com".to_string(),
        received_at: "2026-07-01T00:00:00Z".to_string(),
        verification_code: Some("123456".to_string()),
    }
}

#[test]
fn latest_response_matches_gpt_register_self_hosted_contract() {
    let body = latest_response(Some(sample_mail()));

    assert_eq!(body.ok, true);
    let email = body.email.unwrap();
    assert_eq!(email.subject, "Your code is 123456");
    assert_eq!(email.verification_code.as_deref(), Some("123456"));
}

#[test]
fn yyds_responses_match_gpt_register_provider_contract() {
    let account = yyds_account_response("a1", "user@outlook.com", "lease-token");
    assert_eq!(account.data.id, "a1");
    assert_eq!(account.data.address, "user@outlook.com");
    assert_eq!(account.data.token, "lease-token");

    let messages = yyds_messages_response(vec![sample_mail()]);
    assert_eq!(messages.data[0].id, "m1");
    assert_eq!(messages.data[0].verification_code.as_deref(), Some("123456"));
}

#[test]
fn latest_response_without_mail_is_not_ok() {
    let body = latest_response(None);
    assert!(!body.ok);
    assert!(body.email.is_none());
}
