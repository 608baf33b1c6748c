use outlook_mail_pool_api::app::{
    auth_error, authorize, authorize_x_api_key, import_error_dto, import_response, mail_payload,
    pick_header, refresh_action, AppError, RefreshAction,
};
use outlook_mail_pool_api::auth::AuthError;
use outlook_mail_pool_api::importer::parse_import_text;
use outlook_mail_pool_api::store::StoredMail;

fn status(r: Result<(), AppError>) -> u16 {
    match r {
        Ok(()) => 200,
        Err(e) => e.status_code(),
    }
}

#[test]
fn auth_errors_map_to_401_and_403() {
    let missing = auth_error(AuthError::Missing);
    assert_eq!(missing.status_code(), 401);
    assert_eq!(missing.message(), "missing API key");
    let invalid = auth_error(AuthError::Invalid);
    assert_eq!(invalid.status_code(), 403);
    assert_eq!(invalid.message(), "invalid API key");
}

#[test]
fn authorization_header_wins_over_x_api_key() {
    assert_eq!(status(authorize(Some(Some("Bearer secret")), None, "secret")), 200);
    assert_eq!(status(authorize(None, Some(Some("secret")), "secret")), 200);
    assert_eq!(status(authorize(Some(Some("wrong")), Some(Some("secret")), "secret")), 403);
    assert_eq!(status(authorize(Some(None), Some(Some("secret")), "secret")), 401);
    assert_eq!(status(authorize(None, None, "secret")), 401);
}

#[test]
fn lease_requests_prefer_x_api_key() {
    assert_eq!(status(authorize_x_api_key(Some(Some("secret")), Some(Some("wrong")), "secret")), 200);
    assert_eq!(status(authorize_x_api_key(None, Some(Some("Bearer secret")), "secret")), 200);
    assert_eq!(status(authorize_x_api_key(Some(Some("nope")), None, "secret")), 403);
}

#[test]
fn pick_header_takes_the_first_present_header() {
    assert_eq!(pick_header(Some(Some("a")), Some(Some("b"))), Some("a"));
    assert_eq!(pick_header(Some(None), Some(Some("b"))), None);
    assert_eq!(pick_header(None, Some(Some("b"))), Some("b"));
    assert_eq!(pick_header(None, None), None);
}

#[test]
fn import_response_counts_accepted_accounts_and_reports_errors() {
    let parsed = parse_import_text("a@outlook.com,p\nbroken\n");
    let response = import_response(1, parsed);
    assert_eq!(response.imported, 1);
    assert_eq!(response.accepted, 1);
    assert_eq!(response.errors.len(), 1);
    assert_eq!(response.errors[0].line_number, 2);
    assert_eq!(response.errors[0].line, "broken");
    assert_eq!(response.errors[0].reason, "password is required");
}

#[test]
fn import_error_dto_copies_fields() {
    let parsed = parse_import_text("x,y\n");
    let dto = import_error_dto(parsed.errors.into_iter().next().unwrap());
    assert_eq!(dto.line_number, 1);
    assert_eq!(dto.line, "x,y");
    assert_eq!(dto.reason, "email is invalid");
}

#[test]
fn mail_payload_uses_account_address_as_recipient() {
    let payload = mail_payload(StoredMail {
        id: "m1".to_string(),
        account_email: "user@outlook.com".to_string(),
        subject: "s".to_string(),
        text: "t".to_string(),
        html: "h".to_string(),
        from_addr: "f@x.com".to_string(),
        received_at: "2026-07-01T00:00:00+00:00".to_string(),
        verification_code: None,
    });
    assert_eq!(payload.to, "user@outlook.com");
    assert_eq!(payload.from, "f@x.com");
    assert_eq!(payload.received_at, "2026-07-01T00:00:00+00:00");
    assert_eq!(payload.verification_code, None);
}

#[test]
fn refresh_saves_fetched_mail_and_records_failures_as_502() {
    match refresh_action(Ok(Vec::new())) {
        RefreshAction::Save(messages) => assert!(messages.is_empty()),
        RefreshAction::RecordError { .. } => panic!("a fetch that succeeded is saved"),
    }
    match refresh_action(Err("imap login failed".to_string())) {
        RefreshAction::RecordError { message, answer } => {
            assert_eq!(message, "imap login failed");
            assert_eq!(answer.status_code(), 502);
            assert_eq!(answer.message(), "imap login failed");
        }
        RefreshAction::Save(_) => panic!("a failed fetch is recorded"),
    }
}
