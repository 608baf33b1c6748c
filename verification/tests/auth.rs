use outlook_mail_pool_api::auth::{authorize_header, bearer_token, AuthError};

#[test]
fn accepts_plain_bearer_and_x_api_key_style_values() {
    assert_eq!(authorize_header(Some("Bearer secret-key"), "secret-key"), Ok(()));
    assert_eq!(authorize_header(Some("secret-key"), "secret-key"), Ok(()));
}

#[test]
fn rejects_missing_or_wrong_keys() {
    assert_eq!(authorize_header(None, "secret-key"), Err(AuthError::Missing));
    assert_eq!(authorize_header(Some("Bearer nope"), "secret-key"), Err(AuthError::Invalid));
}

#[test]
fn blank_header_is_missing_and_blank_key_never_matches() {
    assert_eq!(authorize_header(Some("   "), "secret"), Err(AuthError::Missing));
    assert_eq!(authorize_header(Some("Bearer  "), "  "), Err(AuthError::Invalid));
    assert_eq!(authorize_header(Some("x"), ""), Err(AuthError::Invalid));
}

#[test]
fn trims_header_and_key_and_accepts_lowercase_bearer() {
    assert_eq!(authorize_header(Some("  bearer   secret  "), " secret "), Ok(()));
    assert_eq!(authorize_header(Some("BEARER secret"), "secret"), Err(AuthError::Invalid));
}

#[test]
fn bearer_token_requires_prefix_and_content() {
    assert_eq!(bearer_token(Some(" Bearer tok-1 ")), Some("tok-1".to_string()));
    assert_eq!(bearer_token(Some("bearer tok-2")), Some("tok-2".to_string()));
    assert_eq!(bearer_token(Some("tok-3")), None);
    assert_eq!(bearer_token(Some("Bearer    ")), None);
    assert_eq!(bearer_token(None), None);
}

#[test]
fn a_bearer_token_equal_to_the_key_passes() {
    let header = "  Bearer  my-key ";
    assert_eq!(bearer_token(Some(header)).as_deref(), Some("my-key"));
    assert_eq!(authorize_header(Some(header), " my-key"), Ok(()));
}
