//! The decisions of the HTTP layer: which credentials a request presents,
//! how refusals map to HTTP statuses, and how stored records become
//! response bodies.

use vstd::prelude::*;
use crate::auth::{self, AuthError};
use crate::compat::MailPayload;
use crate::importer::{ImportError, ParsedImport};
use crate::store::{NewMail, StoredMail};

verus! {

/// A refused request: the HTTP status code and the message of the JSON
/// error body.
#[derive(Debug)]
pub struct AppError {
    status: u16,
    message: String,
}

impl AppError {
    pub closed spec fn spec_status(&self) -> u16 {
        self.status
    }

    pub closed spec fn spec_message(&self) -> Seq<char> {
        self.message@
    }

    /// An error with the given status code and message.
    pub fn status(status: u16, message: String) -> (r: AppError)
        ensures
            r.spec_status() == status,
            r.spec_message() == message@,
    {
        AppError { status, message }
    }

    /// The HTTP status code.
    pub fn status_code(&self) -> (r: u16)
        ensures
            r == self.spec_status(),
    {
        self.status
    }

    /// The message of the error body.
    pub fn message(&self) -> (r: &str)
        ensures
            r@ == self.spec_message(),
    {
        self.message.as_str()
    }
}

/// What the service does once it has tried to fetch a mailbox.
#[derive(Debug)]
pub enum RefreshAction {
    /// Store the fetched messages and mark the account checked.
    Save(Vec<NewMail>),
    /// Record `message` as the account's error and answer with `answer`.
    RecordError { message: String, answer: AppError },
}

/// The step after a mailbox fetch: fetched messages are saved; a failure is
/// recorded on the account and answered 502 with its message.
pub fn refresh_action(outcome: Result<Vec<NewMail>, String>) -> (r: RefreshAction)
    ensures
        match outcome {
            Ok(messages) => r == RefreshAction::Save(messages),
            Err(e) => r matches RefreshAction::RecordError { message, answer } && message@ == e@
                && answer.spec_status() == 502 && answer.spec_message() == e@,
        },
{
    match outcome {
        Ok(messages) => RefreshAction::Save(messages),
        Err(message) => {
            let answer = AppError::status(502, message.clone());
            RefreshAction::RecordError { message, answer }
        },
    }
}

/// A missing key is answered 401, a wrong one 403.
pub fn auth_error(error: AuthError) -> (r: AppError)
    ensures
        error == AuthError::Missing ==> r.spec_status() == 401 && r.spec_message()
            == "missing API key"@,
        error == AuthError::Invalid ==> r.spec_status() == 403 && r.spec_message()
            == "invalid API key"@,
{
    match error {
        AuthError::Missing => AppError::status(401, String::from_str("missing API key")),
        AuthError::Invalid => AppError::status(403, String::from_str("invalid API key")),
    }
}

/// A header as a request carries it: absent, present but not readable as
/// visible ASCII text, or present with its text.
pub open spec fn header_text(h: Option<Option<&str>>) -> Option<Seq<char>> {
    match h {
        Some(Some(t)) => Some(t@),
        _ => None,
    }
}

/// The header that counts: the first one when the request has it, even if
/// unreadable; else the second.
pub fn pick_header<'a>(first: Option<Option<&'a str>>, second: Option<Option<&'a str>>) -> (r:
    Option<&'a str>)
    ensures
        r matches Some(t) ==> Some(t@) == (if first is Some {
            header_text(first)
        } else {
            header_text(second)
        }),
        r is None ==> (if first is Some {
            header_text(first)
        } else {
            header_text(second)
        }) is None,
{
    match first {
        Some(value) => value,
        None => match second {
            Some(value) => value,
            None => None,
        },
    }
}

/// The verdict of the key check on the header that counts.
pub open spec fn key_check(header: Option<Seq<char>>, api_key: Seq<char>) -> Result<(), AuthError> {
    auth::auth_outcome(header, api_key)
}

fn check_header(header: Option<&str>, api_key: &str) -> (r: Result<(), AppError>)
    ensures
        r is Ok <==> key_check(
            match header {
                Some(h) => Some(h@),
                None => None,
            },
            api_key@,
        ) is Ok,
        r matches Err(e) ==> refusal(
            e,
            key_check(
                match header {
                    Some(h) => Some(h@),
                    None => None,
                },
                api_key@,
            ),
        ),
{
    match auth::authorize_header(header, api_key) {
        Ok(()) => Ok(()),
        Err(e) => Err(auth_error(e)),
    }
}

/// `e` is the HTTP answer to a failed key check: 401 `missing API key` for
/// a missing key, else 403 `invalid API key`.
pub open spec fn refusal(e: AppError, verdict: Result<(), AuthError>) -> bool {
    if verdict == Err::<(), AuthError>(AuthError::Missing) {
        e.spec_status() == 401 && e.spec_message() == "missing API key"@
    } else {
        e.spec_status() == 403 && e.spec_message() == "invalid API key"@
    }
}

/// Admin and `latest` requests present their key in `Authorization`, or
/// else in `X-Api-Key`.
pub fn authorize(
    authorization: Option<Option<&str>>,
    x_api_key: Option<Option<&str>>,
    api_key: &str,
) -> (r: Result<(), AppError>)
    ensures
        r is Ok <==> key_check(
            if authorization is Some {
                header_text(authorization)
            } else {
                header_text(x_api_key)
            },
            api_key@,
        ) is Ok,
        r matches Err(e) ==> refusal(
            e,
            key_check(
                if authorization is Some {
                    header_text(authorization)
                } else {
                    header_text(x_api_key)
                },
                api_key@,
            ),
        ),
{
    let header = pick_header(authorization, x_api_key);
    check_header(header, api_key)
}

/// Lease requests present their key in `X-Api-Key`, or else in
/// `Authorization`.
pub fn authorize_x_api_key(
    x_api_key: Option<Option<&str>>,
    authorization: Option<Option<&str>>,
    api_key: &str,
) -> (r: Result<(), AppError>)
    ensures
        r is Ok <==> key_check(
            if x_api_key is Some {
                header_text(x_api_key)
            } else {
                header_text(authorization)
            },
            api_key@,
        ) is Ok,
        r matches Err(e) ==> refusal(
            e,
            key_check(
                if x_api_key is Some {
                    header_text(x_api_key)
                } else {
                    header_text(authorization)
                },
                api_key@,
            ),
        ),
{
    let header = pick_header(x_api_key, authorization);
    check_header(header, api_key)
}

/// A stored message as the provider APIs show it: the account address
/// becomes the recipient.
pub fn mail_payload(mail: StoredMail) -> (r: MailPayload)
    ensures
        r.id == mail.id,
        r.subject == mail.subject,
        r.text == mail.text,
        r.html == mail.html,
        r.from == mail.from_addr,
        r.to == mail.account_email,
        r.received_at == mail.received_at,
        r.verification_code == mail.verification_code,
{
    MailPayload {
        id: mail.id,
        subject: mail.subject,
        text: mail.text,
        html: mail.html,
        from: mail.from_addr,
        to: mail.account_email,
        received_at: mail.received_at,
        verification_code: mail.verification_code,
    }
}

/// A refused import line as the import API reports it.
#[derive(Debug, Clone)]
pub struct ImportErrorDto {
    pub line_number: usize,
    pub line: String,
    pub reason: String,
}

/// Body of the import API: accounts written to the store, accounts parsed,
/// and the refused lines.
#[derive(Debug, Clone)]
pub struct ImportResponse {
    pub imported: usize,
    pub accepted: usize,
    pub errors: Vec<ImportErrorDto>,
}

pub fn import_error_dto(error: ImportError) -> (r: ImportErrorDto)
    ensures
        r.line_number == error.line_number,
        r.line == error.line,
        r.reason == error.reason,
{
    ImportErrorDto { line_number: error.line_number, line: error.line, reason: error.reason }
}

/// The import answer for a parsed text of which `imported` accounts were
/// written.
pub fn import_response(imported: usize, parsed: ParsedImport) -> (r: ImportResponse)
    ensures
        r.imported == imported,
        r.accepted == parsed.accounts@.len(),
        r.errors@.len() == parsed.errors@.len(),
        forall|i: int|
            0 <= i < r.errors@.len() ==> #[trigger] r.errors@[i].line_number
                == parsed.errors@[i].line_number && r.errors@[i].line == parsed.errors@[i].line
                && r.errors@[i].reason == parsed.errors@[i].reason,
{
    let accepted = parsed.accounts.len();
    let ghost source = parsed.errors@;
    let mut errors: Vec<ImportErrorDto> = Vec::new();
    let mut rest = parsed.errors;
    while rest.len() > 0
        invariant
            errors@.len() + rest@.len() == source.len(),
            rest@ == source.skip(errors@.len() as int),
            forall|i: int|
                0 <= i < errors@.len() ==> #[trigger] errors@[i].line_number == source[i].line_number
                    && errors@[i].line == source[i].line && errors@[i].reason == source[i].reason,
        decreases rest@.len(),
    {
        let ghost k: int = errors@.len() as int;
        let e = rest.remove(0);
        assert(e == source[k]);
        assert(rest@ =~= source.skip(k + 1));
        errors.push(import_error_dto(e));
    }
    ImportResponse { imported, accepted, errors }
}

} // verus!
