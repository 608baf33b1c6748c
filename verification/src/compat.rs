//! Response bodies of the two mail-provider protocols that clients speak:
//! the self-hosted `latest` API and the leasing `yyds_mail` API.

use vstd::prelude::*;

verus! {

/// A message as the provider APIs return it.
#[derive(Debug, Clone)]
pub struct MailPayload {
    pub id: String,
    pub subject: String,
    pub text: String,
    pub html: String,
    pub from: String,
    pub to: String,
    pub received_at: String,
    pub verification_code: Option<String>,
}

/// A leased address as the `yyds_mail` API returns it.
#[derive(Debug, Clone)]
pub struct YydsAccountData {
    pub id: String,
    pub address: String,
    pub token: String,
}

/// Body of `GET /api/latest`: `ok` tells whether a message was found.
#[derive(Debug, Clone)]
pub struct LatestResponse {
    pub ok: bool,
    pub email: Option<MailPayload>,
}

/// Body of `POST /v1/accounts`.
#[derive(Debug, Clone)]
pub struct YydsAccountResponse {
    pub data: YydsAccountData,
}

/// Body of `GET /v1/messages`.
#[derive(Debug, Clone)]
pub struct YydsMessagesResponse {
    pub data: Vec<MailPayload>,
}

/// The `latest` answer: `ok` exactly when there is a message, and the
/// message itself.
pub fn latest_response(mail: Option<MailPayload>) -> (r: LatestResponse)
    ensures
        r.ok == mail is Some,
        r.email == mail,
{
    let ok = mail.is_some();
    LatestResponse { ok, email: mail }
}

/// The answer to a lease request, carrying the account id, its address and
/// the lease token.
pub fn yyds_account_response(id: &str, address: &str, token: &str) -> (r: YydsAccountResponse)
    ensures
        r.data.id@ == id@,
        r.data.address@ == address@,
        r.data.token@ == token@,
{
    YydsAccountResponse {
        data: YydsAccountData {
            id: String::from_str(id),
            address: String::from_str(address),
            token: String::from_str(token),
        },
    }
}

/// The answer to a message listing: the messages, in the order given.
pub fn yyds_messages_response(messages: Vec<MailPayload>) -> (r: YydsMessagesResponse)
    ensures
        r.data == messages,
{
    YydsMessagesResponse { data: messages }
}

} // verus!
