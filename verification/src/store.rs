//! The account pool's records and its lease rule: which mailbox is handed
//! out next, and what a lease changes.

use vstd::prelude::*;
use crate::text;

verus! {

/// A leased mailbox as handed to a client: its credentials and the lease
/// token that the client presents afterwards.
#[derive(Debug, Clone)]
pub struct LeasedAccount {
    pub id: String,
    pub email: String,
    pub password: String,
    pub imap_host: String,
    pub imap_port: i64,
    pub token: String,
}

/// What the mail fetcher needs to log in to a mailbox.
#[derive(Debug, Clone)]
pub struct AccountSecret {
    pub id: String,
    pub email: String,
    pub password: String,
    pub imap_host: String,
    pub imap_port: i64,
}

/// Account counts by status, and the number of stored messages.
#[derive(Debug, Clone)]
pub struct Stats {
    pub total: i64,
    pub idle: i64,
    pub leased: i64,
    pub ready: i64,
    pub error: i64,
    pub messages: i64,
}

/// A point in time: whole seconds since the Unix epoch and the nanoseconds
/// within that second.
#[derive(Debug, Clone, Copy, PartialEq, Eq, Structural)]
pub struct Timestamp {
    pub secs: i64,
    pub nanos: u32,
}

/// Whether `a` is no later than `b`.
pub open spec fn time_le(a: Timestamp, b: Timestamp) -> bool {
    a.secs < b.secs || (a.secs == b.secs && a.nanos <= b.nanos)
}

/// A message fetched from a mailbox, before it is stored.
#[derive(Debug, Clone)]
pub struct NewMail {
    pub id: String,
    pub account_email: String,
    pub subject: String,
    pub text: String,
    pub html: String,
    pub from_addr: String,
    pub received_at: Timestamp,
    pub verification_code: Option<String>,
    pub raw_hash: String,
}

/// Mathematical value of a `NewMail`.
pub ghost struct NewMailView {
    pub id: Seq<char>,
    pub account_email: Seq<char>,
    pub subject: Seq<char>,
    pub text: Seq<char>,
    pub html: Seq<char>,
    pub from_addr: Seq<char>,
    pub received_at: Timestamp,
    pub verification_code: Option<Seq<char>>,
    pub raw_hash: Seq<char>,
}

impl View for NewMail {
    type V = NewMailView;

    open spec fn view(&self) -> NewMailView {
        NewMailView {
            id: self.id@,
            account_email: self.account_email@,
            subject: self.subject@,
            text: self.text@,
            html: self.html@,
            from_addr: self.from_addr@,
            received_at: self.received_at,
            verification_code: match self.verification_code {
                Some(c) => Some(c@),
                None => None,
            },
            raw_hash: self.raw_hash@,
        }
    }
}

/// A stored message; `received_at` is its RFC 3339 time.
#[derive(Debug, Clone)]
pub struct StoredMail {
    pub id: String,
    pub account_email: String,
    pub subject: String,
    pub text: String,
    pub html: String,
    pub from_addr: String,
    pub received_at: String,
    pub verification_code: Option<String>,
}

/// An account as the lease rule sees it. Times are RFC 3339 texts as
/// stored, and are compared as texts.
#[derive(Debug, Clone)]
pub struct LeaseRow {
    pub id: String,
    pub email: String,
    pub password: String,
    pub imap_host: String,
    pub imap_port: i64,
    pub status: String,
    pub lease_token: String,
    pub lease_until: Option<String>,
    pub updated_at: String,
}

/// Mathematical value of a `LeaseRow`.
pub ghost struct LeaseRowView {
    pub id: Seq<char>,
    pub email: Seq<char>,
    pub password: Seq<char>,
    pub imap_host: Seq<char>,
    pub imap_port: i64,
    pub status: Seq<char>,
    pub lease_token: Seq<char>,
    pub lease_until: Option<Seq<char>>,
    pub updated_at: Seq<char>,
}

impl View for LeaseRow {
    type V = LeaseRowView;

    open spec fn view(&self) -> LeaseRowView {
        LeaseRowView {
            id: self.id@,
            email: self.email@,
            password: self.password@,
            imap_host: self.imap_host@,
            imap_port: self.imap_port,
            status: self.status@,
            lease_token: self.lease_token@,
            lease_until: match self.lease_until {
                Some(t) => Some(t@),
                None => None,
            },
            updated_at: self.updated_at@,
        }
    }
}

pub open spec fn rows_view(rows: Seq<LeaseRow>) -> Seq<LeaseRowView> {
    rows.map_values(|r: LeaseRow| r@)
}

pub open spec fn status_idle() -> Seq<char> {
    "idle"@
}

pub open spec fn status_ready() -> Seq<char> {
    "ready"@
}

pub open spec fn status_error() -> Seq<char> {
    "error"@
}

pub open spec fn status_leased() -> Seq<char> {
    "leased"@
}

/// An account can be leased when it is idle, ready or in error, or when its
/// lease ran out before `now`.
pub open spec fn lease_eligible(r: LeaseRowView, now: Seq<char>) -> bool {
    ||| r.status == status_idle()
    ||| r.status == status_ready()
    ||| r.status == status_error()
    ||| (r.status == status_leased() && r.lease_until is Some && text::text_before(
        r.lease_until->0,
        now,
    ))
}

/// Ready accounts go first, then idle ones, then the rest.
pub open spec fn lease_rank(status: Seq<char>) -> int {
    if status == status_ready() {
        0
    } else if status == status_idle() {
        1
    } else {
        2
    }
}

/// `a` is handed out before `b`: lower rank, or equal rank and an earlier
/// last update.
pub open spec fn leases_before(a: LeaseRowView, b: LeaseRowView) -> bool {
    lease_rank(a.status) < lease_rank(b.status) || (lease_rank(a.status) == lease_rank(b.status)
        && text::text_before(a.updated_at, b.updated_at))
}

/// Row `i` is the one to lease at `now`: it is eligible, no eligible row
/// goes before it, and it goes before every eligible row listed earlier.
pub open spec fn is_lease_choice(rows: Seq<LeaseRowView>, now: Seq<char>, i: int) -> bool {
    &&& 0 <= i < rows.len()
    &&& lease_eligible(rows[i], now)
    &&& forall|j: int|
        0 <= j < rows.len() && #[trigger] lease_eligible(rows[j], now) ==> !leases_before(
            rows[j],
            rows[i],
        ) && (j < i ==> leases_before(rows[i], rows[j]))
}

/// The row leased at `now`, if any row is eligible.
pub open spec fn lease_choice(rows: Seq<LeaseRowView>, now: Seq<char>) -> Option<int> {
    if exists|i: int| is_lease_choice(rows, now, i) {
        Some(choose|i: int| is_lease_choice(rows, now, i))
    } else {
        None
    }
}

/// A row after it is leased with `token` until `until`, at `now`.
pub open spec fn leased_row(r: LeaseRowView, token: Seq<char>, until: Seq<char>, now: Seq<char>) -> LeaseRowView {
    LeaseRowView {
        status: status_leased(),
        lease_token: token,
        lease_until: Some(until),
        updated_at: now,
        ..r
    }
}

/// A lease request on the pool: the rows afterwards and the leased row.
pub open spec fn lease_pool(
    rows: Seq<LeaseRowView>,
    now: Seq<char>,
    until: Seq<char>,
    token: Seq<char>,
) -> (Seq<LeaseRowView>, Option<int>) {
    match lease_choice(rows, now) {
        None => (rows, None),
        Some(i) => (rows.update(i, leased_row(rows[i], token, until, now)), Some(i)),
    }
}

proof fn lemma_choice_unique(rows: Seq<LeaseRowView>, now: Seq<char>, i: int, k: int)
    requires
        is_lease_choice(rows, now, i),
        is_lease_choice(rows, now, k),
    ensures
        i == k,
{
    if i < k {
        assert(lease_eligible(rows[i], now));
    } else if k < i {
        assert(lease_eligible(rows[k], now));
    }
}

proof fn lemma_before_then_not_after(a: LeaseRowView, b: LeaseRowView, c: LeaseRowView)
    requires
        leases_before(a, b),
        !leases_before(c, b),
    ensures
        leases_before(a, c),
        !leases_before(c, a),
{
    text::lemma_text_before_total(b.updated_at, c.updated_at);
    if lease_rank(a.status) == lease_rank(b.status) && lease_rank(b.status) == lease_rank(
        c.status,
    ) {
        if text::text_before(b.updated_at, c.updated_at) {
            text::lemma_text_before_transitive(a.updated_at, b.updated_at, c.updated_at);
        }
        if text::text_before(c.updated_at, a.updated_at) {
            text::lemma_text_before_transitive(c.updated_at, a.updated_at, c.updated_at);
            text::lemma_text_before_irreflexive(c.updated_at);
        }
    } else if lease_rank(a.status) == lease_rank(c.status) {
        if text::text_before(c.updated_at, a.updated_at) {
        }
    }
    if lease_rank(a.status) == lease_rank(c.status) && text::text_before(
        c.updated_at,
        a.updated_at,
    ) && lease_rank(a.status) == lease_rank(b.status) {
        text::lemma_text_before_irreflexive(a.updated_at);
    }
}

fn status_rank(status: &str) -> (r: u8)
    ensures
        r as int == lease_rank(status@),
{
    if text::text_eq(status, "ready") {
        0
    } else if text::text_eq(status, "idle") {
        1
    } else {
        2
    }
}

fn eligible_exec(r: &LeaseRow, now: &str) -> (b: bool)
    ensures
        b == lease_eligible(r@, now@),
{
    let s = r.status.as_str();
    if text::text_eq(s, "idle") || text::text_eq(s, "ready") || text::text_eq(s, "error") {
        return true;
    }
    if !text::text_eq(s, "leased") {
        return false;
    }
    match &r.lease_until {
        None => false,
        Some(until) => text::text_before_exec(until.as_str(), now),
    }
}

fn before_exec(a: &LeaseRow, b: &LeaseRow) -> (r: bool)
    ensures
        r == leases_before(a@, b@),
{
    let ra = status_rank(a.status.as_str());
    let rb = status_rank(b.status.as_str());
    ra < rb || (ra == rb && text::text_before_exec(a.updated_at.as_str(), b.updated_at.as_str()))
}

/// Finds the row to lease at `now`.
pub fn choose_lease_row(rows: &Vec<LeaseRow>, now: &str) -> (r: Option<usize>)
    ensures
        match r {
            Some(i) => lease_choice(rows_view(rows@), now@) == Some(i as int),
            None => lease_choice(rows_view(rows@), now@) is None,
        },
{
    let ghost rv = rows_view(rows@);
    let mut best: Option<usize> = None;
    let mut i: usize = 0;
    while i < rows.len()
        invariant
            rv == rows_view(rows@),
            rv.len() == rows@.len(),
            i <= rows@.len(),
            match best {
                None => forall|j: int| 0 <= j < i ==> !#[trigger] lease_eligible(rv[j], now@),
                Some(b) => {
                    &&& b < i
                    &&& lease_eligible(rv[b as int], now@)
                    &&& forall|j: int|
                        0 <= j < i && #[trigger] lease_eligible(rv[j], now@) ==> !leases_before(
                            rv[j],
                            rv[b as int],
                        ) && (j < b ==> leases_before(rv[b as int], rv[j]))
                },
            },
        decreases rows@.len() - i,
    {
        assert(rv[i as int] == rows@[i as int]@);
        if eligible_exec(&rows[i], now) {
            match best {
                None => {
                    best = Some(i);
                    proof {
                        text::lemma_text_before_irreflexive(rv[i as int].updated_at);
                    }
                },
                Some(b) => {
                    assert(rv[b as int] == rows@[b as int]@);
                    if before_exec(&rows[i], &rows[b]) {
                        proof {
                            text::lemma_text_before_irreflexive(rv[i as int].updated_at);
                            assert forall|j: int|
                                0 <= j < i + 1 && #[trigger] lease_eligible(rv[j], now@) implies !leases_before(
                                    rv[j],
                                    rv[i as int],
                                ) && (j < i ==> leases_before(rv[i as int], rv[j])) by {
                                if j < i {
                                    lemma_before_then_not_after(rv[i as int], rv[b as int], rv[j]);
                                }
                            }
                        }
                        best = Some(i);
                    }
                },
            }
        }
        i = i + 1;
    }
    match best {
        None => {
            assert(!exists|k: int| is_lease_choice(rv, now@, k));
            None
        },
        Some(b) => {
            assert(is_lease_choice(rv, now@, b as int));
            proof {
                let c = choose|k: int| is_lease_choice(rv, now@, k);
                lemma_choice_unique(rv, now@, b as int, c);
            }
            Some(b)
        },
    }
}

/// Leases the next account: picks the row of `choose_lease_row` and marks it
/// leased with `token` until `until`, updated at `now`. Nothing changes when
/// no account can be leased.
pub fn lease_from(rows: &mut Vec<LeaseRow>, now: &str, until: &str, token: &str) -> (r: Option<
    usize,
>)
    ensures
        match r {
            Some(i) => lease_pool(rows_view(old(rows)@), now@, until@, token@) == (
                rows_view(final(rows)@),
                Some(i as int),
            ),
            None => lease_pool(rows_view(old(rows)@), now@, until@, token@) == (
                rows_view(final(rows)@),
                None::<int>,
            ),
        },
{
    let chosen = choose_lease_row(rows, now);
    match chosen {
        None => None,
        Some(i) => {
            let ghost before = rows_view(rows@);
            let old_row = rows.remove(i);
            let row = LeaseRow {
                status: String::from_str("leased"),
                lease_token: String::from_str(token),
                lease_until: Some(String::from_str(until)),
                updated_at: String::from_str(now),
                ..old_row
            };
            assert(row@ == leased_row(before[i as int], token@, until@, now@));
            rows.insert(i, row);
            assert(rows_view(rows@) =~= before.update(i as int, row@));
            Some(i)
        },
    }
}

/// The account that a lease hands out.
pub fn leased_account(row: &LeaseRow) -> (r: LeasedAccount)
    ensures
        r.id@ == row.id@,
        r.email@ == row.email@,
        r.password@ == row.password@,
        r.imap_host@ == row.imap_host@,
        r.imap_port == row.imap_port,
        r.token@ == row.lease_token@,
{
    LeasedAccount {
        id: row.id.clone(),
        email: row.email.clone(),
        password: row.password.clone(),
        imap_host: row.imap_host.clone(),
        imap_port: row.imap_port,
        token: row.lease_token.clone(),
    }
}

/// How many of the statuses are `status`.
pub open spec fn count_status(statuses: Seq<Seq<char>>, status: Seq<char>) -> nat
    decreases statuses.len(),
{
    if statuses.len() == 0 {
        0
    } else {
        count_status(statuses.drop_last(), status) + if statuses.last() == status {
            1nat
        } else {
            0nat
        }
    }
}

/// The pool statistics for accounts with the given statuses and `messages`
/// stored messages.
pub fn count_stats(statuses: &Vec<String>, messages: i64) -> (r: Stats)
    requires
        statuses@.len() <= i64::MAX,
    ensures
        r.total == statuses@.len(),
        r.idle == count_status(statuses@.map_values(|s: String| s@), status_idle()),
        r.leased == count_status(statuses@.map_values(|s: String| s@), status_leased()),
        r.ready == count_status(statuses@.map_values(|s: String| s@), status_ready()),
        r.error == count_status(statuses@.map_values(|s: String| s@), status_error()),
        r.messages == messages,
{
    let ghost ss = statuses@.map_values(|s: String| s@);
    let mut idle: i64 = 0;
    let mut leased: i64 = 0;
    let mut ready: i64 = 0;
    let mut error: i64 = 0;
    let mut i: usize = 0;
    assert(ss.take(0) =~= Seq::<Seq<char>>::empty());
    while i < statuses.len()
        invariant
            i <= statuses@.len() <= i64::MAX,
            ss == statuses@.map_values(|s: String| s@),
            idle == count_status(ss.take(i as int), status_idle()),
            leased == count_status(ss.take(i as int), status_leased()),
            ready == count_status(ss.take(i as int), status_ready()),
            error == count_status(ss.take(i as int), status_error()),
            idle <= i && leased <= i && ready <= i && error <= i,
        decreases statuses@.len() - i,
    {
        assert(ss.take(i + 1).drop_last() =~= ss.take(i as int));
        assert(ss.take(i + 1).last() == statuses@[i as int]@);
        let s = statuses[i].as_str();
        if text::text_eq(s, "idle") {
            idle = idle + 1;
        }
        if text::text_eq(s, "leased") {
            leased = leased + 1;
        }
        if text::text_eq(s, "ready") {
            ready = ready + 1;
        }
        if text::text_eq(s, "error") {
            error = error + 1;
        }
        i = i + 1;
    }
    assert(ss.take(i as int) =~= ss);
    Stats { total: statuses.len() as i64, idle, leased, ready, error, messages }
}

/// How long a lease lasts: the configured time, but at least a minute.
pub fn lease_ttl_seconds(ttl_seconds: i64) -> (r: i64)
    ensures
        r == if ttl_seconds < 60 {
            60
        } else {
            ttl_seconds
        },
{
    if ttl_seconds < 60 {
        60
    } else {
        ttl_seconds
    }
}

/// How `chrono` writes an instant in RFC 3339 (`DateTime::to_rfc3339` of
/// the UTC time), or `None` when the instant is outside chrono's range.
pub uninterp spec fn rfc3339(t: Timestamp) -> Option<Seq<char>>;

/// Formats an instant with `chrono::DateTime::from_timestamp` and
/// `to_rfc3339`; the result is the name `rfc3339`.
#[verifier::external_body]
pub(crate) fn format_rfc3339(t: Timestamp) -> (r: Option<String>)
    ensures
        match r {
            Some(s) => rfc3339(t) == Some(s@),
            None => rfc3339(t) is None,
        },
{
    chrono::DateTime::from_timestamp(t.secs, t.nanos).map(|d| d.to_rfc3339())
}

/// Writes an instant as RFC 3339 text, as `chrono` does; `None` when the
/// instant is outside chrono's range.
pub fn time_text(t: Timestamp) -> (r: Option<String>)
    ensures
        match r {
            Some(s) => rfc3339(t) == Some(s@),
            None => rfc3339(t) is None,
        },
{
    format_rfc3339(t)
}

/// The instant that `chrono::DateTime::parse_from_rfc3339` reads from a
/// text, or `None` when the text is not RFC 3339.
pub uninterp spec fn rfc3339_instant(s: Seq<char>) -> Option<Timestamp>;

/// Parses an RFC 3339 time with `chrono`; the result is the name
/// `rfc3339_instant`.
#[verifier::external_body]
fn parse_rfc3339(s: &str) -> (r: Option<Timestamp>)
    ensures
        r == rfc3339_instant(s@),
{
    chrono::DateTime::parse_from_rfc3339(s).ok().map(
        |d| Timestamp { secs: d.timestamp(), nanos: d.timestamp_subsec_nanos() },
    )
}

/// An account as stored: its times are RFC 3339 texts.
#[derive(Debug, Clone)]
pub struct AccountRow {
    pub id: String,
    pub email: String,
    pub imap_host: String,
    pub imap_port: i64,
    pub status: String,
    pub last_error: String,
    pub last_checked_at: Option<String>,
    pub created_at: String,
    pub updated_at: String,
}

/// An account as the admin listing shows it, with its times read.
#[derive(Debug, Clone)]
pub struct AccountRecord {
    pub id: String,
    pub email: String,
    pub imap_host: String,
    pub imap_port: i64,
    pub status: String,
    pub last_error: String,
    pub last_checked_at: Option<Timestamp>,
    pub created_at: Timestamp,
    pub updated_at: Timestamp,
}

/// Whether a stored account's times can all be read.
pub open spec fn account_times_readable(row: AccountRow) -> bool {
    &&& rfc3339_instant(row.created_at@) is Some
    &&& rfc3339_instant(row.updated_at@) is Some
    &&& (row.last_checked_at matches Some(t) ==> rfc3339_instant(t@) is Some)
}

/// The listing entry of a stored account; `None` when one of its times does
/// not read as RFC 3339.
pub fn account_record(row: AccountRow) -> (r: Option<AccountRecord>)
    ensures
        r is Some <==> account_times_readable(row),
        r matches Some(a) ==> {
            &&& a.id == row.id
            &&& a.email == row.email
            &&& a.imap_host == row.imap_host
            &&& a.imap_port == row.imap_port
            &&& a.status == row.status
            &&& a.last_error == row.last_error
            &&& a.created_at == rfc3339_instant(row.created_at@)->0
            &&& a.updated_at == rfc3339_instant(row.updated_at@)->0
            &&& a.last_checked_at == match row.last_checked_at {
                Some(t) => Some(rfc3339_instant(t@)->0),
                None => None,
            }
        },
{
    let ghost original = row;
    let last_checked_at = match &row.last_checked_at {
        None => None,
        Some(t) => match parse_rfc3339(t.as_str()) {
            None => return None,
            Some(x) => Some(x),
        },
    };
    let created_at = match parse_rfc3339(row.created_at.as_str()) {
        None => return None,
        Some(x) => x,
    };
    let updated_at = match parse_rfc3339(row.updated_at.as_str()) {
        None => return None,
        Some(x) => x,
    };
    Some(
        AccountRecord {
            id: row.id,
            email: row.email,
            imap_host: row.imap_host,
            imap_port: row.imap_port,
            status: row.status,
            last_error: row.last_error,
            last_checked_at,
            created_at,
            updated_at,
        },
    )
}

/// A message as stored: its time is an RFC 3339 text.
#[derive(Debug, Clone)]
pub struct MailRow {
    pub id: String,
    pub account_email: String,
    pub subject: String,
    pub text: String,
    pub html: String,
    pub from_addr: String,
    pub received_at: String,
    pub verification_code: Option<String>,
}

/// A stored message with its time read and written again in chrono's
/// RFC 3339 form; `None` when the stored time does not read.
pub fn stored_mail(row: MailRow) -> (r: Option<StoredMail>)
    ensures
        r is Some <==> (rfc3339_instant(row.received_at@) matches Some(t) && rfc3339(t) is Some),
        r matches Some(m) ==> {
            &&& m.id == row.id
            &&& m.account_email == row.account_email
            &&& m.subject == row.subject
            &&& m.text == row.text
            &&& m.html == row.html
            &&& m.from_addr == row.from_addr
            &&& m.verification_code == row.verification_code
            &&& rfc3339(rfc3339_instant(row.received_at@)->0) == Some(m.received_at@)
        },
{
    let instant = match parse_rfc3339(row.received_at.as_str()) {
        None => return None,
        Some(t) => t,
    };
    let received_at = match format_rfc3339(instant) {
        None => return None,
        Some(text) => text,
    };
    Some(
        StoredMail {
            id: row.id,
            account_email: row.account_email,
            subject: row.subject,
            text: row.text,
            html: row.html,
            from_addr: row.from_addr,
            received_at,
            verification_code: row.verification_code,
        },
    )
}

/// When a lease taken at `now` runs out: `lease_ttl_seconds` later, or
/// `None` when that is past the end of time.
pub open spec fn lease_end(now: Timestamp, ttl_seconds: i64) -> Option<Timestamp> {
    let secs = now.secs + if ttl_seconds < 60 {
        60
    } else {
        ttl_seconds
    };
    if secs <= i64::MAX {
        Some(Timestamp { secs: secs as i64, nanos: now.nanos })
    } else {
        None
    }
}

/// The texts of a lease taken at `now`: the time it is taken and the time
/// it runs out. `None` when either cannot be written.
pub fn lease_times(now: Timestamp, ttl_seconds: i64) -> (r: Option<(String, String)>)
    ensures
        match r {
            Some((taken, until)) => lease_end(now, ttl_seconds) matches Some(end) && rfc3339(now)
                == Some(taken@) && rfc3339(end) == Some(until@),
            None => lease_end(now, ttl_seconds) matches Some(end) ==> (rfc3339(now) is None
                || rfc3339(end) is None),
        },
{
    let ttl = lease_ttl_seconds(ttl_seconds);
    let secs = match now.secs.checked_add(ttl) {
        Some(s) => s,
        None => return None,
    };
    let end = Timestamp { secs, nanos: now.nanos };
    let taken = match format_rfc3339(now) {
        Some(t) => t,
        None => return None,
    };
    let until = match format_rfc3339(end) {
        Some(u) => u,
        None => return None,
    };
    Some((taken, until))
}

/// The error text recorded on an account: at most its first 500 characters.
pub fn truncate_error(error: &str) -> (r: String)
    ensures
        r@ == if error@.len() <= 500 {
            error@
        } else {
            error@.take(500)
        },
{
    let v = text::chars_of(error);
    let n = if v.len() <= 500 {
        v.len()
    } else {
        500
    };
    assert(v@.subrange(0, v@.len() as int) =~= v@);
    assert(v@.subrange(0, 500) =~= v@.take(500));
    text::string_of_span(&v, 0, n)
}

/// The status an account gets after a mailbox check that ended with
/// `last_error`: `ready` when there was none, else `error`.
pub fn checked_status(last_error: &str) -> (r: String)
    ensures
        r@ == if last_error@.len() == 0 {
            status_ready()
        } else {
            status_error()
        },
{
    if last_error.is_empty() {
        String::from_str("ready")
    } else {
        String::from_str("error")
    }
}

/// Law: a leased account stays out of the pool until its lease ends. After
/// a lease that picks row `i`, running until `until`, no lease requested at
/// a time `later` that is not past `until` picks row `i` again.
pub proof fn lease_is_exclusive_until_expiry(
    rows: Seq<LeaseRowView>,
    now: Seq<char>,
    until: Seq<char>,
    token: Seq<char>,
    later: Seq<char>,
    until2: Seq<char>,
    token2: Seq<char>,
)
    requires
        lease_pool(rows, now, until, token).1 is Some,
        !text::text_before(until, later),
    ensures
        lease_pool(lease_pool(rows, now, until, token).0, later, until2, token2).1 != lease_pool(
            rows,
            now,
            until,
            token,
        ).1,
{
    let i = lease_pool(rows, now, until, token).1->0;
    let after = lease_pool(rows, now, until, token).0;
    reveal_strlit("leased");
    reveal_strlit("idle");
    reveal_strlit("ready");
    reveal_strlit("error");
    assert(after[i] == leased_row(rows[i], token, until, now));
    assert(!lease_eligible(after[i], later)) by {
        assert(status_leased() != status_idle()) by {
            assert(status_leased().len() != status_idle().len());
        }
        assert(status_leased() != status_ready()) by {
            assert(status_leased().len() != status_ready().len());
        }
        assert(status_leased() != status_error()) by {
            assert(status_leased().len() != status_error().len());
        }
    }
    if lease_pool(after, later, until2, token2).1 == Some(i) {
        let c = choose|k: int| is_lease_choice(after, later, k);
        assert(is_lease_choice(after, later, c));
    }
}

/// One lease request: the time it is made, the end of the lease it would
/// grant, and its token.
pub ghost struct LeaseRequest {
    pub now: Seq<char>,
    pub until: Seq<char>,
    pub token: Seq<char>,
}

/// A run of lease requests on the pool: the rows afterwards and what each
/// request leased.
pub open spec fn lease_all(rows: Seq<LeaseRowView>, reqs: Seq<LeaseRequest>) -> (
    Seq<LeaseRowView>,
    Seq<Option<int>>,
)
    decreases reqs.len(),
{
    if reqs.len() == 0 {
        (rows, Seq::empty())
    } else {
        let prev = lease_all(rows, reqs.drop_last());
        let q = reqs.last();
        let next = lease_pool(prev.0, q.now, q.until, q.token);
        (next.0, prev.1.push(next.1))
    }
}

proof fn lemma_leased_row_not_eligible(r: LeaseRowView, until: Seq<char>, later: Seq<char>)
    requires
        r.status == status_leased(),
        r.lease_until == Some(until),
        !text::text_before(until, later),
    ensures
        !lease_eligible(r, later),
{
    reveal_strlit("leased");
    reveal_strlit("idle");
    reveal_strlit("ready");
    reveal_strlit("error");
    assert(status_leased().len() != status_idle().len());
    assert(status_leased().len() != status_ready().len());
    assert(status_leased().len() != status_error().len());
}

proof fn lemma_leased_row_kept(rows: Seq<LeaseRowView>, i: int, until: Seq<char>, reqs: Seq<LeaseRequest>)
    requires
        0 <= i < rows.len(),
        rows[i].status == status_leased(),
        rows[i].lease_until == Some(until),
        forall|k: int| 0 <= k < reqs.len() ==> !text::text_before(until, #[trigger] reqs[k].now),
    ensures
        lease_all(rows, reqs).0.len() == rows.len(),
        lease_all(rows, reqs).0[i] == rows[i],
        lease_all(rows, reqs).1.len() == reqs.len(),
        forall|k: int| 0 <= k < reqs.len() ==> #[trigger] lease_all(rows, reqs).1[k] != Some(i),
    decreases reqs.len(),
{
    if reqs.len() > 0 {
        let front = reqs.drop_last();
        assert forall|k: int| 0 <= k < front.len() implies !text::text_before(until, #[trigger] front[k].now) by {
            assert(front[k] == reqs[k]);
        }
        lemma_leased_row_kept(rows, i, until, front);
        let prev = lease_all(rows, front);
        let q = reqs.last();
        assert(!text::text_before(until, q.now)) by {
            assert(q == reqs[reqs.len() - 1]);
        }
        lemma_leased_row_not_eligible(prev.0[i], until, q.now);
        if lease_pool(prev.0, q.now, q.until, q.token).1 == Some(i) {
            let c = choose|k: int| is_lease_choice(prev.0, q.now, k);
            assert(is_lease_choice(prev.0, q.now, c));
        }
        let all = lease_all(rows, reqs);
        assert forall|k: int| 0 <= k < reqs.len() implies #[trigger] all.1[k] != Some(i) by {
            if k < front.len() {
                assert(all.1[k] == prev.1[k]);
            }
        }
    }
}

/// Law: a lease stays exclusive until it ends, whatever other leases come
/// in between. After a lease that picks row `i`, running until `until`, no
/// later request made at a time not past `until` picks row `i`, and row
/// `i` keeps its lease.
pub proof fn lease_stays_exclusive(
    rows: Seq<LeaseRowView>,
    now: Seq<char>,
    until: Seq<char>,
    token: Seq<char>,
    later: Seq<LeaseRequest>,
)
    requires
        lease_pool(rows, now, until, token).1 is Some,
        forall|k: int| 0 <= k < later.len() ==> !text::text_before(until, #[trigger] later[k].now),
    ensures
        forall|k: int|
            0 <= k < later.len() ==> #[trigger] lease_all(lease_pool(rows, now, until, token).0, later).1[k]
                != lease_pool(rows, now, until, token).1,
        lease_all(lease_pool(rows, now, until, token).0, later).0[lease_pool(rows, now, until, token).1->0]
            == lease_pool(rows, now, until, token).0[lease_pool(rows, now, until, token).1->0],
{
    let i = lease_pool(rows, now, until, token).1->0;
    let after = lease_pool(rows, now, until, token).0;
    let c = choose|k: int| is_lease_choice(rows, now, k);
    assert(is_lease_choice(rows, now, c));
    assert(after[i] == leased_row(rows[i], token, until, now));
    lemma_leased_row_kept(after, i, until, later);
}

/// Law: a lease changes only the leased row; every other account is left
/// as it was, and the row count stays.
pub proof fn lease_touches_only_the_leased_row(
    rows: Seq<LeaseRowView>,
    now: Seq<char>,
    until: Seq<char>,
    token: Seq<char>,
)
    ensures
        lease_pool(rows, now, until, token).0.len() == rows.len(),
        forall|j: int|
            0 <= j < rows.len() && Some(j) != lease_pool(rows, now, until, token).1 ==> #[trigger] lease_pool(
                rows,
                now,
                until,
                token,
            ).0[j] == rows[j],
{
}

/// Law: when every account has one of the four statuses, the counts by
/// status add up to the total.
pub proof fn status_counts_add_up(statuses: Seq<Seq<char>>)
    requires
        forall|i: int|
            0 <= i < statuses.len() ==> #[trigger] statuses[i] == status_idle() || statuses[i]
                == status_leased() || statuses[i] == status_ready() || statuses[i]
                == status_error(),
    ensures
        count_status(statuses, status_idle()) + count_status(statuses, status_leased())
            + count_status(statuses, status_ready()) + count_status(statuses, status_error())
            == statuses.len(),
    decreases statuses.len(),
{
    reveal_strlit("leased");
    reveal_strlit("idle");
    reveal_strlit("ready");
    reveal_strlit("error");
    if statuses.len() > 0 {
        let rest = statuses.drop_last();
        assert forall|i: int| 0 <= i < rest.len() implies #[trigger] rest[i] == status_idle()
            || rest[i] == status_leased() || rest[i] == status_ready() || rest[i]
            == status_error() by {
            assert(rest[i] == statuses[i]);
        }
        status_counts_add_up(rest);
        assert(statuses.last() == statuses[statuses.len() - 1]);
        assert(status_leased() != status_idle()) by {
            assert(status_leased().len() != status_idle().len());
        }
        assert(status_leased() != status_ready()) by {
            assert(status_leased().len() != status_ready().len());
        }
        assert(status_leased() != status_error()) by {
            assert(status_leased().len() != status_error().len());
        }
        assert(status_idle() != status_ready()) by {
            assert(status_idle().len() != status_ready().len());
        }
        assert(status_idle() != status_error()) by {
            assert(status_idle().len() != status_error().len());
        }
        assert(status_ready() != status_error()) by {
            assert(status_ready()[0] != status_error()[0]);
        }
    }
}

proof fn lemma_statuses_distinct()
    ensures
        status_ready() != status_idle(),
        status_ready() != status_leased(),
        status_ready() != status_error(),
        status_idle() != status_leased(),
        status_idle() != status_error(),
        status_leased() != status_error(),
{
    reveal_strlit("leased");
    reveal_strlit("idle");
    reveal_strlit("ready");
    reveal_strlit("error");
    assert(status_ready().len() != status_idle().len());
    assert(status_ready().len() != status_leased().len());
    assert(status_ready()[0] != status_error()[0]);
    assert(status_idle().len() != status_leased().len());
    assert(status_idle().len() != status_error().len());
    assert(status_leased().len() != status_error().len());
}

/// Law: the lease takes ready accounts first, then idle ones, and only then
/// accounts in error or whose lease ran out, whatever their update times;
/// among eligible accounts of the same status it takes the one updated
/// first, accounts in error and expired leases counting as one status. If
/// row `j` is eligible when row `i` is leased, then `i` is ready when `j`
/// is, `i` is ready or idle when `j` is idle, and `j` was not updated
/// before `i` when both have the same status or neither is ready or idle.
pub proof fn lease_prefers_ready_then_idle_then_oldest(
    rows: Seq<LeaseRowView>,
    now: Seq<char>,
    i: int,
    j: int,
)
    requires
        lease_choice(rows, now) == Some(i),
        0 <= j < rows.len(),
        lease_eligible(rows[j], now),
    ensures
        lease_eligible(rows[i], now),
        rows[j].status == status_ready() ==> rows[i].status == status_ready(),
        rows[j].status == status_idle() ==> rows[i].status == status_ready() || rows[i].status
            == status_idle(),
        rows[j].status == rows[i].status ==> !text::text_before(
            rows[j].updated_at,
            rows[i].updated_at,
        ),
        rows[i].status != status_ready() && rows[i].status != status_idle() && rows[j].status
            != status_ready() && rows[j].status != status_idle() ==> !text::text_before(
            rows[j].updated_at,
            rows[i].updated_at,
        ),
{
    lemma_statuses_distinct();
    assert(exists|k: int| is_lease_choice(rows, now, k));
    assert(is_lease_choice(rows, now, i));
    assert(!leases_before(rows[j], rows[i]));
}

/// Whether a status is one of the four an account can have.
pub open spec fn known_status(s: Seq<char>) -> bool {
    s == status_idle() || s == status_leased() || s == status_ready() || s == status_error()
}

/// Law: the statuses the library writes are among the four. A lease leaves
/// every row with a known status if every row had one, and the status after
/// a mailbox check is `ready` or `error`.
pub proof fn written_statuses_are_known(
    rows: Seq<LeaseRowView>,
    now: Seq<char>,
    until: Seq<char>,
    token: Seq<char>,
    last_error: Seq<char>,
)
    requires
        forall|i: int| 0 <= i < rows.len() ==> known_status(#[trigger] rows[i].status),
    ensures
        lease_pool(rows, now, until, token).0.len() == rows.len(),
        forall|i: int|
            0 <= i < rows.len() ==> known_status(
                #[trigger] lease_pool(rows, now, until, token).0[i].status,
            ),
        known_status(
            if last_error.len() == 0 {
                status_ready()
            } else {
                status_error()
            },
        ),
{
    if let Some(k) = lease_choice(rows, now) {
        assert(is_lease_choice(rows, now, k));
        let after = lease_pool(rows, now, until, token).0;
        assert forall|i: int| 0 <= i < rows.len() implies known_status(#[trigger] after[i].status) by {
            if i != k {
                assert(after[i] == rows[i]);
            }
        }
    }
}

/// Law: an expired lease returns the account to the pool: once `later` is
/// past `until`, the leased row is eligible again.
pub proof fn expired_lease_is_eligible(
    r: LeaseRowView,
    token: Seq<char>,
    until: Seq<char>,
    now: Seq<char>,
    later: Seq<char>,
)
    requires
        text::text_before(until, later),
    ensures
        lease_eligible(leased_row(r, token, until, now), later),
{
}

} // verus!
