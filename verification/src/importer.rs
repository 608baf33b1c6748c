//! Bulk import of mailbox credentials: one account per line, written as
//! `email,password[,imap_host,imap_port]` or `email:password`.

use vstd::prelude::*;
use crate::text;

verus! {

/// One mailbox accepted from the import text.
#[derive(Debug, Clone, PartialEq, Eq)]
pub struct ImportedAccount {
    pub email: String,
    pub password: String,
    pub imap_host: String,
    pub imap_port: u16,
}

/// A rejected line: its 1-based number, its trimmed text and why.
#[derive(Debug, Clone, PartialEq, Eq)]
pub struct ImportError {
    pub line_number: usize,
    pub line: String,
    pub reason: String,
}

/// Everything an import text yields, in line order.
#[derive(Debug, Clone, PartialEq, Eq)]
pub struct ParsedImport {
    pub accounts: Vec<ImportedAccount>,
    pub errors: Vec<ImportError>,
}

/// Mathematical value of an `ImportedAccount`.
pub ghost struct AccountEntry {
    pub email: Seq<char>,
    pub password: Seq<char>,
    pub imap_host: Seq<char>,
    pub imap_port: u16,
}

/// Mathematical value of an `ImportError`.
pub ghost struct LineIssue {
    pub line_number: nat,
    pub line: Seq<char>,
    pub reason: Seq<char>,
}

impl View for ImportedAccount {
    type V = AccountEntry;

    open spec fn view(&self) -> AccountEntry {
        AccountEntry {
            email: self.email@,
            password: self.password@,
            imap_host: self.imap_host@,
            imap_port: self.imap_port,
        }
    }
}

impl View for ImportError {
    type V = LineIssue;

    open spec fn view(&self) -> LineIssue {
        LineIssue { line_number: self.line_number as nat, line: self.line@, reason: self.reason@ }
    }
}

impl ParsedImport {
    pub open spec fn accounts_view(&self) -> Seq<AccountEntry> {
        self.accounts@.map_values(|a: ImportedAccount| a@)
    }

    pub open spec fn errors_view(&self) -> Seq<LineIssue> {
        self.errors@.map_values(|e: ImportError| e@)
    }
}

pub open spec fn default_imap_host() -> Seq<char> {
    "outlook.office365.com"@
}

pub const DEFAULT_IMAP_PORT: u16 = 993;

pub open spec fn reason_password() -> Seq<char> {
    "password is required"@
}

pub open spec fn reason_email() -> Seq<char> {
    "email is invalid"@
}

pub open spec fn reason_host() -> Seq<char> {
    "imap_host is required"@
}

pub open spec fn reason_port() -> Seq<char> {
    "imap_port must be a number"@
}

/// A line is split at commas when it has one, else at colons.
pub open spec fn delimiter(line: Seq<char>) -> char {
    if line.contains(',') {
        ','
    } else {
        ':'
    }
}

/// The fields of a line, each trimmed and stripped of surrounding quotes.
pub open spec fn fields(line: Seq<char>) -> Seq<Seq<char>> {
    text::split(line, delimiter(line)).map_values(|p: Seq<char>| text::trim_quotes(text::trim(p)))
}

/// An address is plausible when it has an `@` with a non-blank part before
/// the first one, and the part after it is non-blank and holds a dot.
pub open spec fn plausible_email(s: Seq<char>) -> bool {
    let i = text::first_index(s, '@');
    &&& i >= 0
    &&& text::trim(s.take(i)).len() > 0
    &&& s.skip(i + 1).contains('.')
    &&& text::trim(s.skip(i + 1)).len() > 0
}

/// Law: an address made of a local part without `@`, an `@` and a domain
/// is plausible exactly when the local part is not blank and the domain is
/// not blank and holds a dot; nothing else about either part matters (dots,
/// colons or spaces inside the local part among them).
pub proof fn plausible_email_is_local_at_domain(local: Seq<char>, domain: Seq<char>)
    requires
        !local.contains('@'),
    ensures
        plausible_email(local + seq!['@'] + domain) <==> (text::trim(local).len() > 0
            && text::trim(domain).len() > 0 && domain.contains('.')),
{
    let s = local + seq!['@'] + domain;
    let n = local.len() as int;
    assert(s[n] == '@');
    assert(s.contains('@'));
    let i = text::first_index(s, '@');
    assert(0 <= i < s.len() && s[i] == '@' && forall|j: int| 0 <= j < i ==> s[j] != '@');
    if i < n {
        assert(local[i] == s[i]);
        assert(local.contains('@'));
    }
    if i > n {
        assert(s[n] != '@');
    }
    assert(i == n);
    assert(s.take(i) =~= local);
    assert(s.skip(i + 1) =~= domain);
}

/// What one non-blank line yields: an account, or the reason it is refused.
/// The checks come in this order: field count, port, address, password, host.
pub open spec fn line_outcome(line: Seq<char>) -> Result<AccountEntry, Seq<char>> {
    let f = fields(line);
    if f.len() < 2 {
        Err(reason_password())
    } else {
        let email = text::lowercase(text::trim(f[0]));
        let password = text::trim(f[1]);
        let host = if f.len() > 2 {
            text::trim(f[2])
        } else {
            default_imap_host()
        };
        let port = if f.len() > 3 {
            text::parse_u16(text::trim(f[3]))
        } else {
            Some(DEFAULT_IMAP_PORT)
        };
        if port is None {
            Err(reason_port())
        } else if !plausible_email(email) {
            Err(reason_email())
        } else if password.len() == 0 {
            Err(reason_password())
        } else if host.len() == 0 {
            Err(reason_host())
        } else {
            Ok(AccountEntry { email, password, imap_host: host, imap_port: port->0 })
        }
    }
}

/// How one raw line changes the import so far; `number` is its 1-based
/// line number.
pub open spec fn import_step(
    prev: (Seq<AccountEntry>, Seq<LineIssue>),
    number: nat,
    raw: Seq<char>,
) -> (Seq<AccountEntry>, Seq<LineIssue>) {
    let line = text::trim(raw);
    if line.len() == 0 {
        prev
    } else {
        match line_outcome(line) {
            Ok(a) => (prev.0.push(a), prev.1),
            Err(r) => (prev.0, prev.1.push(LineIssue { line_number: number, line, reason: r })),
        }
    }
}

/// Accounts and refused lines of a sequence of raw lines.
pub open spec fn import_lines(ls: Seq<Seq<char>>) -> (Seq<AccountEntry>, Seq<LineIssue>)
    decreases ls.len(),
{
    if ls.len() == 0 {
        (Seq::empty(), Seq::empty())
    } else {
        import_step(import_lines(ls.drop_last()), ls.len(), ls.last())
    }
}

/// The number of lines that are not blank once trimmed.
pub open spec fn nonblank_lines(ls: Seq<Seq<char>>) -> nat
    decreases ls.len(),
{
    if ls.len() == 0 {
        0
    } else {
        nonblank_lines(ls.drop_last()) + if text::trim(ls.last()).len() == 0 {
            0nat
        } else {
            1nat
        }
    }
}

/// Law: no line is dropped or counted twice. Every non-blank line yields
/// exactly one account or one error, and the errors name lines in
/// increasing order, each within the text.
pub proof fn every_line_is_accounted_for(ls: Seq<Seq<char>>)
    ensures
        import_lines(ls).0.len() + import_lines(ls).1.len() == nonblank_lines(ls),
        forall|k: int|
            0 <= k < import_lines(ls).1.len() ==> 1 <= #[trigger] import_lines(ls).1[k].line_number
                <= ls.len(),
        forall|k: int, j: int|
            0 <= k < j < import_lines(ls).1.len() ==> #[trigger] import_lines(ls).1[k].line_number
                < #[trigger] import_lines(ls).1[j].line_number,
    decreases ls.len(),
{
    if ls.len() > 0 {
        every_line_is_accounted_for(ls.drop_last());
    }
}

/// Law: a line with only an address and a password gets the Outlook
/// defaults `outlook.office365.com:993`.
pub proof fn two_fields_take_outlook_defaults(line: Seq<char>)
    requires
        fields(line).len() == 2,
        line_outcome(line) is Ok,
    ensures
        line_outcome(line)->Ok_0.imap_host == default_imap_host(),
        line_outcome(line)->Ok_0.imap_port == DEFAULT_IMAP_PORT,
{
}

/// Law: every accepted account has a plausible address, a non-blank
/// password and a non-blank IMAP host.
pub proof fn accepted_accounts_are_complete(line: Seq<char>)
    requires
        line_outcome(line) is Ok,
    ensures
        plausible_email(line_outcome(line)->Ok_0.email),
        line_outcome(line)->Ok_0.password.len() > 0,
        line_outcome(line)->Ok_0.imap_host.len() > 0,
{
}

/// Refused lines with their numbers moved down by `by` lines.
pub open spec fn shift_issues(es: Seq<LineIssue>, by: nat) -> Seq<LineIssue> {
    es.map_values(|e: LineIssue| LineIssue { line_number: e.line_number + by, ..e })
}

proof fn lemma_import_lines_concat(la: Seq<Seq<char>>, lb: Seq<Seq<char>>)
    ensures
        import_lines(la + lb).0 == import_lines(la).0 + import_lines(lb).0,
        import_lines(la + lb).1 == import_lines(la).1 + shift_issues(
            import_lines(lb).1,
            la.len(),
        ),
    decreases lb.len(),
{
    if lb.len() == 0 {
        assert(la + lb =~= la);
        assert(import_lines(la).0 + import_lines(lb).0 =~= import_lines(la).0);
        assert(import_lines(la).1 + shift_issues(import_lines(lb).1, la.len()) =~= import_lines(
            la,
        ).1);
    } else {
        let lb1 = lb.drop_last();
        lemma_import_lines_concat(la, lb1);
        assert((la + lb).drop_last() =~= la + lb1);
        assert((la + lb).last() == lb.last());
        let line = text::trim(lb.last());
        let pa = import_lines(la);
        let pb1 = import_lines(lb1);
        if line.len() > 0 {
            match line_outcome(line) {
                Ok(acc) => {
                    assert(pa.0 + pb1.0.push(acc) =~= (pa.0 + pb1.0).push(acc));
                },
                Err(r) => {
                    let issue = LineIssue { line_number: lb.len(), line, reason: r };
                    assert(shift_issues(pb1.1.push(issue), la.len()) =~= shift_issues(
                        pb1.1,
                        la.len(),
                    ).push(LineIssue { line_number: lb.len() + la.len(), line, reason: r }));
                    assert(pa.1 + shift_issues(pb1.1.push(issue), la.len()) =~= (pa.1
                        + shift_issues(pb1.1, la.len())).push(
                        LineIssue { line_number: (la + lb).len(), line, reason: r },
                    ));
                },
            }
        }
    }
}

/// Law: importing a text that ends in a line break, then more text, is
/// importing each in turn: the accounts follow one another, and the refused
/// lines of the second text are numbered after the lines of the first.
pub proof fn import_concatenates(a: Seq<char>, b: Seq<char>)
    requires
        a.len() == 0 || a.last() == '\n',
    ensures
        import_text(a + b).0 == import_text(a).0 + import_text(b).0,
        import_text(a + b).1 == import_text(a).1 + shift_issues(
            import_text(b).1,
            text::lines(a).len(),
        ),
{
    text::lemma_lines_concat(a, b);
    lemma_import_lines_concat(text::lines(a), text::lines(b));
}

/// What an import text yields.
pub open spec fn import_text(input: Seq<char>) -> (Seq<AccountEntry>, Seq<LineIssue>) {
    import_lines(text::lines(input))
}

/// The import line that writes an account out in full:
/// `email,password,imap_host,imap_port`.
pub open spec fn account_line(a: AccountEntry) -> Seq<char> {
    a.email + seq![','] + a.password + seq![','] + a.imap_host + seq![','] + text::decimal(
        a.imap_port as nat,
    )
}

/// Whether a field can be written between commas and read back unchanged:
/// no comma, double quote or line break in it, and no white space at its ends.
pub open spec fn plain_field(s: Seq<char>) -> bool {
    &&& !s.contains(',')
    &&& !s.contains('"')
    &&& !s.contains('\n')
    &&& text::trim(s) == s
}

proof fn lemma_plain_field_reads_back(s: Seq<char>)
    requires
        plain_field(s),
    ensures
        text::trim_quotes(text::trim(s)) == s,
{
    if s.len() > 0 {
        assert(s[0] != '"') by {
            if s[0] == '"' {
                assert(s.contains('"'));
            }
        }
        assert(s.last() != '"') by {
            if s.last() == '"' {
                assert(s[s.len() - 1] == '"');
                assert(s.contains('"'));
            }
        }
    }
    text::lemma_trim_keeps(s, true);
}

proof fn lemma_split_after_field(x: Seq<char>, rest: Seq<char>)
    requires
        !x.contains(','),
    ensures
        text::split(x + seq![','] + rest, ',') == seq![x] + text::split(rest, ','),
{
    let xc = x + seq![','];
    text::lemma_split_single(x, ',');
    assert(xc.drop_last() =~= x);
    assert(text::split(xc, ',') =~= seq![x, Seq::<char>::empty()]);
    text::lemma_split_concat(xc, rest, ',');
    assert(seq![x, Seq::<char>::empty()].drop_last() =~= seq![x]);
}

proof fn lemma_account_line_shape(a: AccountEntry)
    requires
        plain_field(a.email),
        plain_field(a.password),
        plain_field(a.imap_host),
        a.email.len() > 0,
    ensures
        text::split(account_line(a), ',') == seq![
            a.email,
            a.password,
            a.imap_host,
            text::decimal(a.imap_port as nat),
        ],
        account_line(a).contains(','),
        !account_line(a).contains('\n'),
        account_line(a)[0] == a.email[0],
        account_line(a).last() == text::decimal(a.imap_port as nat).last(),
{
    let e = a.email;
    let p = a.password;
    let h = a.imap_host;
    let dec = text::decimal(a.imap_port as nat);
    let comma = seq![','];
    text::lemma_decimal(a.imap_port as nat);
    let s3 = h + comma + dec;
    let s2 = p + comma + s3;
    let line = e + comma + s2;
    assert(account_line(a) =~= line);
    text::lemma_digits_lack(dec, ',');
    text::lemma_split_single(dec, ',');
    lemma_split_after_field(h, dec);
    lemma_split_after_field(p, s3);
    lemma_split_after_field(e, s2);
    assert(text::split(line, ',') =~= seq![e, p, h, dec]);
    assert(line[e.len() as int] == ',');
    text::lemma_digits_lack(dec, '\n');
    text::lemma_concat_lacks(h, comma, '\n');
    text::lemma_concat_lacks(h + comma, dec, '\n');
    text::lemma_concat_lacks(p, comma, '\n');
    text::lemma_concat_lacks(p + comma, s3, '\n');
    text::lemma_concat_lacks(e, comma, '\n');
    text::lemma_concat_lacks(e + comma, s2, '\n');
}

proof fn lemma_port_reads_back(port: u16)
    ensures
        plain_field(text::decimal(port as nat)),
        !text::white_space(text::decimal(port as nat).last()),
        text::parse_u16(text::decimal(port as nat)) == Some(port),
{
    let dec = text::decimal(port as nat);
    text::lemma_decimal(port as nat);
    text::lemma_digits_lack(dec, ',');
    text::lemma_digits_lack(dec, '"');
    text::lemma_digits_lack(dec, '\n');
    assert('0' <= dec[0] <= '9');
    assert('0' <= dec[dec.len() - 1] <= '9');
    text::lemma_trim_keeps(dec, false);
    assert(text::unsigned_digits(dec) == dec);
}

/// Law: an account written out as `email,password,imap_host,imap_port`
/// imports back as that same account and nothing else, provided its address
/// is already trimmed and lower-case and is plausible, its password and host
/// are not blank, and no field holds a comma, a double quote or a line break
/// or has white space at its ends.
pub proof fn formatted_account_parses_back(a: AccountEntry)
    requires
        plain_field(a.email),
        plain_field(a.password),
        plain_field(a.imap_host),
        text::lowercase(a.email) == a.email,
        plausible_email(a.email),
        a.password.len() > 0,
        a.imap_host.len() > 0,
    ensures
        line_outcome(account_line(a)) == Ok::<AccountEntry, Seq<char>>(a),
        import_text(account_line(a)) == (seq![a], Seq::<LineIssue>::empty()),
{
    let line = account_line(a);
    let dec = text::decimal(a.imap_port as nat);
    assert(a.email.len() > 0) by {
        assert(a.email.contains('@'));
    }
    lemma_account_line_shape(a);
    lemma_port_reads_back(a.imap_port);
    lemma_plain_field_reads_back(a.email);
    lemma_plain_field_reads_back(a.password);
    lemma_plain_field_reads_back(a.imap_host);
    lemma_plain_field_reads_back(dec);
    assert(delimiter(line) == ',');
    assert(fields(line) =~= seq![a.email, a.password, a.imap_host, dec]);
    assert(line_outcome(line) == Ok::<AccountEntry, Seq<char>>(a));
    text::lemma_split_single(line, '\n');
    assert(text::lines(line) =~= seq![line]);
    text::lemma_trimmed_ends(a.email);
    text::lemma_trim_keeps(line, false);
    assert(text::trim(line) == line);
    let ls = seq![line];
    assert(ls.drop_last() =~= Seq::<Seq<char>>::empty());
    assert(ls.last() == line);
    assert(import_lines(ls) == import_step(import_lines(ls.drop_last()), 1, line));
    assert(Seq::<AccountEntry>::empty().push(a) =~= seq![a]);
}

fn split_line(v: &Vec<char>, lo: usize, hi: usize) -> (r: Result<Vec<(usize, usize)>, String>)
    requires
        lo <= hi <= v@.len(),
    ensures
        match r {
            Ok(parts) => fields(v@.subrange(lo as int, hi as int)).len() >= 2 && text::span_texts(
                v@,
                parts@,
            ) == fields(v@.subrange(lo as int, hi as int)) && forall|k: int|
                0 <= k < parts@.len() ==> lo <= #[trigger] parts@[k].0 <= parts@[k].1 <= hi,
            Err(e) => fields(v@.subrange(lo as int, hi as int)).len() < 2 && e@
                == reason_password(),
        },
{
    let ghost line = v@.subrange(lo as int, hi as int);
    let d = if text::span_contains(v, lo, hi, ',') {
        ','
    } else {
        ':'
    };
    let raw = text::split_spans(v, lo, hi, d);
    let ghost pieces = text::split(line, d);
    let mut parts: Vec<(usize, usize)> = Vec::new();
    let mut k: usize = 0;
    while k < raw.len()
        invariant
            lo <= hi <= v@.len(),
            k <= raw@.len(),
            text::span_texts(v@, raw@) == pieces,
            forall|j: int| 0 <= j < raw@.len() ==> lo <= #[trigger] raw@[j].0 <= raw@[j].1 <= hi,
            parts@.len() == k,
            forall|j: int| 0 <= j < k ==> lo <= #[trigger] parts@[j].0 <= parts@[j].1 <= hi,
            forall|j: int|
                0 <= j < k ==> #[trigger] v@.subrange(parts@[j].0 as int, parts@[j].1 as int)
                    == text::trim_quotes(text::trim(pieces[j])),
        decreases raw@.len() - k,
    {
        let (s0, s1) = raw[k];
        assert(pieces[k as int] == v@.subrange(s0 as int, s1 as int));
        let (t0, t1) = text::trim_span(v, s0, s1, false);
        let (q0, q1) = text::trim_span(v, t0, t1, true);
        parts.push((q0, q1));
        k = k + 1;
    }
    assert(text::span_texts(v@, parts@) =~= fields(line));
    if parts.len() < 2 {
        Err(String::from_str("password is required"))
    } else {
        Ok(parts)
    }
}

/// Decides `plausible_email` for a text.
fn looks_like_email(value: &str) -> (b: bool)
    ensures
        b == plausible_email(value@),
{
    let w = text::chars_of(value);
    match text::find_first(&w, '@') {
        None => false,
        Some(i) => {
            assert(i < w.len());
            assert(w@.take(i as int) =~= w@.subrange(0, i as int));
            assert(w@.skip(i + 1) =~= w@.subrange(i + 1, w@.len() as int));
            let (a0, a1) = text::trim_span(&w, 0, i, false);
            if a0 == a1 {
                return false;
            }
            if !text::span_contains(&w, i + 1, w.len(), '.') {
                return false;
            }
            let (b0, b1) = text::trim_span(&w, i + 1, w.len(), false);
            b0 < b1
        },
    }
}

/// Parses one trimmed, non-blank line: the span `lo..hi` of `v`.
fn parse_line(v: &Vec<char>, lo: usize, hi: usize) -> (r: Result<ImportedAccount, String>)
    requires
        lo <= hi <= v@.len(),
    ensures
        match r {
            Ok(a) => line_outcome(v@.subrange(lo as int, hi as int)) == Ok::<AccountEntry, Seq<char>>(a@),
            Err(e) => line_outcome(v@.subrange(lo as int, hi as int)) == Err::<AccountEntry, Seq<char>>(e@),
        },
{
    let ghost line = v@.subrange(lo as int, hi as int);
    let parts = match split_line(v, lo, hi) {
        Ok(p) => p,
        Err(e) => return Err(e),
    };
    let ghost f = fields(line);
    assert(f[0] == v@.subrange(parts@[0].0 as int, parts@[0].1 as int));
    assert(f[1] == v@.subrange(parts@[1].0 as int, parts@[1].1 as int));
    let (e0, e1) = text::trim_span(v, parts[0].0, parts[0].1, false);
    let email_raw = text::string_of_span(v, e0, e1);
    let email = text::to_lowercase(email_raw.as_str());
    let (p0, p1) = text::trim_span(v, parts[1].0, parts[1].1, false);
    let mut host_blank = false;
    let imap_host = if parts.len() > 2 {
        assert(f[2] == v@.subrange(parts@[2].0 as int, parts@[2].1 as int));
        let (h0, h1) = text::trim_span(v, parts[2].0, parts[2].1, false);
        host_blank = h0 == h1;
        text::string_of_span(v, h0, h1)
    } else {
        proof {
            reveal_strlit("outlook.office365.com");
        }
        String::from_str("outlook.office365.com")
    };
    assert(host_blank == (imap_host@.len() == 0));
    let imap_port = if parts.len() > 3 {
        assert(f[3] == v@.subrange(parts@[3].0 as int, parts@[3].1 as int));
        let (q0, q1) = text::trim_span(v, parts[3].0, parts[3].1, false);
        match text::parse_u16_span(v, q0, q1) {
            Some(port) => port,
            None => return Err(String::from_str("imap_port must be a number")),
        }
    } else {
        DEFAULT_IMAP_PORT
    };
    if !looks_like_email(email.as_str()) {
        return Err(String::from_str("email is invalid"));
    }
    if p0 == p1 {
        return Err(String::from_str("password is required"));
    }
    if host_blank {
        return Err(String::from_str("imap_host is required"));
    }
    let password = text::string_of_span(v, p0, p1);
    Ok(ImportedAccount { email, password, imap_host, imap_port })
}

/// Parses a whole import text. Blank lines are skipped; every other line
/// gives either an account or an error naming its line number, so a bad
/// line never drops a good one.
pub fn parse_import_text(input: &str) -> (r: ParsedImport)
    ensures
        r.accounts_view() == import_text(input@).0,
        r.errors_view() == import_text(input@).1,
{
    let v = text::chars_of(input);
    let n = v.len();
    let spans = text::split_spans(&v, 0, n, '\n');
    assert(v@.subrange(0, n as int) =~= v@);
    let ghost pieces = text::split(input@, '\n');
    let ghost ls = text::lines(input@);
    proof {
        text::lemma_split_len(input@, '\n');
        assert(pieces.len() == spans@.len());
    }
    let count = spans.len();
    let last_empty = spans[count - 1].0 == spans[count - 1].1;
    assert(last_empty == (pieces.last().len() == 0)) by {
        assert(pieces.last() == v@.subrange(spans@[count - 1].0 as int, spans@[count - 1].1 as int));
    }
    let line_count = if last_empty {
        count - 1
    } else {
        count
    };
    assert(ls.len() == line_count);
    let mut accounts: Vec<ImportedAccount> = Vec::new();
    let mut errors: Vec<ImportError> = Vec::new();
    let mut k: usize = 0;
    assert(ls.take(0) =~= Seq::<Seq<char>>::empty());
    assert(accounts@.map_values(|a: ImportedAccount| a@) =~= Seq::<AccountEntry>::empty());
    assert(errors@.map_values(|e: ImportError| e@) =~= Seq::<LineIssue>::empty());
    while k < line_count
        invariant
            v@ == input@,
            n == v@.len(),
            count == spans@.len(),
            count >= 1,
            line_count <= count,
            line_count == ls.len(),
            span_texts_eq(v@, spans@, pieces),
            pieces == text::split(input@, '\n'),
            ls == text::lines(input@),
            forall|j: int| 0 <= j < spans@.len() ==> 0 <= #[trigger] spans@[j].0 <= spans@[j].1 <= n,
            k <= line_count,
            accounts@.map_values(|a: ImportedAccount| a@) == import_lines(ls.take(k as int)).0,
            errors@.map_values(|e: ImportError| e@) == import_lines(ls.take(k as int)).1,
        decreases line_count - k,
    {
        let (s0, s1) = spans[k];
        assert(pieces[k as int] == v@.subrange(s0 as int, s1 as int));
        let ends_line = k + 1 < count;
        let e1 = if ends_line && s0 < s1 && v[s1 - 1] == '\r' {
            s1 - 1
        } else {
            s1
        };
        assert(v@.subrange(s0 as int, e1 as int) == ls[k as int]) by {
            if ends_line && s0 < s1 && v@[s1 - 1] == '\r' {
                assert(v@.subrange(s0 as int, s1 as int).drop_last() =~= v@.subrange(
                    s0 as int,
                    e1 as int,
                ));
            }
        }
        assert(ls.take(k + 1).drop_last() =~= ls.take(k as int));
        import_one(&v, s0, e1, k + 1, &mut accounts, &mut errors);
        k = k + 1;
    }
    assert(ls.take(k as int) =~= ls);
    ParsedImport { accounts, errors }
}

/// Whether `spans` selects `pieces` from `v`.
spec fn span_texts_eq(v: Seq<char>, spans: Seq<(usize, usize)>, pieces: Seq<Seq<char>>) -> bool {
    &&& spans.len() == pieces.len()
    &&& forall|j: int| 0 <= j < spans.len() ==> #[trigger] pieces[j] == v.subrange(spans[j].0 as int, spans[j].1 as int)
}

/// Applies `import_step` for the raw line `lo..hi` of `v`.
fn import_one(
    v: &Vec<char>,
    lo: usize,
    hi: usize,
    number: usize,
    accounts: &mut Vec<ImportedAccount>,
    errors: &mut Vec<ImportError>,
)
    requires
        lo <= hi <= v@.len(),
    ensures
        (final(accounts)@.map_values(|a: ImportedAccount| a@), final(errors)@.map_values(
            |e: ImportError| e@,
        )) == import_step(
            (old(accounts)@.map_values(|a: ImportedAccount| a@), old(errors)@.map_values(
                |e: ImportError| e@,
            )),
            number as nat,
            v@.subrange(lo as int, hi as int),
        ),
{
    let (a, b) = text::trim_span(v, lo, hi, false);
    if a < b {
        match parse_line(v, a, b) {
            Ok(account) => {
                let ghost before = accounts@;
                accounts.push(account);
                assert(accounts@.map_values(|a: ImportedAccount| a@) =~= before.map_values(
                    |a: ImportedAccount| a@,
                ).push(account@));
            },
            Err(reason) => {
                let line = text::string_of_span(v, a, b);
                let ghost before = errors@;
                let issue = ImportError { line_number: number, line, reason };
                errors.push(issue);
                assert(errors@.map_values(|e: ImportError| e@) =~= before.map_values(
                    |e: ImportError| e@,
                ).push(issue@));
            },
        }
    }
}

} // verus!
