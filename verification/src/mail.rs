//! What the service reads out of fetched mail: the parts of a message, its
//! verification code, its identity, and the order in which messages are kept.

use vstd::prelude::*;
use mailparse::MailHeaderMap;
use sha1::Digest;
use crate::store::{NewMail, NewMailView, Timestamp, time_le};
use crate::text;

verus! {

/// What `regex` reports for `Regex::new(pattern)` searched over `haystack`
/// with `captures_iter`: `None` when the pattern does not compile, else for
/// each successive match its first capture group as (byte offset of its
/// start in the haystack, matched text), or `None` where the group did not
/// take part in that match.
pub uninterp spec fn group_one_matches(pattern: Seq<char>, haystack: Seq<char>) -> Option<
    Seq<Option<(usize, Seq<char>)>>,
>;

/// The view of one capture as `group_one_matches` lists it.
pub open spec fn capture_view(m: Option<(usize, String)>) -> Option<(usize, Seq<char>)> {
    match m {
        Some((start, text)) => Some((start, text@)),
        None => None,
    }
}

/// Whether the UTF-8 bytes of `part` stand in those of `whole` at byte
/// offset `start`.
pub open spec fn occurs_at(whole: Seq<char>, part: Seq<char>, start: int) -> bool {
    let w = vstd::utf8::encode_utf8(whole);
    let p = vstd::utf8::encode_utf8(part);
    &&& 0 <= start
    &&& start + p.len() <= w.len()
    &&& w.subrange(start, start + p.len()) == p
}

/// Whether `part` occurs in `whole` as `str::contains` finds it.
pub open spec fn occurs_in(whole: Seq<char>, part: Seq<char>) -> bool {
    exists|start: int| occurs_at(whole, part, start)
}

/// Compiles `pattern` with `regex::Regex::new` and lists group 1 of every
/// match of `Regex::captures_iter` over `haystack`. The result is the name
/// `group_one_matches`; the regex documentation further guarantees that
/// each capture is the part of the haystack at its offset.
#[verifier::external_body]
fn capture_group_one(pattern: &str, haystack: &str) -> (r: Option<Vec<Option<(usize, String)>>>)
    ensures
        r is Some <==> group_one_matches(pattern@, haystack@) is Some,
        r matches Some(v) ==> group_one_matches(pattern@, haystack@) == Some(
            v@.map_values(|m: Option<(usize, String)>| capture_view(m)),
        ),
        r matches Some(v) ==> forall|i: int|
            0 <= i < v@.len() ==> (#[trigger] v@[i] matches Some(m) ==> occurs_at(
                haystack@,
                m.1@,
                m.0 as int,
            )),
{
    let re = regex::Regex::new(pattern).ok()?;
    Some(
        re.captures_iter(haystack).map(
            |c| c.get(1).map(|m| (m.start(), m.as_str().to_string())),
        ).collect(),
    )
}

/// The code that the service never hands out: it appears in OpenAI mail
/// layouts without being a code.
pub open spec fn placeholder_code() -> Seq<char> {
    "177010"@
}

/// Whether the byte just before offset `start` is `#` or `&`, as in a CSS
/// colour or an HTML entity.
pub open spec fn css_like_prefix(bytes: Seq<u8>, start: usize) -> bool {
    start > 0 && (bytes[start - 1] == 0x23u8 || bytes[start - 1] == 0x26u8)
}

/// The first capture that is not the placeholder and, when `skip_css` holds,
/// does not follow `#` or `&`.
pub open spec fn first_accepted(
    ms: Seq<Option<(usize, Seq<char>)>>,
    bytes: Seq<u8>,
    skip_css: bool,
) -> Option<Seq<char>>
    decreases ms.len(),
{
    if ms.len() == 0 {
        None
    } else {
        match ms[0] {
            Some(m) => if m.1 == placeholder_code() || (skip_css && css_like_prefix(bytes, m.0)) {
                first_accepted(ms.drop_first(), bytes, skip_css)
            } else {
                Some(m.1)
            },
            None => first_accepted(ms.drop_first(), bytes, skip_css),
        }
    }
}

/// The first acceptable capture of `pattern` in `content`; none when the
/// pattern does not compile.
pub open spec fn first_code(content: Seq<char>, pattern: Seq<char>, skip_css: bool) -> Option<
    Seq<char>,
> {
    match group_one_matches(pattern, content) {
        None => None,
        Some(ms) => first_accepted(ms, vstd::utf8::encode_utf8(content), skip_css),
    }
}

pub open spec fn html_block_pattern() -> Seq<char> {
    r"background-color:\s*#F3F3F3[^>]*>[\s\S]*?(\d{6})[\s\S]*?</p>"@
}

pub open spec fn subject_pattern() -> Seq<char> {
    r"Subject:.*?(\d{6})"@
}

pub open spec fn tag_pattern() -> Seq<char> {
    r">\s*(\d{6})\s*<"@
}

pub open spec fn word_pattern() -> Seq<char> {
    r"\b(\d{6})\b"@
}

/// The verification code of a message text: nothing for blank text; else
/// the code inside the highlighted block of an OpenAI mail, else the first
/// code after `Subject:`, else the first code standing alone between tags,
/// else the first six-digit word that does not follow `#` or `&`. The
/// placeholder code is skipped by all but the first rule.
pub open spec fn verification_code(content: Seq<char>) -> Option<Seq<char>> {
    if text::trim(content).len() == 0 {
        None
    } else {
        match group_one_matches(html_block_pattern(), content) {
            None => None,
            Some(ms) => if ms.len() > 0 && ms[0] is Some {
                Some(ms[0].unwrap().1)
            } else {
                match first_code(content, subject_pattern(), false) {
                    Some(c) => Some(c),
                    None => match first_code(content, tag_pattern(), false) {
                        Some(c) => Some(c),
                        None => first_code(content, word_pattern(), true),
                    },
                }
            },
        }
    }
}

proof fn lemma_first_accepted_not_placeholder(
    ms: Seq<Option<(usize, Seq<char>)>>,
    bytes: Seq<u8>,
    skip_css: bool,
)
    ensures
        first_accepted(ms, bytes, skip_css) != Some(placeholder_code()),
    decreases ms.len(),
{
    if ms.len() > 0 {
        lemma_first_accepted_not_placeholder(ms.drop_first(), bytes, skip_css);
    }
}

/// Law: the placeholder code is never reported from the subject, tag or
/// word rules; only a highlighted OpenAI block can yield it.
pub proof fn placeholder_only_from_highlighted_block(content: Seq<char>)
    requires
        verification_code(content) == Some(placeholder_code()),
    ensures
        group_one_matches(html_block_pattern(), content) matches Some(ms) && ms.len() > 0
            && ms[0] is Some,
{
    if let Some(ms) = group_one_matches(html_block_pattern(), content) {
        if !(ms.len() > 0 && ms[0] is Some) {
            let bytes = vstd::utf8::encode_utf8(content);
            if let Some(m) = group_one_matches(subject_pattern(), content) {
                lemma_first_accepted_not_placeholder(m, bytes, false);
            }
            if let Some(m) = group_one_matches(tag_pattern(), content) {
                lemma_first_accepted_not_placeholder(m, bytes, false);
            }
            if let Some(m) = group_one_matches(word_pattern(), content) {
                lemma_first_accepted_not_placeholder(m, bytes, true);
            }
        }
    }
}

/// Whether capture `k` of `ms` is the first one that is present and not the
/// placeholder, and its text is `code`.
pub open spec fn first_real_capture(ms: Seq<Option<(usize, Seq<char>)>>, k: int, code: Seq<char>) -> bool {
    &&& 0 <= k < ms.len()
    &&& ms[k] matches Some(m) && m.1 == code && code != placeholder_code()
    &&& forall|j: int| 0 <= j < k ==> (#[trigger] ms[j] matches Some(m) ==> m.1 == placeholder_code())
}

proof fn lemma_first_accepted_plain(ms: Seq<Option<(usize, Seq<char>)>>, bytes: Seq<u8>)
    ensures
        first_accepted(ms, bytes, false) is Some ==> exists|k: int|
            first_real_capture(ms, k, first_accepted(ms, bytes, false)->0),
        first_accepted(ms, bytes, false) is None ==> forall|j: int|
            0 <= j < ms.len() ==> (#[trigger] ms[j] matches Some(m) ==> m.1 == placeholder_code()),
    decreases ms.len(),
{
    if ms.len() > 0 {
        let rest = ms.drop_first();
        lemma_first_accepted_plain(rest, bytes);
        match ms[0] {
            Some(m) => {
                if m.1 == placeholder_code() {
                    if let Some(c) = first_accepted(rest, bytes, false) {
                        let k = choose|k: int| first_real_capture(rest, k, c);
                        assert forall|j: int| 0 <= j < k + 1 implies (#[trigger] ms[j] matches Some(
                            m2,
                        ) ==> m2.1 == placeholder_code()) by {
                            if j > 0 {
                                assert(ms[j] == rest[j - 1]);
                            }
                        }
                        assert(ms[k + 1] == rest[k]);
                        assert(first_accepted(ms, bytes, false) == first_accepted(rest, bytes, false));
                        assert(first_real_capture(ms, k + 1, c));
                    } else {
                        assert forall|j: int| 0 <= j < ms.len() implies (#[trigger] ms[j] matches Some(
                            m2,
                        ) ==> m2.1 == placeholder_code()) by {
                            if j > 0 {
                                assert(ms[j] == rest[j - 1]);
                            }
                        }
                    }
                } else {
                    assert(first_accepted(ms, bytes, false) == Some(m.1));
                    let c = first_accepted(ms, bytes, false)->0;
                    assert(c == m.1);
                    assert(forall|j: int| 0 <= j < 0 ==> (#[trigger] ms[j] matches Some(m2) ==> m2.1 == placeholder_code()));
                    assert(first_real_capture(ms, 0, c));
                }
            },
            None => {
                if let Some(c) = first_accepted(rest, bytes, false) {
                    let k = choose|k: int| first_real_capture(rest, k, c);
                    assert forall|j: int| 0 <= j < k + 1 implies (#[trigger] ms[j] matches Some(
                        m2,
                    ) ==> m2.1 == placeholder_code()) by {
                        if j > 0 {
                            assert(ms[j] == rest[j - 1]);
                        }
                    }
                    assert(ms[k + 1] == rest[k]);
                    assert(first_accepted(ms, bytes, false) == first_accepted(rest, bytes, false));
                    assert(first_real_capture(ms, k + 1, c));
                } else {
                    assert forall|j: int| 0 <= j < ms.len() implies (#[trigger] ms[j] matches Some(
                        m2,
                    ) ==> m2.1 == placeholder_code()) by {
                        if j > 0 {
                            assert(ms[j] == rest[j - 1]);
                        }
                    }
                }
            },
        }
    }
}

/// Law: a code in the highlighted block of an OpenAI mail wins over every
/// other code: when the text is not blank and the first match of the block
/// pattern captures a code, that code is the one found, even the
/// placeholder.
pub proof fn highlighted_block_code_wins(content: Seq<char>)
    requires
        text::trim(content).len() > 0,
        group_one_matches(html_block_pattern(), content) matches Some(ms) && ms.len() > 0
            && ms[0] is Some,
    ensures
        group_one_matches(html_block_pattern(), content) matches Some(ms) && ms[0] matches Some(
            m,
        ) && verification_code(content) == Some(m.1),
{
}

/// Law: a code on the Subject line wins over codes between tags and plain
/// words. When the text is not blank, the block pattern finds no code and
/// some capture of `Subject:.*?(\d{6})` is not the placeholder, the code
/// found is the first such Subject capture.
pub proof fn subject_code_beats_tags_and_words(content: Seq<char>)
    requires
        text::trim(content).len() > 0,
        group_one_matches(html_block_pattern(), content) matches Some(ms) && !(ms.len() > 0
            && ms[0] is Some),
        group_one_matches(subject_pattern(), content) matches Some(ss) && exists|j: int|
            0 <= j < ss.len() && (#[trigger] ss[j] matches Some(m) && m.1 != placeholder_code()),
    ensures
        verification_code(content) matches Some(c) && group_one_matches(subject_pattern(), content)
            matches Some(ss) && exists|k: int| first_real_capture(ss, k, c),
{
    let bytes = vstd::utf8::encode_utf8(content);
    let ss = group_one_matches(subject_pattern(), content)->0;
    lemma_first_accepted_plain(ss, bytes);
    if first_accepted(ss, bytes, false) is None {
        let j = choose|j: int|
            0 <= j < ss.len() && (#[trigger] ss[j] matches Some(m) && m.1 != placeholder_code());
        assert(ss[j] matches Some(m) ==> m.1 == placeholder_code());
    }
}

/// Law: a code standing alone between tags wins over six-digit words. When
/// the text is not blank, the highlighted-block pattern compiles and finds
/// no code, and no capture of the Subject pattern is a real code, but some
/// capture of the tag pattern `>\s*(\d{6})\s*<` is, then the code found
/// is the first such tag capture, wherever other six-digit words stand.
pub proof fn tag_code_beats_plain_words(content: Seq<char>)
    requires
        text::trim(content).len() > 0,
        group_one_matches(html_block_pattern(), content) matches Some(ms) && !(ms.len() > 0
            && ms[0] is Some),
        group_one_matches(subject_pattern(), content) matches Some(ss) ==> forall|j: int|
            0 <= j < ss.len() ==> (#[trigger] ss[j] matches Some(m) ==> m.1 == placeholder_code()),
        group_one_matches(tag_pattern(), content) matches Some(ts) && exists|j: int|
            0 <= j < ts.len() && (#[trigger] ts[j] matches Some(m) && m.1 != placeholder_code()),
    ensures
        verification_code(content) matches Some(c) && group_one_matches(tag_pattern(), content)
            matches Some(ts) && exists|k: int| first_real_capture(ts, k, c),
{
    let bytes = vstd::utf8::encode_utf8(content);
    if let Some(ss) = group_one_matches(subject_pattern(), content) {
        lemma_first_accepted_plain(ss, bytes);
        if let Some(c) = first_accepted(ss, bytes, false) {
            let k = choose|k: int| first_real_capture(ss, k, c);
            assert(ss[k] matches Some(m) && m.1 == placeholder_code());
        }
    }
    let ts = group_one_matches(tag_pattern(), content)->0;
    lemma_first_accepted_plain(ts, bytes);
    if first_accepted(ts, bytes, false) is None {
        let j = choose|j: int|
            0 <= j < ts.len() && (#[trigger] ts[j] matches Some(m) && m.1 != placeholder_code());
        assert(ts[j] matches Some(m) ==> m.1 == placeholder_code());
    }
}

/// Whether a text is the placeholder code.
fn is_placeholder(t: &String) -> (b: bool)
    ensures
        b == (t@ == placeholder_code()),
{
    proof {
        reveal_strlit("177010");
    }
    let w = text::chars_of(t.as_str());
    if w.len() != 6 {
        return false;
    }
    let same = w[0] == '1' && w[1] == '7' && w[2] == '7' && w[3] == '0' && w[4] == '1' && w[5]
        == '0';
    if same {
        assert(w@ =~= placeholder_code());
    } else {
        assert(w@ != placeholder_code()) by {
            if w@ == placeholder_code() {
                assert(w@[0] == placeholder_code()[0]);
                assert(w@[1] == placeholder_code()[1]);
                assert(w@[2] == placeholder_code()[2]);
                assert(w@[3] == placeholder_code()[3]);
                assert(w@[4] == placeholder_code()[4]);
                assert(w@[5] == placeholder_code()[5]);
            }
        }
    }
    same
}

fn first_non_placeholder_code(content: &str, pattern: &str, skip_css_like_prefixes: bool) -> (r:
    Option<String>)
    ensures
        match r {
            Some(c) => first_code(content@, pattern@, skip_css_like_prefixes) == Some(c@)
                && occurs_in(content@, c@),
            None => first_code(content@, pattern@, skip_css_like_prefixes) is None,
        },
{
    let hits = match capture_group_one(pattern, content) {
        None => return None,
        Some(h) => h,
    };
    let bytes = content.as_bytes();
    let ghost ms = hits@.map_values(|m: Option<(usize, String)>| capture_view(m));
    let ghost all = ms;
    let mut i: usize = 0;
    assert(ms.skip(0) =~= ms);
    while i < hits.len()
        invariant
            i <= hits@.len(),
            ms == hits@.map_values(|m: Option<(usize, String)>| capture_view(m)),
            bytes@ == vstd::utf8::encode_utf8(content@),
            group_one_matches(pattern@, content@) == Some(all),
            all == ms,
            first_accepted(all, bytes@, skip_css_like_prefixes) == first_accepted(
                ms.skip(i as int),
                bytes@,
                skip_css_like_prefixes,
            ),
            forall|j: int|
                0 <= j < hits@.len() ==> (#[trigger] hits@[j] matches Some(m) ==> occurs_at(
                    content@,
                    m.1@,
                    m.0 as int,
                )),
        decreases hits@.len() - i,
    {
        assert(ms.skip(i as int).drop_first() =~= ms.skip(i + 1));
        assert(ms.skip(i as int)[0] == capture_view(hits@[i as int]));
        match &hits[i] {
            None => {},
            Some((start, code)) => {
                let start = *start;
                let placeholder = is_placeholder(code);
                let css = skip_css_like_prefixes && start > 0 && (bytes[start - 1] == 0x23u8
                    || bytes[start - 1] == 0x26u8);
                if !placeholder && !css {
                    assert(occurs_at(content@, code@, start as int));
                    return Some(code.clone());
                }
            },
        }
        i = i + 1;
    }
    None
}

/// Finds the verification code in a message text.
pub fn extract_verification_code(content: &str) -> (r: Option<String>)
    ensures
        match r {
            Some(c) => verification_code(content@) == Some(c@) && occurs_in(content@, c@),
            None => verification_code(content@) is None,
        },
{
    let w = text::chars_of(content);
    assert(w@.subrange(0, w@.len() as int) =~= w@);
    let (a, b) = text::trim_span(&w, 0, w.len(), false);
    if a == b {
        return None;
    }
    let html = match capture_group_one(
        r"background-color:\s*#F3F3F3[^>]*>[\s\S]*?(\d{6})[\s\S]*?</p>",
        content,
    ) {
        None => return None,
        Some(h) => h,
    };
    if html.len() > 0 {
        assert(capture_view(html@[0]) == html@.map_values(
            |m: Option<(usize, String)>| capture_view(m),
        )[0]);
        if let Some((start, code)) = &html[0] {
            assert(occurs_at(content@, code@, *start as int));
            return Some(code.clone());
        }
    }
    if let Some(code) = first_non_placeholder_code(content, r"Subject:.*?(\d{6})", false) {
        return Some(code);
    }
    if let Some(code) = first_non_placeholder_code(content, r">\s*(\d{6})\s*<", false) {
        return Some(code);
    }
    first_non_placeholder_code(content, r"\b(\d{6})\b", true)
}


/// One MIME part of a parsed message: its content type, its decoded body
/// (absent where it cannot be decoded) and its subparts, in order.
#[derive(Debug)]
pub struct MailNode {
    pub mimetype: String,
    pub body: Option<String>,
    pub subparts: Vec<MailNode>,
}

/// What the service reads from a parsed message: the first `Subject`,
/// `From` and `Date` headers, and its MIME tree.
#[derive(Debug)]
pub struct MailOutline {
    pub subject: Option<String>,
    pub from: Option<String>,
    pub date: Option<String>,
    pub root: MailNode,
}

pub open spec fn opt_view(o: Option<String>) -> Option<Seq<char>> {
    match o {
        Some(s) => Some(s@),
        None => None,
    }
}

#[verifier::external_type_specification]
#[verifier::external_body]
pub struct ExParsedMail<'a>(mailparse::ParsedMail<'a>);

/// What `mailparse` makes of a raw message: `None` when `parse_mail`
/// refuses it, else its headers (by `get_first_value`) and its MIME tree
/// (content types from the parsed `Content-Type`, bodies by `get_body`).
pub uninterp spec fn mail_outline(raw: Seq<u8>) -> Option<MailOutline>;

/// Parses a raw message with `mailparse::parse_mail` and reads its headers
/// with `get_first_value`; the result is the name `mail_outline`.
#[verifier::external_body]
fn parse_outline(raw: &[u8]) -> (r: Option<MailOutline>)
    ensures
        r == mail_outline(raw@),
{
    let parsed = mailparse::parse_mail(raw).ok()?;
    let headers = &parsed.headers;
    let subject = headers.get_first_value("Subject");
    let from = headers.get_first_value("From");
    let date = headers.get_first_value("Date");
    Some(MailOutline { subject, from, date, root: mime_part(&parsed) })
}

/// Copies a parsed MIME part and its subparts, one for one, into a
/// `MailNode`; each body is decoded with `ParsedMail::get_body`. Part of
/// `parse_outline`, whose name covers what it returns.
#[verifier::external_body]
fn mime_part(part: &mailparse::ParsedMail) -> MailNode {
    MailNode {
        mimetype: part.ctype.mimetype.clone(),
        body: part.get_body().ok(),
        subparts: part.subparts.iter().map(mime_part).collect(),
    }
}

/// What `chrono::DateTime::parse_from_rfc2822` makes of a date text: the
/// instant it denotes, or `None` when it is not an RFC 2822 date.
pub uninterp spec fn rfc2822_time(s: Seq<char>) -> Option<Timestamp>;

/// Parses an RFC 2822 date with `chrono`; the result is the name
/// `rfc2822_time`.
#[verifier::external_body]
fn parse_rfc2822(s: &str) -> (r: Option<Timestamp>)
    ensures
        r == rfc2822_time(s@),
{
    chrono::DateTime::parse_from_rfc2822(s).ok().map(
        |d| Timestamp { secs: d.timestamp(), nanos: d.timestamp_subsec_nanos() },
    )
}

/// The SHA-1 digest of some bytes, as the `sha1` crate computes it.
pub uninterp spec fn sha1_digest(data: Seq<u8>) -> Seq<u8>;

/// Hashes bytes with `sha1::Sha1::digest`; the result is the name
/// `sha1_digest`, and SHA-1 digests are 20 bytes long.
#[verifier::external_body]
fn sha1(data: &[u8]) -> (r: Vec<u8>)
    ensures
        r@ == sha1_digest(data@),
        r@.len() == 20,
{
    sha1::Sha1::digest(data).to_vec()
}

/// A lowercase hexadecimal digit.
pub open spec fn hex_digit(d: nat) -> char {
    if d < 10 {
        (('0' as nat) + d) as char
    } else {
        (('a' as nat) + d - 10) as char
    }
}

/// Bytes as lowercase hexadecimal, two digits per byte.
pub open spec fn lower_hex(bytes: Seq<u8>) -> Seq<char>
    decreases bytes.len(),
{
    if bytes.len() == 0 {
        Seq::empty()
    } else {
        lower_hex(bytes.drop_last()) + seq![
            hex_digit((bytes.last() / 16) as nat),
            hex_digit((bytes.last() % 16) as nat),
        ]
    }
}

/// `hex::encode`, which writes each byte as two lowercase hexadecimal
/// digits, as its documentation states.
#[verifier::external_body]
fn hex_encode(bytes: &[u8]) -> (r: String)
    ensures
        r@ == lower_hex(bytes@),
{
    hex::encode(bytes)
}

proof fn lemma_lower_hex_len(bytes: Seq<u8>)
    ensures
        lower_hex(bytes).len() == 2 * bytes.len(),
    decreases bytes.len(),
{
    if bytes.len() > 0 {
        lemma_lower_hex_len(bytes.drop_last());
    }
}

/// The content hash of a raw message: its SHA-1 digest in lowercase hex,
/// 40 characters.
pub fn hash_raw(raw: &[u8]) -> (r: String)
    ensures
        r@ == lower_hex(sha1_digest(raw@)),
        r@.len() == 40,
{
    let digest = sha1(raw);
    proof {
        lemma_lower_hex_len(digest@);
    }
    hex_encode(digest.as_slice())
}

pub open spec fn node_body(n: MailNode) -> Seq<char> {
    match n.body {
        Some(b) => b@,
        None => Seq::empty(),
    }
}

/// A part is HTML when its content type, in ASCII lower case, holds `html`.
pub open spec fn is_html_part(n: MailNode) -> bool {
    text::contains_text(text::ascii_lower(n.mimetype@), "html"@)
}

/// A part is text when its content type, in ASCII lower case, holds `text`.
pub open spec fn is_text_part(n: MailNode) -> bool {
    text::contains_text(text::ascii_lower(n.mimetype@), "text"@)
}

/// Whether a leaf part of a multipart message counts as text: not HTML,
/// and a text type or a non-blank body.
pub open spec fn is_text_leaf(n: MailNode) -> bool {
    !is_html_part(n) && (is_text_part(n) || text::trim(node_body(n)).len() > 0)
}

/// The bodies of the leaves under the parts `ns`, in the order of a
/// depth-first walk, that are HTML (`html`) or count as text (`!html`).
pub open spec fn forest_bodies(ns: Seq<MailNode>, html: bool) -> Seq<Seq<char>>
    decreases ns,
{
    if ns.len() == 0 {
        Seq::empty()
    } else {
        let n = ns.last();
        let own = if n.subparts@.len() == 0 {
            if (if html {
                is_html_part(n)
            } else {
                is_text_leaf(n)
            }) {
                seq![node_body(n)]
            } else {
                Seq::empty()
            }
        } else {
            proof {
                assert(decreases_to!(ns => ns[ns.len() - 1]));
            }
            forest_bodies(n.subparts@, html)
        };
        forest_bodies(ns.drop_last(), html) + own
    }
}

/// The text and HTML bodies of a message. A single-part message has its
/// body on the HTML side when it is HTML, else on the text side; a
/// multipart message joins the bodies of its leaves with newlines.
pub open spec fn body_parts(root: MailNode) -> (Seq<char>, Seq<char>) {
    if root.subparts@.len() == 0 {
        if is_html_part(root) {
            (Seq::empty(), node_body(root))
        } else {
            (node_body(root), Seq::empty())
        }
    } else {
        (
            text::join(forest_bodies(root.subparts@, false), "\n"@),
            text::join(forest_bodies(root.subparts@, true), "\n"@),
        )
    }
}

fn body_of(n: &MailNode) -> (r: String)
    ensures
        r@ == node_body(*n),
{
    match &n.body {
        Some(b) => b.clone(),
        None => String::new(),
    }
}

fn is_html(n: &MailNode) -> (r: bool)
    ensures
        r == is_html_part(*n),
{
    let lower = text::ascii_lowercase_chars(n.mimetype.as_str());
    text::vec_contains_text(&lower, "html")
}

fn is_text_leaf_exec(n: &MailNode) -> (r: bool)
    ensures
        r == is_text_leaf(*n),
{
    if is_html(n) {
        return false;
    }
    let lower = text::ascii_lowercase_chars(n.mimetype.as_str());
    if text::vec_contains_text(&lower, "text") {
        return true;
    }
    let body = body_of(n);
    let w = text::chars_of(body.as_str());
    assert(w@.subrange(0, w@.len() as int) =~= w@);
    let (a, b) = text::trim_span(&w, 0, w.len(), false);
    a < b
}

pub open spec fn strings_view(v: Seq<String>) -> Seq<Seq<char>> {
    v.map_values(|s: String| s@)
}

/// Sorts the leaves under the parts `parts` into text and HTML bodies,
/// walking each part's subparts before moving on.
fn collect_body_parts_inner(parts: &Vec<MailNode>, text: &mut Vec<String>, html: &mut Vec<String>)
    ensures
        strings_view(final(text)@) == strings_view(old(text)@) + forest_bodies(parts@, false),
        strings_view(final(html)@) == strings_view(old(html)@) + forest_bodies(parts@, true),
    decreases parts@,
{
    let ghost text0 = strings_view(text@);
    let ghost html0 = strings_view(html@);
    let mut i: usize = 0;
    assert(parts@.take(0) =~= Seq::<MailNode>::empty());
    assert(text0 + forest_bodies(parts@.take(0), false) =~= text0);
    assert(html0 + forest_bodies(parts@.take(0), true) =~= html0);
    while i < parts.len()
        invariant
            i <= parts@.len(),
            strings_view(text@) == text0 + forest_bodies(parts@.take(i as int), false),
            strings_view(html@) == html0 + forest_bodies(parts@.take(i as int), true),
        decreases parts@.len() - i,
    {
        let n = &parts[i];
        assert(parts@.take(i + 1).drop_last() =~= parts@.take(i as int));
        assert(parts@.take(i + 1).last() == *n);
        if n.subparts.len() == 0 {
            if is_html(n) {
                let b = body_of(n);
                let ghost before = html@;
                html.push(b);
                assert(strings_view(html@) =~= strings_view(before).push(b@));
                assert(html0 + forest_bodies(parts@.take(i + 1), true) =~= html0
                    + forest_bodies(parts@.take(i as int), true) + seq![b@]);
                assert(text0 + forest_bodies(parts@.take(i + 1), false) =~= text0
                    + forest_bodies(parts@.take(i as int), false));
            } else if is_text_leaf_exec(n) {
                let b = body_of(n);
                let ghost before = text@;
                text.push(b);
                assert(strings_view(text@) =~= strings_view(before).push(b@));
                assert(text0 + forest_bodies(parts@.take(i + 1), false) =~= text0
                    + forest_bodies(parts@.take(i as int), false) + seq![b@]);
                assert(html0 + forest_bodies(parts@.take(i + 1), true) =~= html0
                    + forest_bodies(parts@.take(i as int), true));
            } else {
                assert(text0 + forest_bodies(parts@.take(i + 1), false) =~= text0
                    + forest_bodies(parts@.take(i as int), false));
                assert(html0 + forest_bodies(parts@.take(i + 1), true) =~= html0
                    + forest_bodies(parts@.take(i as int), true));
            }
        } else {
            assert(decreases_to!(parts@ => parts@[i as int]));
            let ghost t1 = strings_view(text@);
            let ghost h1 = strings_view(html@);
            collect_body_parts_inner(&n.subparts, text, html);
            assert(text0 + forest_bodies(parts@.take(i + 1), false) =~= t1 + forest_bodies(
                n.subparts@,
                false,
            ));
            assert(html0 + forest_bodies(parts@.take(i + 1), true) =~= h1 + forest_bodies(
                n.subparts@,
                true,
            ));
        }
        i = i + 1;
    }
    assert(parts@.take(i as int) =~= parts@);
}

/// The text and HTML bodies of a message tree.
fn collect_body_parts(root: &MailNode) -> (r: (String, String))
    ensures
        (r.0@, r.1@) == body_parts(*root),
{
    if root.subparts.len() == 0 {
        let body = body_of(root);
        if is_html(root) {
            return (String::new(), body);
        }
        return (body, String::new());
    }
    let mut text: Vec<String> = Vec::new();
    let mut html: Vec<String> = Vec::new();
    assert(strings_view(text@) =~= Seq::<Seq<char>>::empty());
    assert(strings_view(html@) =~= Seq::<Seq<char>>::empty());
    collect_body_parts_inner(&root.subparts, &mut text, &mut html);
    assert(strings_view(text@) =~= forest_bodies(root.subparts@, false));
    assert(strings_view(html@) =~= forest_bodies(root.subparts@, true));
    (text::join_strings(&text, "\n"), text::join_strings(&html, "\n"))
}

pub open spec fn or_empty(o: Option<Seq<char>>) -> Seq<char> {
    match o {
        Some(s) => s,
        None => Seq::empty(),
    }
}

/// When a message was received: its `Date` header where that parses, else
/// `now`.
pub open spec fn received_time(date: Option<Seq<char>>, now: Timestamp) -> Timestamp {
    match date {
        Some(d) => match rfc2822_time(d) {
            Some(t) => t,
            None => now,
        },
        None => now,
    }
}

/// The message that a raw mail becomes, or `None` when it does not parse.
/// Its id joins the account address, the sequence number and the content
/// hash with colons; its code is read from `Subject: <subject>`, the text
/// body and the HTML body on separate lines.
pub open spec fn new_mail_of(account_email: Seq<char>, sequence: u32, raw: Seq<u8>, now: Timestamp) -> Option<NewMailView> {
    match mail_outline(raw) {
        None => None,
        Some(o) => {
            let subject = or_empty(opt_view(o.subject));
            let parts = body_parts(o.root);
            let merged = "Subject: "@ + subject + "\n"@ + parts.0 + "\n"@ + parts.1;
            let hash = lower_hex(sha1_digest(raw));
            Some(
                NewMailView {
                    id: account_email + ":"@ + text::decimal(sequence as nat) + ":"@ + hash,
                    account_email,
                    subject,
                    text: parts.0,
                    html: parts.1,
                    from_addr: or_empty(opt_view(o.from)),
                    received_at: received_time(opt_view(o.date), now),
                    verification_code: verification_code(merged),
                    raw_hash: hash,
                },
            )
        },
    }
}

fn or_empty_string(o: &Option<String>) -> (r: String)
    ensures
        r@ == or_empty(opt_view(*o)),
{
    match o {
        Some(s) => s.clone(),
        None => String::new(),
    }
}

/// Turns one raw message of a mailbox into a `NewMail`; `now` stands in for
/// a missing or unreadable `Date`.
pub fn parsed_mail_to_new_mail(account_email: &str, sequence: u32, raw: &[u8], now: Timestamp) -> (r:
    Option<NewMail>)
    ensures
        match r {
            Some(m) => new_mail_of(account_email@, sequence, raw@, now) == Some(m@),
            None => new_mail_of(account_email@, sequence, raw@, now) is None,
        },
{
    let outline = match parse_outline(raw) {
        None => return None,
        Some(o) => o,
    };
    let subject = or_empty_string(&outline.subject);
    let from_addr = or_empty_string(&outline.from);
    let received_at = match &outline.date {
        Some(d) => match parse_rfc2822(d.as_str()) {
            Some(t) => t,
            None => now,
        },
        None => now,
    };
    let (text, html) = collect_body_parts(&outline.root);
    let mut merged = String::from_str("Subject: ");
    merged.append(subject.as_str());
    merged.append("\n");
    merged.append(text.as_str());
    merged.append("\n");
    merged.append(html.as_str());
    let verification_code = extract_verification_code(merged.as_str());
    let raw_hash = hash_raw(raw);
    let mut digits: Vec<char> = Vec::new();
    text::push_decimal(&mut digits, sequence);
    assert(digits@ =~= text::decimal(sequence as nat));
    let number = text::string_of_span(&digits, 0, digits.len());
    assert(digits@.subrange(0, digits@.len() as int) =~= digits@);
    let mut id = String::from_str(account_email);
    id.append(":");
    id.append(number.as_str());
    id.append(":");
    id.append(raw_hash.as_str());
    let mail = NewMail {
        id,
        account_email: String::from_str(account_email),
        subject,
        text,
        html,
        from_addr,
        received_at,
        verification_code,
        raw_hash,
    };
    assert(mail@ == new_mail_of(account_email@, sequence, raw@, now)->0);
    Some(mail)
}


/// One message as the IMAP fetch returns it: its sequence number and its
/// raw body, when the server sent one.
#[derive(Debug, Clone)]
pub struct FetchedMessage {
    pub sequence: u32,
    pub body: Option<Vec<u8>>,
}

/// The messages that fetched mail becomes, in fetch order: those with a body
/// that parses.
pub open spec fn converted(account_email: Seq<char>, fetched: Seq<FetchedMessage>, now: Timestamp) -> Seq<NewMailView>
    decreases fetched.len(),
{
    if fetched.len() == 0 {
        Seq::empty()
    } else {
        let prev = converted(account_email, fetched.drop_last(), now);
        let f = fetched.last();
        match f.body {
            Some(b) => match new_mail_of(account_email, f.sequence, b@, now) {
                Some(m) => prev.push(m),
                None => prev,
            },
            None => prev,
        }
    }
}

/// `s` with `m` placed before the first message that is not newer than it.
pub open spec fn insert_newest(s: Seq<NewMailView>, m: NewMailView) -> Seq<NewMailView>
    decreases s.len(),
{
    if s.len() == 0 {
        seq![m]
    } else if time_le(s[0].received_at, m.received_at) {
        seq![m] + s
    } else {
        seq![s[0]] + insert_newest(s.drop_first(), m)
    }
}

/// Messages newest first; among messages received at the same time, the one
/// fetched later comes first (a stable sort by time, then reversed).
pub open spec fn newest_first(ms: Seq<NewMailView>) -> Seq<NewMailView>
    decreases ms.len(),
{
    if ms.len() == 0 {
        Seq::empty()
    } else {
        insert_newest(newest_first(ms.drop_last()), ms.last())
    }
}

/// Whether messages are ordered newest first.
pub open spec fn is_newest_first(ms: Seq<NewMailView>) -> bool {
    forall|i: int, j: int| 0 <= i < j < ms.len() ==> time_le(#[trigger] ms[j].received_at, #[trigger] ms[i].received_at)
}

proof fn lemma_insert_at(s: Seq<NewMailView>, m: NewMailView, k: int)
    requires
        0 <= k <= s.len(),
        forall|j: int| 0 <= j < k ==> !time_le(#[trigger] s[j].received_at, m.received_at),
        k < s.len() ==> time_le(s[k].received_at, m.received_at),
    ensures
        insert_newest(s, m) == s.insert(k, m),
    decreases s.len(),
{
    if s.len() == 0 {
        assert(s.insert(k, m) =~= seq![m]);
    } else if k == 0 {
        assert(s.insert(k, m) =~= seq![m] + s);
    } else {
        assert(!time_le(s[0].received_at, m.received_at));
        let t = s.drop_first();
        assert forall|j: int| 0 <= j < k - 1 implies !time_le(#[trigger] t[j].received_at, m.received_at) by {
            assert(t[j] == s[j + 1]);
        }
        lemma_insert_at(t, m, k - 1);
        assert(seq![s[0]] + t.insert(k - 1, m) =~= s.insert(k, m));
    }
}

proof fn lemma_insert_keeps_order(s: Seq<NewMailView>, m: NewMailView, k: int)
    requires
        is_newest_first(s),
        0 <= k <= s.len(),
        forall|j: int| 0 <= j < k ==> !time_le(#[trigger] s[j].received_at, m.received_at),
        k < s.len() ==> time_le(s[k].received_at, m.received_at),
    ensures
        is_newest_first(s.insert(k, m)),
{
    let r = s.insert(k, m);
    assert forall|i: int, j: int| 0 <= i < j < r.len() implies time_le(#[trigger] r[j].received_at, #[trigger] r[i].received_at) by {
        if j < k {
        } else if j == k {
            assert(!time_le(s[i].received_at, m.received_at));
        } else if i < k {
            assert(r[j] == s[j - 1]);
            assert(!time_le(s[i].received_at, m.received_at));
            if j - 1 > k {
                assert(time_le(s[j - 1].received_at, s[k].received_at));
            }
        } else if i == k {
            assert(r[j] == s[j - 1]);
            if j - 1 > k {
                assert(time_le(s[j - 1].received_at, s[k].received_at));
            }
        } else {
            assert(r[i] == s[i - 1]);
            assert(r[j] == s[j - 1]);
        }
    }
}

fn no_later(a: Timestamp, b: Timestamp) -> (r: bool)
    ensures
        r == time_le(a, b),
{
    a.secs < b.secs || (a.secs == b.secs && a.nanos <= b.nanos)
}

/// Puts a message into a newest-first list.
fn insert_newest_exec(out: &mut Vec<NewMail>, m: NewMail)
    requires
        is_newest_first(old(out)@.map_values(|x: NewMail| x@)),
    ensures
        final(out)@.map_values(|x: NewMail| x@) == insert_newest(
            old(out)@.map_values(|x: NewMail| x@),
            m@,
        ),
        is_newest_first(final(out)@.map_values(|x: NewMail| x@)),
{
    let ghost s = out@.map_values(|x: NewMail| x@);
    let mut k: usize = 0;
    while k < out.len() && !no_later(out[k].received_at, m.received_at)
        invariant
            k <= out@.len(),
            s == out@.map_values(|x: NewMail| x@),
            forall|j: int| 0 <= j < k ==> !time_le(#[trigger] s[j].received_at, m.received_at),
        decreases out@.len() - k,
    {
        assert(s[k as int].received_at == out@[k as int].received_at);
        k = k + 1;
    }
    assert(k < out@.len() ==> s[k as int].received_at == out@[k as int].received_at);
    proof {
        lemma_insert_at(s, m@, k as int);
        lemma_insert_keeps_order(s, m@, k as int);
    }
    out.insert(k, m);
    assert(out@.map_values(|x: NewMail| x@) =~= s.insert(k as int, m@));
}

/// Law: however messages arrive, `newest_first` lists them newest first.
pub proof fn newest_first_is_sorted(ms: Seq<NewMailView>)
    ensures
        is_newest_first(newest_first(ms)),
    decreases ms.len(),
{
    if ms.len() > 0 {
        newest_first_is_sorted(ms.drop_last());
        let s = newest_first(ms.drop_last());
        let m = ms.last();
        let k = choose_insert_position(s, m);
        lemma_insert_position(s, m);
        lemma_insert_at(s, m, k);
        lemma_insert_keeps_order(s, m, k);
    }
}

/// The position at which `insert_newest` places `m`.
spec fn choose_insert_position(s: Seq<NewMailView>, m: NewMailView) -> int
    decreases s.len(),
{
    if s.len() == 0 {
        0
    } else if time_le(s[0].received_at, m.received_at) {
        0
    } else {
        1 + choose_insert_position(s.drop_first(), m)
    }
}

proof fn lemma_insert_position(s: Seq<NewMailView>, m: NewMailView)
    ensures
        0 <= choose_insert_position(s, m) <= s.len(),
        forall|j: int| 0 <= j < choose_insert_position(s, m) ==> !time_le(#[trigger] s[j].received_at, m.received_at),
        choose_insert_position(s, m) < s.len() ==> time_le(s[choose_insert_position(s, m)].received_at, m.received_at),
    decreases s.len(),
{
    if s.len() > 0 && !time_le(s[0].received_at, m.received_at) {
        let t = s.drop_first();
        lemma_insert_position(t, m);
        assert forall|j: int| 0 <= j < choose_insert_position(s, m) implies !time_le(#[trigger] s[j].received_at, m.received_at) by {
            if j > 0 {
                assert(s[j] == t[j - 1]);
            }
        }
    }
}

/// Law: the verification code of a converted message is the code found in
/// the text `Subject: <its subject>`, a line break, its text body, a line
/// break and its HTML body; so a code that stands only in the subject is
/// still found. The message keeps the account address, its hash is the
/// SHA-1 of the raw mail in lowercase hex, and its id is
/// `<account>:<sequence>:<hash>`.
pub proof fn converted_code_reads_subject_and_bodies(
    account_email: Seq<char>,
    sequence: u32,
    raw: Seq<u8>,
    now: Timestamp,
)
    requires
        new_mail_of(account_email, sequence, raw, now) is Some,
    ensures
        ({
            let m = new_mail_of(account_email, sequence, raw, now)->0;
            &&& m.verification_code == verification_code(
                "Subject: "@ + m.subject + "\n"@ + m.text + "\n"@ + m.html,
            )
            &&& m.account_email == account_email
            &&& m.raw_hash == lower_hex(sha1_digest(raw))
            &&& m.id == account_email + ":"@ + text::decimal(sequence as nat) + ":"@ + m.raw_hash
        }),
{
}

/// The message a fetched message becomes: none without a body or when the
/// body does not parse.
pub open spec fn fetched_mail(account_email: Seq<char>, now: Timestamp) -> spec_fn(FetchedMessage) -> Option<NewMailView> {
    |f: FetchedMessage|
        match f.body {
            Some(b) => new_mail_of(account_email, f.sequence, b@, now),
            None => None,
        }
}

/// Whether a fetched message has a body that parses.
pub open spec fn fetched_parses(account_email: Seq<char>, now: Timestamp) -> spec_fn(FetchedMessage) -> bool {
    |f: FetchedMessage| fetched_mail(account_email, now)(f) is Some
}

proof fn lemma_converted_filter_map(account_email: Seq<char>, fetched: Seq<FetchedMessage>, now: Timestamp)
    ensures
        converted(account_email, fetched, now) == fetched.filter_map(fetched_mail(account_email, now)),
        converted(account_email, fetched, now).len() == fetched.filter(
            fetched_parses(account_email, now),
        ).len(),
    decreases fetched.len(),
{
    if fetched.len() > 0 {
        lemma_converted_filter_map(account_email, fetched.drop_last(), now);
        let prev = converted(account_email, fetched.drop_last(), now);
        fetched.drop_last().lemma_filter_len_push(fetched_parses(account_email, now), fetched.last());
        assert(fetched.drop_last().push(fetched.last()) =~= fetched);
        match fetched_mail(account_email, now)(fetched.last()) {
            Some(m) => {
                assert(prev.push(m) =~= prev + seq![m]);
            },
            None => {},
        }
    }
}

proof fn lemma_newest_first_same_messages(ms: Seq<NewMailView>)
    ensures
        newest_first(ms).to_multiset() == ms.to_multiset(),
    decreases ms.len(),
{
    broadcast use vstd::seq_lib::group_to_multiset_ensures;

    if ms.len() > 0 {
        lemma_newest_first_same_messages(ms.drop_last());
        let s = newest_first(ms.drop_last());
        let m = ms.last();
        let k = choose_insert_position(s, m);
        lemma_insert_position(s, m);
        lemma_insert_at(s, m, k);
        vstd::seq_lib::to_multiset_insert(s, k, m);
        assert(ms.drop_last().push(m) =~= ms);
    }
}

/// Law: fetching drops only messages without a body that parses, whether
/// or not they hold a code. The messages kept, in whatever order, are
/// exactly those the fetched bodies make, one for each fetched message
/// whose body parses.
pub proof fn every_parsed_message_is_kept(account_email: Seq<char>, fetched: Seq<FetchedMessage>, now: Timestamp)
    ensures
        newest_first(converted(account_email, fetched, now)).to_multiset() == fetched.filter_map(
            fetched_mail(account_email, now),
        ).to_multiset(),
        newest_first(converted(account_email, fetched, now)).len() == fetched.filter(
            fetched_parses(account_email, now),
        ).len(),
{
    broadcast use vstd::seq_lib::group_to_multiset_ensures;

    lemma_converted_filter_map(account_email, fetched, now);
    lemma_newest_first_same_messages(converted(account_email, fetched, now));
    assert(newest_first(converted(account_email, fetched, now)).len() == newest_first(
        converted(account_email, fetched, now),
    ).to_multiset().len());
}

/// Turns fetched mail into messages, newest first. Messages without a body,
/// or whose body does not parse, are left out.
pub fn messages_from_fetch(account_email: &str, fetched: Vec<FetchedMessage>, now: Timestamp) -> (r:
    Vec<NewMail>)
    ensures
        r@.map_values(|x: NewMail| x@) == newest_first(converted(account_email@, fetched@, now)),
        is_newest_first(r@.map_values(|x: NewMail| x@)),
{
    let mut out: Vec<NewMail> = Vec::new();
    let mut i: usize = 0;
    assert(fetched@.take(0) =~= Seq::<FetchedMessage>::empty());
    assert(out@.map_values(|x: NewMail| x@) =~= Seq::<NewMailView>::empty());
    while i < fetched.len()
        invariant
            i <= fetched@.len(),
            out@.map_values(|x: NewMail| x@) == newest_first(
                converted(account_email@, fetched@.take(i as int), now),
            ),
            is_newest_first(out@.map_values(|x: NewMail| x@)),
        decreases fetched@.len() - i,
    {
        let f = &fetched[i];
        assert(fetched@.take(i + 1).drop_last() =~= fetched@.take(i as int));
        assert(fetched@.take(i + 1).last() == *f);
        match &f.body {
            None => {},
            Some(body) => {
                match parsed_mail_to_new_mail(account_email, f.sequence, body.as_slice(), now) {
                    None => {},
                    Some(m) => {
                        proof {
                            let c = converted(account_email@, fetched@.take(i as int), now);
                            assert(c.push(m@).drop_last() =~= c);
                        }
                        insert_newest_exec(&mut out, m);
                    },
                }
            },
        }
        i = i + 1;
    }
    assert(fetched@.take(i as int) =~= fetched@);
    out
}

/// The first sequence number fetched from a mailbox of `exists` messages
/// when at most `limit` messages are wanted: the limit is kept between 1
/// and 50, and the window ends at the last message.
pub open spec fn fetch_start(exists: u32, limit: usize) -> nat {
    let wanted: nat = if limit < 1 {
        1
    } else if limit > 50 {
        50
    } else {
        limit as nat
    };
    if exists >= wanted {
        (exists - wanted + 1) as nat
    } else {
        1
    }
}

/// The IMAP sequence set `<start>:*` that fetches the latest messages, or
/// `None` for an empty mailbox, which is not fetched at all.
pub fn fetch_sequence(exists: u32, limit: usize) -> (r: Option<String>)
    ensures
        exists == 0 ==> r is None,
        exists != 0 ==> (r matches Some(s) && s@ == text::decimal(fetch_start(exists, limit)) + ":*"@),
{
    if exists == 0 {
        return None;
    }
    let wanted: u32 = if limit < 1 {
        1
    } else if limit > 50 {
        50
    } else {
        limit as u32
    };
    let start = if exists >= wanted {
        exists - wanted + 1
    } else {
        1
    };
    let mut digits: Vec<char> = Vec::new();
    text::push_decimal(&mut digits, start);
    assert(digits@ =~= text::decimal(start as nat));
    assert(digits@.subrange(0, digits@.len() as int) =~= digits@);
    let mut s = text::string_of_span(&digits, 0, digits.len());
    s.append(":*");
    Some(s)
}

} // verus!
