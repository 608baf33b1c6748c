//! API-key checks on request headers.

use vstd::prelude::*;
use crate::text;

verus! {

/// Why a request was refused: no key at all, or a key that does not match.
#[derive(Debug, Clone, Copy, PartialEq, Eq, Structural)]
pub enum AuthError {
    Missing,
    Invalid,
}

/// `Bearer ` with a capital B.
pub open spec fn bearer_upper() -> Seq<char> {
    seq!['B', 'e', 'a', 'r', 'e', 'r', ' ']
}

/// `bearer ` in lower case.
pub open spec fn bearer_lower() -> Seq<char> {
    seq!['b', 'e', 'a', 'r', 'e', 'r', ' ']
}

/// The rest of `s` after a `Bearer ` or `bearer ` prefix, if it has one.
pub open spec fn strip_bearer(s: Seq<char>) -> Option<Seq<char>> {
    if s.len() >= 7 && s.take(7) == bearer_upper() {
        Some(s.skip(7))
    } else if s.len() >= 7 && s.take(7) == bearer_lower() {
        Some(s.skip(7))
    } else {
        None
    }
}

/// The key that a non-blank header presents: the trimmed value, without an
/// optional bearer prefix, trimmed again.
pub open spec fn presented_key(raw: Seq<char>) -> Seq<char> {
    match strip_bearer(raw) {
        Some(rest) => text::trim(rest),
        None => text::trim(raw),
    }
}

/// The verdict on a header value against the configured key: a missing or
/// blank header is `Missing`; otherwise the request passes exactly when the
/// configured key is not blank and equals the presented key, both trimmed.
pub open spec fn auth_outcome(header: Option<Seq<char>>, api_key: Seq<char>) -> Result<(), AuthError> {
    match header {
        None => Err(AuthError::Missing),
        Some(h) => if text::trim(h).len() == 0 {
            Err(AuthError::Missing)
        } else if text::trim(api_key).len() > 0 && presented_key(text::trim(h)) == text::trim(
            api_key,
        ) {
            Ok(())
        } else {
            Err(AuthError::Invalid)
        },
    }
}

/// Whether the span `lo..hi` of `v` starts with `Bearer ` (`upper`) or
/// `bearer `.
fn has_bearer_prefix(v: &Vec<char>, lo: usize, hi: usize, upper: bool) -> (b: bool)
    requires
        lo <= hi <= v@.len(),
    ensures
        b == (hi - lo >= 7 && v@.subrange(lo as int, hi as int).take(7) == (if upper {
            bearer_upper()
        } else {
            bearer_lower()
        })),
{
    let ghost p = if upper {
        bearer_upper()
    } else {
        bearer_lower()
    };
    if hi - lo < 7 {
        return false;
    }
    let first = if upper {
        'B'
    } else {
        'b'
    };
    let ok = v[lo] == first && v[lo + 1] == 'e' && v[lo + 2] == 'a' && v[lo + 3] == 'r' && v[lo
        + 4] == 'e' && v[lo + 5] == 'r' && v[lo + 6] == ' ';
    let ghost t = v@.subrange(lo as int, hi as int).take(7);
    if ok {
        assert(t =~= p);
    } else {
        assert(t != p) by {
            if t == p {
                assert(t[0] == p[0] && t[1] == p[1] && t[2] == p[2] && t[3] == p[3] && t[4] == p[4]
                    && t[5] == p[5] && t[6] == p[6]);
            }
        }
    }
    ok
}

/// Strips an optional bearer prefix from the span `lo..hi`.
fn strip_bearer_span(v: &Vec<char>, lo: usize, hi: usize) -> (r: (bool, usize))
    requires
        lo <= hi <= v@.len(),
    ensures
        lo <= r.1 <= hi,
        r.0 == strip_bearer(v@.subrange(lo as int, hi as int)) is Some,
        r.0 ==> strip_bearer(v@.subrange(lo as int, hi as int)) == Some(
            v@.subrange(r.1 as int, hi as int),
        ),
        !r.0 ==> r.1 == lo,
{
    let ghost s = v@.subrange(lo as int, hi as int);
    if has_bearer_prefix(v, lo, hi, true) || has_bearer_prefix(v, lo, hi, false) {
        assert(s.skip(7) =~= v@.subrange(lo + 7, hi as int));
        (true, lo + 7)
    } else {
        (false, lo)
    }
}

/// Checks a header value (from `Authorization` or `X-Api-Key`) against the
/// configured API key.
pub fn authorize_header(header: Option<&str>, api_key: &str) -> (r: Result<(), AuthError>)
    ensures
        r == auth_outcome(
            match header {
                Some(h) => Some(h@),
                None => None,
            },
            api_key@,
        ),
{
    let k = text::chars_of(api_key);
    let (k0, k1) = text::trim_span(&k, 0, k.len(), false);
    assert(k@.subrange(0, k@.len() as int) =~= k@);
    let raw = match header {
        None => return Err(AuthError::Missing),
        Some(h) => h,
    };
    let w = text::chars_of(raw);
    assert(w@.subrange(0, w@.len() as int) =~= w@);
    let (a, b) = text::trim_span(&w, 0, w.len(), false);
    if a == b {
        return Err(AuthError::Missing);
    }
    let (stripped, c) = strip_bearer_span(&w, a, b);
    let (p0, p1) = text::trim_span(&w, c, b, false);
    assert(w@.subrange(a as int, b as int) == text::trim(w@));
    assert(k@.subrange(k0 as int, k1 as int) == text::trim(k@));
    if k0 < k1 && text::spans_equal(&w, p0, p1, &k, k0, k1) {
        Ok(())
    } else {
        Err(AuthError::Invalid)
    }
}

/// Law: a blank configured key never grants access, whatever the header.
pub proof fn blank_key_never_authorizes(header: Option<Seq<char>>, api_key: Seq<char>)
    requires
        text::trim(api_key).len() == 0,
    ensures
        auth_outcome(header, api_key) != Ok::<(), AuthError>(()),
{
}

/// Law: the configured key itself, sent as the header value (the
/// `X-Api-Key` style), is accepted, unless once trimmed it begins with a
/// bearer prefix.
pub proof fn configured_key_is_accepted(api_key: Seq<char>)
    requires
        text::trim(api_key).len() > 0,
        strip_bearer(text::trim(api_key)) is None,
    ensures
        auth_outcome(Some(api_key), api_key) == Ok::<(), AuthError>(()),
{
    text::lemma_trim_idempotent(api_key);
}

/// The token of an `Authorization` header: the trimmed value must start with
/// a bearer prefix, and the trimmed rest must not be blank.
pub open spec fn bearer_token_of(header: Seq<char>) -> Option<Seq<char>> {
    match strip_bearer(text::trim(header)) {
        Some(rest) => if text::trim(rest).len() > 0 {
            Some(text::trim(rest))
        } else {
            None
        },
        None => None,
    }
}

/// Law: a request whose bearer token is the configured key (both trimmed)
/// passes the key check with that header.
pub proof fn bearer_token_passes_key_check(header: Seq<char>, api_key: Seq<char>)
    requires
        bearer_token_of(header) == Some(text::trim(api_key)),
    ensures
        auth_outcome(Some(header), api_key) == Ok::<(), AuthError>(()),
{
}

/// Reads the bearer token of an `Authorization` header value.
pub fn bearer_token(header: Option<&str>) -> (r: Option<String>)
    ensures
        match header {
            None => r is None,
            Some(h) => match bearer_token_of(h@) {
                None => r is None,
                Some(t) => r matches Some(s) && s@ == t,
            },
        },
{
    let raw = match header {
        None => return None,
        Some(h) => h,
    };
    let w = text::chars_of(raw);
    assert(w@.subrange(0, w@.len() as int) =~= w@);
    let (a, b) = text::trim_span(&w, 0, w.len(), false);
    let (stripped, c) = strip_bearer_span(&w, a, b);
    if !stripped {
        return None;
    }
    let (p0, p1) = text::trim_span(&w, c, b, false);
    if p0 == p1 {
        None
    } else {
        Some(text::string_of_span(&w, p0, p1))
    }
}

} // verus!
