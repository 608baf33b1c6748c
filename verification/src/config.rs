//! How settings read from the environment become values.

use vstd::prelude::*;
use crate::text;

verus! {

/// A numeric setting: the variable's value when it is set and parses as an
/// `i64`, else the default.
pub fn env_i64(raw: Option<&str>, default: i64) -> (r: i64)
    ensures
        r == match raw {
            Some(t) => match text::parse_i64(t@) {
                Some(x) => x,
                None => default,
            },
            None => default,
        },
{
    match raw {
        None => default,
        Some(t) => match text::parse_i64_text(t) {
            Some(x) => x,
            None => default,
        },
    }
}

/// A count setting: the variable's value when it is set and parses as a
/// `usize`, else the default.
pub fn env_usize(raw: Option<&str>, default: usize) -> (r: usize)
    ensures
        r == match raw {
            Some(t) => match text::parse_usize(t@) {
                Some(x) => x,
                None => default,
            },
            None => default,
        },
{
    match raw {
        None => default,
        Some(t) => match text::parse_usize_text(t) {
            Some(x) => x,
            None => default,
        },
    }
}

/// The number of concurrent IMAP refreshes: the configured number, but at
/// least one.
pub fn imap_worker_permits(max_imap_workers: usize) -> (r: usize)
    ensures
        r == if max_imap_workers < 1 {
            1
        } else {
            max_imap_workers
        },
{
    if max_imap_workers < 1 {
        1
    } else {
        max_imap_workers
    }
}

} // verus!
