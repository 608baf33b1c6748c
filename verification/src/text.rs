//! Character-level text handling shared by the parsers: trimming, splitting
//! on a delimiter, line breaking and small searches, all over `Seq<char>`.

use vstd::prelude::*;

verus! {

/// The Unicode `White_Space` property (PropList.txt), which
/// `char::is_whitespace` reports: tab through carriage return, space, next
/// line, no-break space, ogham space mark, the spaces U+2000..U+200A, line
/// and paragraph separators, narrow no-break space, medium mathematical
/// space and ideographic space.
pub open spec fn white_space(c: char) -> bool {
    let u = c as u32;
    ||| 0x09 <= u <= 0x0d
    ||| u == 0x20
    ||| u == 0x85
    ||| u == 0xa0
    ||| u == 0x1680
    ||| 0x2000 <= u <= 0x200a
    ||| u == 0x2028
    ||| u == 0x2029
    ||| u == 0x202f
    ||| u == 0x205f
    ||| u == 0x3000
}

/// Whether `c` has the Unicode `White_Space` property, as
/// `char::is_whitespace` answers.
pub(crate) fn is_whitespace(c: char) -> (b: bool)
    ensures
        b == white_space(c),
{
    let u = c as u32;
    (0x09 <= u && u <= 0x0d) || u == 0x20 || u == 0x85 || u == 0xa0 || u == 0x1680 || (0x2000 <= u
        && u <= 0x200a) || u == 0x2028 || u == 0x2029 || u == 0x202f || u == 0x205f || u == 0x3000
}

/// Collects the characters of a string slice (`str::chars`).
pub(crate) fn chars_of(s: &str) -> (v: Vec<char>)
    ensures
        v@ == s@,
{
    broadcast use vstd::string::group_string_axioms;

    let mut v: Vec<char> = Vec::new();
    for c in it: s.chars()
        invariant
            it.seq() == s@,
            v@ == it.seq().take(it.index() as int),
    {
        v.push(c);
    }
    v
}

/// Builds a `String` from a run of characters of a vector.
#[verifier::external_body]
pub(crate) fn string_of_span(v: &Vec<char>, lo: usize, hi: usize) -> (s: String)
    requires
        lo <= hi <= v@.len(),
    ensures
        s@ == v@.subrange(lo as int, hi as int),
{
    v[lo..hi].iter().collect()
}

/// What `str::to_lowercase` returns for a text (Unicode lowercase mapping).
pub uninterp spec fn lowercase(s: Seq<char>) -> Seq<char>;

/// Calls `str::to_lowercase`; its result is the name `lowercase`.
#[verifier::external_body]
pub(crate) fn to_lowercase(s: &str) -> (r: String)
    ensures
        r@ == lowercase(s@),
{
    s.to_lowercase()
}

/// Whether `c` is removed by the trim selected by `quotes`: double quotes
/// for `trim_matches('"')`, white space for `trim`.
pub open spec fn strips(c: char, quotes: bool) -> bool {
    if quotes {
        c == '"'
    } else {
        white_space(c)
    }
}

/// `s` without its leading run of stripped characters.
pub open spec fn trim_start_by(s: Seq<char>, quotes: bool) -> Seq<char>
    decreases s.len(),
{
    if s.len() > 0 && strips(s[0], quotes) {
        trim_start_by(s.drop_first(), quotes)
    } else {
        s
    }
}

/// `s` without its trailing run of stripped characters.
pub open spec fn trim_end_by(s: Seq<char>, quotes: bool) -> Seq<char>
    decreases s.len(),
{
    if s.len() > 0 && strips(s.last(), quotes) {
        trim_end_by(s.drop_last(), quotes)
    } else {
        s
    }
}

/// `str::trim`: leading and trailing white space removed.
pub open spec fn trim(s: Seq<char>) -> Seq<char> {
    trim_end_by(trim_start_by(s, false), false)
}

/// `str::trim_matches('"')`: leading and trailing double quotes removed.
pub open spec fn trim_quotes(s: Seq<char>) -> Seq<char> {
    trim_end_by(trim_start_by(s, true), true)
}

/// `str::split` by one delimiter character: the pieces between
/// delimiters, always at least one.
pub open spec fn split(s: Seq<char>, d: char) -> Seq<Seq<char>>
    decreases s.len(),
{
    if s.len() == 0 {
        seq![Seq::<char>::empty()]
    } else {
        let rest = split(s.drop_last(), d);
        if s.last() == d {
            rest.push(Seq::<char>::empty())
        } else {
            rest.update(rest.len() - 1, rest.last().push(s.last()))
        }
    }
}

/// A line without the carriage return of a `\r\n` line ending.
pub open spec fn strip_cr(s: Seq<char>) -> Seq<char> {
    if s.len() > 0 && s.last() == '\r' {
        s.drop_last()
    } else {
        s
    }
}

/// `str::lines`: the text split at `\n`, each line that ended in `\n`
/// without a trailing `\r`, and no line after a final line ending.
pub open spec fn lines(s: Seq<char>) -> Seq<Seq<char>> {
    let p = split(s, '\n');
    let body = Seq::new((p.len() - 1) as nat, |i: int| strip_cr(p[i]));
    if p.last().len() == 0 {
        body
    } else {
        body.push(p.last())
    }
}

/// The texts that a list of spans selects from `v`.
pub open spec fn span_texts(v: Seq<char>, spans: Seq<(usize, usize)>) -> Seq<Seq<char>> {
    Seq::new(spans.len(), |i: int| v.subrange(spans[i].0 as int, spans[i].1 as int))
}

/// Index of the first `c` in `s`, or `-1` where there is none.
pub open spec fn first_index(s: Seq<char>, c: char) -> int {
    if s.contains(c) {
        choose|i: int| 0 <= i < s.len() && s[i] == c && forall|j: int| 0 <= j < i ==> s[j] != c
    } else {
        -1
    }
}

proof fn lemma_trim_start_result(s: Seq<char>, quotes: bool)
    ensures
        trim_start_by(s, quotes).len() > 0 ==> !strips(trim_start_by(s, quotes)[0], quotes),
        trim_start_by(s, quotes).len() <= s.len(),
    decreases s.len(),
{
    if s.len() > 0 && strips(s[0], quotes) {
        lemma_trim_start_result(s.drop_first(), quotes);
    }
}

proof fn lemma_trim_end_keeps_start(s: Seq<char>, quotes: bool)
    requires
        s.len() > 0 ==> !strips(s[0], quotes),
    ensures
        trim_end_by(s, quotes).len() > 0 ==> !strips(trim_end_by(s, quotes)[0], quotes),
        trim_end_by(s, quotes).len() > 0 ==> !strips(trim_end_by(s, quotes).last(), quotes),
        trim_end_by(s, quotes).len() > 0 ==> trim_end_by(s, quotes)[0] == s[0],
    decreases s.len(),
{
    if s.len() > 0 && strips(s.last(), quotes) {
        lemma_trim_end_keeps_start(s.drop_last(), quotes);
    }
}

/// Trimming twice is trimming once.
pub proof fn lemma_trim_idempotent(s: Seq<char>)
    ensures
        trim(trim(s)) == trim(s),
{
    let t = trim(s);
    lemma_trim_start_result(s, false);
    lemma_trim_end_keeps_start(trim_start_by(s, false), false);
    if t.len() > 0 {
        assert(trim_start_by(t, false) == t);
        assert(trim_end_by(t, false) == t);
    } else {
        assert(trim_start_by(t, false) == t);
        assert(trim_end_by(t, false) == t);
    }
}

/// Splitting a text that ends in the delimiter, followed by more text: the
/// pieces of the first part (without its final empty piece) followed by the
/// pieces of the second.
pub proof fn lemma_split_concat(a: Seq<char>, b: Seq<char>, d: char)
    requires
        a.len() == 0 || a.last() == d,
    ensures
        split(a + b, d) == split(a, d).drop_last() + split(b, d),
        split(a, d).len() >= 1,
        split(a, d).last() == Seq::<char>::empty(),
    decreases b.len(),
{
    lemma_split_len(a, d);
    if a.len() > 0 {
        lemma_split_len(a.drop_last(), d);
    }
    if b.len() == 0 {
        assert(a + b =~= a);
        assert(split(a, d).drop_last() + split(b, d) =~= split(a, d));
    } else {
        let b1 = b.drop_last();
        lemma_split_concat(a, b1, d);
        lemma_split_len(b1, d);
        assert((a + b).drop_last() =~= a + b1);
        assert((a + b).last() == b.last());
        let front = split(a, d).drop_last();
        if b.last() == d {
            assert(split(a + b, d) =~= front + split(b, d));
        } else {
            let sb1 = split(b1, d);
            assert((front + sb1).last() == sb1.last());
            assert((front + sb1).update((front + sb1).len() - 1, sb1.last().push(b.last())) =~= front
                + sb1.update(sb1.len() - 1, sb1.last().push(b.last())));
        }
    }
}

/// The lines of a text that ends in a line break, followed by more text,
/// are the lines of each part in turn.
pub proof fn lemma_lines_concat(a: Seq<char>, b: Seq<char>)
    requires
        a.len() == 0 || a.last() == '\n',
    ensures
        lines(a + b) == lines(a) + lines(b),
{
    lemma_split_concat(a, b, '\n');
    lemma_split_len(b, '\n');
    let pa = split(a, '\n');
    let pb = split(b, '\n');
    let p = split(a + b, '\n');
    assert(p.last() == pb.last());
    let na = pa.len() - 1;
    assert(lines(a) =~= Seq::new(na as nat, |i: int| strip_cr(pa[i])));
    let body = Seq::new((p.len() - 1) as nat, |i: int| strip_cr(p[i]));
    let body_b = Seq::new((pb.len() - 1) as nat, |i: int| strip_cr(pb[i]));
    assert(body =~= lines(a) + body_b) by {
        assert forall|i: int| 0 <= i < body.len() implies body[i] == (lines(a) + body_b)[i] by {
            if i < na {
                assert(p[i] == pa[i]);
            } else {
                assert(p[i] == pb[i - na]);
            }
        }
    }
    if pb.last().len() == 0 {
        assert(lines(a + b) =~= lines(a) + lines(b));
    } else {
        assert(lines(a + b) =~= lines(a) + lines(b));
    }
}

/// A text without the delimiter is one piece.
pub proof fn lemma_split_single(x: Seq<char>, d: char)
    requires
        !x.contains(d),
    ensures
        split(x, d) == seq![x],
    decreases x.len(),
{
    if x.len() > 0 {
        let y = x.drop_last();
        assert(!y.contains(d)) by {
            if y.contains(d) {
                let k = choose|k: int| 0 <= k < y.len() && y[k] == d;
                assert(x[k] == d);
            }
        }
        lemma_split_single(y, d);
        assert(x.last() == x[x.len() - 1]);
        assert(y.push(x.last()) =~= x);
    } else {
        assert(x =~= Seq::<char>::empty());
    }
}

/// A character absent from two texts is absent from their concatenation.
pub proof fn lemma_concat_lacks(x: Seq<char>, y: Seq<char>, c: char)
    requires
        !x.contains(c),
        !y.contains(c),
    ensures
        !(x + y).contains(c),
{
    if (x + y).contains(c) {
        let k = choose|k: int| 0 <= k < (x + y).len() && (x + y)[k] == c;
        if k < x.len() {
            assert(x[k] == c);
        } else {
            assert(y[k - x.len()] == c);
        }
    }
}

/// A run of digits holds no character other than a digit.
pub proof fn lemma_digits_lack(s: Seq<char>, c: char)
    requires
        all_digits(s),
        !('0' <= c <= '9'),
    ensures
        !s.contains(c),
{
    if s.contains(c) {
        let k = choose|k: int| 0 <= k < s.len() && s[k] == c;
        assert('0' <= s[k] <= '9');
    }
}

/// A text whose ends are not stripped is its own trim.
pub proof fn lemma_trim_keeps(s: Seq<char>, quotes: bool)
    requires
        s.len() > 0 ==> !strips(s[0], quotes) && !strips(s.last(), quotes),
    ensures
        trim_end_by(trim_start_by(s, quotes), quotes) == s,
{
}

/// A text that is its own trim has no white space at its ends.
pub proof fn lemma_trimmed_ends(s: Seq<char>)
    requires
        trim(s) == s,
        s.len() > 0,
    ensures
        !white_space(s[0]),
        !white_space(s.last()),
{
    lemma_trim_start_result(s, false);
    lemma_trim_end_keeps_start(trim_start_by(s, false), false);
}

/// Decimal digits are digits, at least one, and read back as the number.
pub proof fn lemma_decimal(n: nat)
    ensures
        decimal(n).len() >= 1,
        all_digits(decimal(n)),
        digits_value(decimal(n)) == n,
    decreases n,
{
    lemma_digit_char(n % 10);
    if n >= 10 {
        lemma_decimal(n / 10);
        let d = decimal(n);
        assert(d.drop_last() =~= decimal(n / 10));
        assert(d.last() == digit_char(n % 10));
        assert forall|i: int| 0 <= i < d.len() implies '0' <= #[trigger] d[i] <= '9' by {
            if i < d.len() - 1 {
                assert(d[i] == decimal(n / 10)[i]);
            }
        }
        assert(n == (n / 10) * 10 + n % 10) by (nonlinear_arith);
        assert(digits_value(d) == digits_value(d.drop_last()) * 10 + (n % 10));
    } else {
        let d = decimal(n);
        assert(d.drop_last() =~= Seq::<char>::empty());
        assert(n % 10 == n);
        assert(d.last() == digit_char(n));
        assert(digits_value(d) == digits_value(d.drop_last()) * 10 + n);
    }
}

proof fn lemma_digit_char(k: nat)
    requires
        k < 10,
    ensures
        '0' <= digit_char(k) <= '9',
        (digit_char(k) as nat) - ('0' as nat) == k,
{
}

pub proof fn lemma_split_len(s: Seq<char>, d: char)
    ensures
        split(s, d).len() >= 1,
    decreases s.len(),
{
    if s.len() > 0 {
        lemma_split_len(s.drop_last(), d);
    }
}

fn strips_exec(c: char, quotes: bool) -> (b: bool)
    ensures
        b == strips(c, quotes),
{
    if quotes {
        c == '"'
    } else {
        is_whitespace(c)
    }
}

/// Narrows the span `lo..hi` of `v` to its trimmed part.
pub fn trim_span(v: &Vec<char>, lo: usize, hi: usize, quotes: bool) -> (r: (usize, usize))
    requires
        lo <= hi <= v@.len(),
    ensures
        lo <= r.0 <= r.1 <= hi,
        v@.subrange(r.0 as int, r.1 as int) == trim_end_by(
            trim_start_by(v@.subrange(lo as int, hi as int), quotes),
            quotes,
        ),
{
    let mut a = lo;
    while a < hi && strips_exec(v[a], quotes)
        invariant
            lo <= a <= hi <= v@.len(),
            trim_start_by(v@.subrange(lo as int, hi as int), quotes) == trim_start_by(
                v@.subrange(a as int, hi as int),
                quotes,
            ),
        decreases hi - a,
    {
        assert(v@.subrange(a as int, hi as int).drop_first() =~= v@.subrange(a + 1, hi as int));
        a = a + 1;
    }
    assert(trim_start_by(v@.subrange(a as int, hi as int), quotes) == v@.subrange(
        a as int,
        hi as int,
    ));
    let mut b = hi;
    while b > a && strips_exec(v[b - 1], quotes)
        invariant
            lo <= a <= b <= hi <= v@.len(),
            trim_end_by(v@.subrange(a as int, hi as int), quotes) == trim_end_by(
                v@.subrange(a as int, b as int),
                quotes,
            ),
        decreases b - a,
    {
        assert(v@.subrange(a as int, b as int).drop_last() =~= v@.subrange(a as int, b - 1));
        b = b - 1;
    }
    (a, b)
}


/// Splits the span `lo..hi` of `v` at every `d`; the spans select exactly
/// the pieces of `split`.
pub fn split_spans(v: &Vec<char>, lo: usize, hi: usize, d: char) -> (r: Vec<(usize, usize)>)
    requires
        lo <= hi <= v@.len(),
    ensures
        span_texts(v@, r@) == split(v@.subrange(lo as int, hi as int), d),
        forall|k: int| 0 <= k < r@.len() ==> lo <= #[trigger] r@[k].0 <= r@[k].1 <= hi,
{
    let mut out: Vec<(usize, usize)> = Vec::new();
    let mut start = lo;
    let mut i = lo;
    assert(v@.subrange(lo as int, lo as int) =~= Seq::<char>::empty());
    assert(span_texts(v@, out@.push((start, i))) =~= split(v@.subrange(lo as int, i as int), d));
    while i < hi
        invariant
            lo <= start <= i <= hi <= v@.len(),
            span_texts(v@, out@.push((start, i))) == split(v@.subrange(lo as int, i as int), d),
            forall|k: int| 0 <= k < out@.len() ==> lo <= #[trigger] out@[k].0 <= out@[k].1 <= start,
        decreases hi - i,
    {
        let ghost prev = split(v@.subrange(lo as int, i as int), d);
        proof {
            let s = v@.subrange(lo as int, i + 1);
            assert(s.drop_last() =~= v@.subrange(lo as int, i as int));
            assert(s.last() == v@[i as int]);
            lemma_split_len(v@.subrange(lo as int, i as int), d);
        }
        if v[i] == d {
            let ghost old_out = out@;
            out.push((start, i));
            assert(out@ == old_out.push((start, i)));
            start = i + 1;
            assert(v@.subrange(start as int, start as int) =~= Seq::<char>::empty());
            assert(span_texts(v@, out@.push((start, (i + 1) as usize))) =~= prev.push(
                Seq::<char>::empty(),
            ));
        } else {
            assert(v@.subrange(start as int, i + 1) =~= v@.subrange(start as int, i as int).push(
                v@[i as int],
            ));
            assert(span_texts(v@, out@.push((start, (i + 1) as usize))) =~= prev.update(
                prev.len() - 1,
                prev.last().push(v@[i as int]),
            ));
        }
        i = i + 1;
    }
    out.push((start, hi));
    out
}

/// Whether the span `lo..hi` of `v` holds `c`.
pub fn span_contains(v: &Vec<char>, lo: usize, hi: usize, c: char) -> (b: bool)
    requires
        lo <= hi <= v@.len(),
    ensures
        b == v@.subrange(lo as int, hi as int).contains(c),
{
    let mut i = lo;
    while i < hi
        invariant
            lo <= i <= hi <= v@.len(),
            forall|j: int| lo <= j < i ==> v@[j] != c,
        decreases hi - i,
    {
        if v[i] == c {
            assert(v@.subrange(lo as int, hi as int)[i - lo] == c);
            return true;
        }
        i = i + 1;
    }
    assert(!v@.subrange(lo as int, hi as int).contains(c)) by {
        assert forall|j: int| 0 <= j < hi - lo implies v@.subrange(lo as int, hi as int)[j]
            != c by {
            assert(v@[lo + j] != c);
        }
    }
    false
}

/// Position of the first `c` in `v`, if any.
pub fn find_first(v: &Vec<char>, c: char) -> (r: Option<usize>)
    ensures
        match r {
            Some(i) => i < v@.len() && first_index(v@, c) == i,
            None => first_index(v@, c) == -1 && !v@.contains(c),
        },
{
    let mut i: usize = 0;
    while i < v.len()
        invariant
            i <= v@.len(),
            forall|j: int| 0 <= j < i ==> v@[j] != c,
        decreases v@.len() - i,
    {
        if v[i] == c {
            proof {
                let w = choose|k: int|
                    0 <= k < v@.len() && v@[k] == c && forall|j: int| 0 <= j < k ==> v@[j] != c;
                assert(0 <= i < v@.len() && v@[i as int] == c && forall|j: int|
                    0 <= j < i ==> v@[j] != c);
                assert(v@.contains(c));
                if w < i {
                } else if w > i {
                    assert(v@[i as int] != c);
                }
            }
            return Some(i);
        }
        i = i + 1;
    }
    None
}

/// Whether every character of `s` is an ASCII digit.
pub open spec fn all_digits(s: Seq<char>) -> bool {
    forall|i: int| 0 <= i < s.len() ==> '0' <= #[trigger] s[i] <= '9'
}

/// The value of a run of ASCII decimal digits.
pub open spec fn digits_value(s: Seq<char>) -> nat
    decreases s.len(),
{
    if s.len() == 0 {
        0
    } else {
        digits_value(s.drop_last()) * 10 + ((s.last() as nat) - ('0' as nat)) as nat
    }
}

/// The digits of an unsigned number: `s` without one leading `+`.
pub open spec fn unsigned_digits(s: Seq<char>) -> Seq<char> {
    if s.len() > 0 && s[0] == '+' {
        s.drop_first()
    } else {
        s
    }
}

/// `u16::from_str`: an optional `+`, then one or more ASCII digits whose
/// value fits in 16 bits.
pub open spec fn parse_u16(s: Seq<char>) -> Option<u16> {
    let digits = unsigned_digits(s);
    if digits.len() == 0 || !all_digits(digits) || digits_value(digits) > 65535 {
        None
    } else {
        Some(digits_value(digits) as u16)
    }
}

/// Parses the span `lo..hi` of `v` as a `u16`.
pub fn parse_u16_span(v: &Vec<char>, lo: usize, hi: usize) -> (r: Option<u16>)
    requires
        lo <= hi <= v@.len(),
    ensures
        r == parse_u16(v@.subrange(lo as int, hi as int)),
{
    let ghost s = v@.subrange(lo as int, hi as int);
    let mut a = lo;
    if a < hi && v[a] == '+' {
        a = a + 1;
    }
    let ghost digits = v@.subrange(a as int, hi as int);
    assert(digits =~= unsigned_digits(s));
    if a == hi {
        return None;
    }
    let mut acc: u32 = 0;
    let mut i = a;
    while i < hi
        invariant
            lo <= a <= i <= hi <= v@.len(),
            digits == v@.subrange(a as int, hi as int),
            digits == unsigned_digits(v@.subrange(lo as int, hi as int)),
            all_digits(v@.subrange(a as int, i as int)),
            acc as nat == if digits_value(v@.subrange(a as int, i as int)) > 65536 {
                65536
            } else {
                digits_value(v@.subrange(a as int, i as int))
            },
        decreases hi - i,
    {
        let c = v[i];
        if !('0' <= c && c <= '9') {
            assert(digits[i - a] == c);
            assert(!all_digits(digits));
            return None;
        }
        let ghost pre = v@.subrange(a as int, i as int);
        let ghost post = v@.subrange(a as int, i + 1);
        assert(post.drop_last() =~= pre);
        assert(post.last() == c);
        let d = (c as u32) - ('0' as u32);
        if acc >= 65536 {
            acc = 65536;
        } else {
            acc = acc * 10 + d;
            if acc > 65536 {
                acc = 65536;
            }
        }
        i = i + 1;
    }
    assert(v@.subrange(a as int, i as int) =~= digits);
    if acc > 65535 {
        None
    } else {
        Some(acc as u16)
    }
}

/// Whether two spans hold the same text.
pub fn spans_equal(x: &Vec<char>, x0: usize, x1: usize, y: &Vec<char>, y0: usize, y1: usize) -> (b:
    bool)
    requires
        x0 <= x1 <= x@.len(),
        y0 <= y1 <= y@.len(),
    ensures
        b == (x@.subrange(x0 as int, x1 as int) == y@.subrange(y0 as int, y1 as int)),
{
    if x1 - x0 != y1 - y0 {
        assert(x@.subrange(x0 as int, x1 as int).len() != y@.subrange(y0 as int, y1 as int).len());
        return false;
    }
    let mut i: usize = 0;
    while i < x1 - x0
        invariant
            x0 <= x1 <= x@.len(),
            y0 <= y1 <= y@.len(),
            x1 - x0 == y1 - y0,
            i <= x1 - x0,
            x@.subrange(x0 as int, x0 + i) == y@.subrange(y0 as int, y0 + i),
        decreases x1 - x0 - i,
    {
        if x[x0 + i] != y[y0 + i] {
            assert(x@.subrange(x0 as int, x1 as int)[i as int] != y@.subrange(y0 as int, y1 as int)[i as int]);
            return false;
        }
        assert(x@.subrange(x0 as int, x0 + i + 1) =~= x@.subrange(x0 as int, x0 + i).push(x@[x0 + i]));
        assert(y@.subrange(y0 as int, y0 + i + 1) =~= y@.subrange(y0 as int, y0 + i).push(y@[y0 + i]));
        i = i + 1;
    }
    assert(x@.subrange(x0 as int, x1 as int) =~= y@.subrange(y0 as int, y1 as int));
    true
}

/// Whether two texts are equal, character by character.
pub fn text_eq(a: &str, b: &str) -> (r: bool)
    ensures
        r == (a@ == b@),
{
    let x = chars_of(a);
    let y = chars_of(b);
    assert(x@.subrange(0, x@.len() as int) =~= x@);
    assert(y@.subrange(0, y@.len() as int) =~= y@);
    spans_equal(&x, 0, x.len(), &y, 0, y.len())
}

/// Strict lexicographic order of texts by code point, a proper prefix
/// coming first. It agrees with byte order of the UTF-8 encodings, which is
/// how SQLite compares text.
pub open spec fn text_before(a: Seq<char>, b: Seq<char>) -> bool
    decreases a.len(),
{
    if a.len() == 0 {
        b.len() > 0
    } else if b.len() == 0 {
        false
    } else if (a[0] as int) < (b[0] as int) {
        true
    } else if (a[0] as int) > (b[0] as int) {
        false
    } else {
        text_before(a.drop_first(), b.drop_first())
    }
}

pub proof fn lemma_text_before_irreflexive(a: Seq<char>)
    ensures
        !text_before(a, a),
    decreases a.len(),
{
    if a.len() > 0 {
        lemma_text_before_irreflexive(a.drop_first());
    }
}

pub proof fn lemma_text_before_transitive(a: Seq<char>, b: Seq<char>, c: Seq<char>)
    requires
        text_before(a, b),
        text_before(b, c),
    ensures
        text_before(a, c),
    decreases a.len(),
{
    if a.len() > 0 && b.len() > 0 && c.len() > 0 && a[0] == b[0] && b[0] == c[0] {
        lemma_text_before_transitive(a.drop_first(), b.drop_first(), c.drop_first());
    }
}

pub proof fn lemma_text_before_total(a: Seq<char>, b: Seq<char>)
    ensures
        a == b || text_before(a, b) || text_before(b, a),
    decreases a.len(),
{
    if a.len() > 0 && b.len() > 0 {
        if a[0] == b[0] {
            lemma_text_before_total(a.drop_first(), b.drop_first());
            if a.drop_first() == b.drop_first() {
                assert(a =~= seq![a[0]] + a.drop_first());
                assert(b =~= seq![b[0]] + b.drop_first());
            }
        } else {
            assert((a[0] as int) != (b[0] as int));
        }
    } else if a.len() == 0 && b.len() == 0 {
        assert(a =~= b);
    }
}

/// Decides `text_before` for two texts.
pub fn text_before_exec(a: &str, b: &str) -> (r: bool)
    ensures
        r == text_before(a@, b@),
{
    let x = chars_of(a);
    let y = chars_of(b);
    let mut i: usize = 0;
    assert(x@.skip(0) =~= x@);
    assert(y@.skip(0) =~= y@);
    while i < x.len() && i < y.len()
        invariant
            i <= x@.len(),
            i <= y@.len(),
            x@ == a@,
            y@ == b@,
            text_before(a@, b@) == text_before(x@.skip(i as int), y@.skip(i as int)),
        decreases x@.len() - i,
    {
        let ghost xs = x@.skip(i as int);
        let ghost ys = y@.skip(i as int);
        assert(xs[0] == x@[i as int]);
        assert(ys[0] == y@[i as int]);
        let cx = x[i];
        let cy = y[i];
        if cx < cy {
            return true;
        }
        if cx > cy {
            return false;
        }
        assert(xs.drop_first() =~= x@.skip(i + 1));
        assert(ys.drop_first() =~= y@.skip(i + 1));
        i = i + 1;
    }
    i < y.len()
}


/// `char::to_ascii_lowercase`: `A`..`Z` become `a`..`z`, every other
/// character stays.
pub open spec fn ascii_lower_char(c: char) -> char {
    if 'A' <= c && c <= 'Z' {
        ((c as u32) + 32) as char
    } else {
        c
    }
}

/// `str::to_ascii_lowercase`.
pub open spec fn ascii_lower(s: Seq<char>) -> Seq<char> {
    s.map_values(|c: char| ascii_lower_char(c))
}

/// Lowercases the ASCII letters of a text.
pub fn ascii_lowercase_chars(s: &str) -> (r: Vec<char>)
    ensures
        r@ == ascii_lower(s@),
{
    let v = chars_of(s);
    let mut out: Vec<char> = Vec::new();
    let mut i: usize = 0;
    while i < v.len()
        invariant
            i <= v@.len(),
            v@ == s@,
            out@ == ascii_lower(v@.take(i as int)),
        decreases v@.len() - i,
    {
        let c = v[i];
        let l = if 'A' <= c && c <= 'Z' {
            ((c as u8) + 32) as char
        } else {
            c
        };
        assert(l == ascii_lower_char(c));
        out.push(l);
        assert(ascii_lower(v@.take(i + 1)) =~= ascii_lower(v@.take(i as int)).push(l));
        i = i + 1;
    }
    assert(v@.take(i as int) =~= v@);
    out
}

/// Whether `pat` occurs in `s`.
pub open spec fn contains_text(s: Seq<char>, pat: Seq<char>) -> bool {
    exists|i: int| 0 <= i && i + pat.len() <= s.len() && #[trigger] s.subrange(i, i + pat.len()) == pat
}

/// Decides `contains_text` for a vector of characters and a literal.
pub fn vec_contains_text(v: &Vec<char>, pat: &str) -> (r: bool)
    ensures
        r == contains_text(v@, pat@),
{
    let p = chars_of(pat);
    let m = p.len();
    if m > v.len() {
        assert forall|i: int| 0 <= i && i + pat@.len() <= v@.len() implies #[trigger] v@.subrange(i, i + pat@.len()) != pat@ by {}
        return false;
    }
    if m == 0 {
        assert(v@.subrange(0, 0 + pat@.len() as int) =~= pat@);
        return true;
    }
    let mut i: usize = 0;
    while i <= v.len() - m
        invariant
            p@ == pat@,
            m == p@.len(),
            m >= 1,
            m <= v@.len(),
            i <= v@.len() - m + 1,
            forall|k: int| 0 <= k < i ==> #[trigger] v@.subrange(k, k + m) != pat@,
        decreases v@.len() - m + 1 - i,
    {
        if spans_equal(v, i, i + m, &p, 0, m) {
            assert(p@.subrange(0, m as int) =~= p@);
            assert(v@.subrange(i as int, i + pat@.len()) == pat@);
            return true;
        }
        assert(p@.subrange(0, m as int) =~= p@);
        i = i + 1;
    }
    assert forall|k: int| 0 <= k && k + pat@.len() <= v@.len() implies #[trigger] v@.subrange(k, k + pat@.len()) != pat@ by {
        assert(k < i);
    }
    false
}

/// `slice.join(sep)` for texts.
pub open spec fn join(parts: Seq<Seq<char>>, sep: Seq<char>) -> Seq<char>
    decreases parts.len(),
{
    if parts.len() == 0 {
        Seq::empty()
    } else if parts.len() == 1 {
        parts[0]
    } else {
        join(parts.drop_last(), sep) + sep + parts.last()
    }
}

/// Joins texts with a separator.
pub fn join_strings(parts: &Vec<String>, sep: &str) -> (r: String)
    ensures
        r@ == join(parts@.map_values(|p: String| p@), sep@),
{
    let ghost ps = parts@.map_values(|p: String| p@);
    let mut out = String::new();
    let mut i: usize = 0;
    while i < parts.len()
        invariant
            i <= parts@.len(),
            ps == parts@.map_values(|p: String| p@),
            out@ == join(ps.take(i as int), sep@),
        decreases parts@.len() - i,
    {
        assert(ps.take(i + 1).drop_last() =~= ps.take(i as int));
        assert(ps.take(i + 1).last() == parts@[i as int]@);
        if i > 0 {
            out.append(sep);
        } else {
            assert(ps.take(0) =~= Seq::<Seq<char>>::empty());
        }
        out.append(parts[i].as_str());
        i = i + 1;
    }
    assert(ps.take(i as int) =~= ps);
    out
}

/// The decimal digit character for `d < 10`.
pub open spec fn digit_char(d: nat) -> char {
    (('0' as nat) + d) as char
}

/// The decimal representation of `n`, without leading zeros.
pub open spec fn decimal(n: nat) -> Seq<char>
    decreases n,
{
    if n < 10 {
        seq![digit_char(n)]
    } else {
        decimal(n / 10).push(digit_char(n % 10))
    }
}

/// Appends the decimal digits of `n`.
pub fn push_decimal(out: &mut Vec<char>, n: u32)
    ensures
        final(out)@ == old(out)@ + decimal(n as nat),
    decreases n,
{
    if n >= 10 {
        push_decimal(out, n / 10);
    }
    let d = (n % 10) as u8;
    let c = (48u8 + d) as char;
    assert(c == digit_char((n % 10) as nat));
    out.push(c);
}


/// The value of a run of digits, capped at `cap`: `None` when the run is
/// empty or holds a non-digit.
pub fn digits_capped(v: &Vec<char>, lo: usize, hi: usize, cap: u128) -> (r: Option<u128>)
    requires
        lo <= hi <= v@.len(),
        cap < u128::MAX / 16,
    ensures
        match r {
            None => v@.subrange(lo as int, hi as int).len() == 0 || !all_digits(
                v@.subrange(lo as int, hi as int),
            ),
            Some(x) => v@.subrange(lo as int, hi as int).len() > 0 && all_digits(
                v@.subrange(lo as int, hi as int),
            ) && x as nat == if digits_value(v@.subrange(lo as int, hi as int)) > cap {
                cap as nat
            } else {
                digits_value(v@.subrange(lo as int, hi as int))
            },
        },
{
    let ghost s = v@.subrange(lo as int, hi as int);
    if lo == hi {
        return None;
    }
    let mut acc: u128 = 0;
    let mut i = lo;
    assert(v@.subrange(lo as int, lo as int) =~= Seq::<char>::empty());
    while i < hi
        invariant
            lo <= i <= hi <= v@.len(),
            cap < u128::MAX / 16,
            s == v@.subrange(lo as int, hi as int),
            all_digits(v@.subrange(lo as int, i as int)),
            acc as nat == if digits_value(v@.subrange(lo as int, i as int)) > cap {
                cap as nat
            } else {
                digits_value(v@.subrange(lo as int, i as int))
            },
        decreases hi - i,
    {
        let c = v[i];
        if !('0' <= c && c <= '9') {
            assert(s[i - lo] == c);
            assert(!all_digits(s));
            return None;
        }
        let ghost pre = v@.subrange(lo as int, i as int);
        let ghost post = v@.subrange(lo as int, i + 1);
        assert(post.drop_last() =~= pre);
        assert(post.last() == c);
        let d = ((c as u32) - ('0' as u32)) as u128;
        if acc >= cap {
            acc = cap;
        } else {
            acc = acc * 10 + d;
            if acc > cap {
                acc = cap;
            }
        }
        i = i + 1;
    }
    assert(v@.subrange(lo as int, i as int) =~= s);
    Some(acc)
}

/// `i64::from_str`: an optional sign, then one or more ASCII digits whose
/// signed value fits in 64 bits.
pub open spec fn parse_i64(s: Seq<char>) -> Option<i64> {
    let negative = s.len() > 0 && s[0] == '-';
    let digits = if s.len() > 0 && (s[0] == '+' || s[0] == '-') {
        s.drop_first()
    } else {
        s
    };
    if digits.len() == 0 || !all_digits(digits) {
        None
    } else if negative {
        if digits_value(digits) <= 0x8000_0000_0000_0000 {
            Some((0 - digits_value(digits)) as i64)
        } else {
            None
        }
    } else if digits_value(digits) <= 0x7fff_ffff_ffff_ffff {
        Some(digits_value(digits) as i64)
    } else {
        None
    }
}

/// Parses a text as an `i64`.
pub fn parse_i64_text(t: &str) -> (r: Option<i64>)
    ensures
        r == parse_i64(t@),
{
    let v = chars_of(t);
    let n = v.len();
    assert(v@.subrange(0, n as int) =~= v@);
    let mut a: usize = 0;
    let negative = n > 0 && v[0] == '-';
    if n > 0 && (v[0] == '+' || v[0] == '-') {
        a = 1;
        assert(v@.subrange(1, n as int) =~= v@.drop_first());
    }
    match digits_capped(&v, a, n, 0x8000_0000_0000_0001) {
        None => None,
        Some(x) => {
            if negative {
                if x <= 0x8000_0000_0000_0000 {
                    if x == 0x8000_0000_0000_0000 {
                        Some(i64::MIN)
                    } else {
                        Some(0 - (x as i64))
                    }
                } else {
                    None
                }
            } else if x <= 0x7fff_ffff_ffff_ffff {
                Some(x as i64)
            } else {
                None
            }
        },
    }
}

/// `usize::from_str`: an optional `+`, then one or more ASCII digits whose
/// value fits in a `usize`.
pub open spec fn parse_usize(s: Seq<char>) -> Option<usize> {
    let digits = unsigned_digits(s);
    if digits.len() == 0 || !all_digits(digits) || digits_value(digits) > usize::MAX {
        None
    } else {
        Some(digits_value(digits) as usize)
    }
}

/// Parses a text as a `usize`.
pub fn parse_usize_text(t: &str) -> (r: Option<usize>)
    ensures
        r == parse_usize(t@),
{
    let v = chars_of(t);
    let n = v.len();
    assert(v@.subrange(0, n as int) =~= v@);
    let mut a: usize = 0;
    if n > 0 && v[0] == '+' {
        a = 1;
        assert(v@.subrange(1, n as int) =~= v@.drop_first());
    }
    let cap: u128 = (usize::MAX as u128) + 1;
    match digits_capped(&v, a, n, cap) {
        None => None,
        Some(x) => {
            if x <= usize::MAX as u128 {
                Some(x as usize)
            } else {
                None
            }
        },
    }
}

} // verus!
