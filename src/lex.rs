//! Lexical primitives shared by both grammars: skipping of white space and
//! comments, and tokens that are read after such a skip.
use vstd::prelude::*;

verus! {

/// Unicode `White_Space`: exactly the characters for which `char::is_whitespace` holds.
pub open spec fn is_white(c: char) -> bool {
    ('\u{9}' <= c && c <= '\u{d}') || c == ' ' || c == '\u{85}' || c == '\u{a0}'
        || c == '\u{1680}' || ('\u{2000}' <= c && c <= '\u{200a}') || c == '\u{2028}'
        || c == '\u{2029}' || c == '\u{202f}' || c == '\u{205f}' || c == '\u{3000}'
}

/// Whether `c` is Unicode white space.
pub fn white(c: char) -> (r: bool)
    ensures
        r == is_white(c),
{
    ('\u{9}' <= c && c <= '\u{d}') || c == ' ' || c == '\u{85}' || c == '\u{a0}'
        || c == '\u{1680}' || ('\u{2000}' <= c && c <= '\u{200a}') || c == '\u{2028}'
        || c == '\u{2029}' || c == '\u{202f}' || c == '\u{205f}' || c == '\u{3000}'
}


/// A white-space character as the skipping between tokens knows it.
pub open spec fn is_space(c: char) -> bool {
    c == ' ' || c == '\t' || c == '\r' || c == '\n'
}

pub open spec fn is_comment_start(c: char) -> bool {
    c == '#' || c == ';'
}

/// The first position from `p` on that holds `\r` or `\n`, or the end of `s`.
pub open spec fn line_stop(s: Seq<char>, p: int) -> int
    decreases s.len() - p,
{
    if p < 0 || p >= s.len() {
        s.len() as int
    } else if s[p] == '\r' || s[p] == '\n' {
        p
    } else {
        line_stop(s, p + 1)
    }
}

/// Where the comment that starts at `p` ends: after its line ending (`\n` or
/// `\r\n`), or at the end of `s`. None if no comment starts at `p`, or if its
/// line ends in a `\r` that no `\n` follows.
pub open spec fn comment_end(s: Seq<char>, p: int) -> Option<int> {
    if 0 <= p < s.len() && is_comment_start(s[p]) {
        let q = line_stop(s, p + 1);
        if q >= s.len() {
            Some(s.len() as int)
        } else if s[q] == '\n' {
            Some(q + 1)
        } else if q + 1 < s.len() && s[q + 1] == '\n' {
            Some(q + 2)
        } else {
            None
        }
    } else {
        None
    }
}

/// The position after skipping, from `p`, any run of white space and comments.
pub open spec fn skip_end(s: Seq<char>, p: int) -> int
    decreases s.len() - p,
{
    if p < 0 || p >= s.len() {
        p
    } else if is_space(s[p]) {
        skip_end(s, p + 1)
    } else {
        match comment_end(s, p) {
            Some(q) => if q > p {
                skip_end(s, q)
            } else {
                p
            },
            None => p,
        }
    }
}

/// `s` holds the word `w` at position `p`.
pub open spec fn word_at(s: Seq<char>, p: int, w: Seq<char>) -> bool {
    0 <= p && p + w.len() <= s.len() && s.subrange(p, p + w.len()) == w
}

/// Where a token `w` ends that follows, after skipping, at `p`.
pub open spec fn token_end(s: Seq<char>, p: int, w: Seq<char>) -> Option<int> {
    let q = skip_end(s, p);
    if word_at(s, q, w) {
        Some(q + w.len())
    } else {
        None
    }
}

/// The end of the run, from `p`, of characters that are neither white space nor `stop`.
pub open spec fn name_end(s: Seq<char>, p: int, stop: char) -> int
    decreases s.len() - p,
{
    if p < 0 || p >= s.len() {
        p
    } else if is_white(s[p]) || s[p] == stop {
        p
    } else {
        name_end(s, p + 1, stop)
    }
}

/// The start of `s[a..b]` with leading white space removed.
pub open spec fn trim_start(s: Seq<char>, a: int, b: int) -> int
    decreases b - a,
{
    if a < b && is_white(s[a]) {
        trim_start(s, a + 1, b)
    } else {
        a
    }
}

/// The end of `s[a..b]` with trailing white space removed.
pub open spec fn trim_end(s: Seq<char>, a: int, b: int) -> int
    decreases b - a,
{
    if a < b && is_white(s[b - 1]) {
        trim_end(s, a, b - 1)
    } else {
        b
    }
}

/// `s[a..b]` without leading or trailing white space.
pub open spec fn trimmed(s: Seq<char>, a: int, b: int) -> Seq<char> {
    let t = trim_start(s, a, b);
    s.subrange(t, trim_end(s, t, b))
}

/// The first position from `p` on that holds `\r` or `\n`, or the end of `s`.
pub fn line_stop_from(s: &str, p: usize) -> (r: usize)
    requires
        p <= s@.len(),
    ensures
        r == line_stop(s@, p as int),
        p <= r <= s@.len(),
{
    let n = s.unicode_len();
    let mut i: usize = p;
    while i < n
        invariant
            n == s@.len(),
            p <= i <= n,
            line_stop(s@, i as int) == line_stop(s@, p as int),
        decreases n - i,
    {
        let c = s.get_char(i);
        if c == '\r' || c == '\n' {
            return i;
        }
        i = i + 1;
    }
    i
}

/// Where the comment that starts at `p` ends, if one does.
pub fn comment_at(s: &str, p: usize) -> (r: Option<usize>)
    requires
        p <= s@.len(),
    ensures
        match r {
            Some(q) => comment_end(s@, p as int) == Some(q as int) && p < q <= s@.len(),
            None => comment_end(s@, p as int) is None,
        },
{
    let n = s.unicode_len();
    if p >= n {
        return None;
    }
    let c = s.get_char(p);
    if !(c == '#' || c == ';') {
        return None;
    }
    let q = line_stop_from(s, p + 1);
    if q >= n {
        Some(n)
    } else if s.get_char(q) == '\n' {
        Some(q + 1)
    } else if q + 1 < n && s.get_char(q + 1) == '\n' {
        Some(q + 2)
    } else {
        None
    }
}

/// The position after skipping, from `p`, white space and comments.
pub fn skip_from(s: &str, p: usize) -> (r: usize)
    requires
        p <= s@.len(),
    ensures
        r == skip_end(s@, p as int),
        p <= r <= s@.len(),
{
    let n = s.unicode_len();
    let mut i: usize = p;
    while i < n
        invariant
            n == s@.len(),
            p <= i <= n,
            skip_end(s@, i as int) == skip_end(s@, p as int),
        decreases n - i,
    {
        let c = s.get_char(i);
        if c == ' ' || c == '\t' || c == '\r' || c == '\n' {
            i = i + 1;
        } else {
            match comment_at(s, i) {
                Some(q) => {
                    i = q;
                },
                None => {
                    return i;
                },
            }
        }
    }
    i
}

/// Whether `s` holds the word `w` at position `p`.
pub fn word_at_pos(s: &str, p: usize, w: &str) -> (r: bool)
    requires
        p <= s@.len(),
    ensures
        r == word_at(s@, p as int, w@),
{
    let n = s.unicode_len();
    let m = w.unicode_len();
    if m > n - p {
        return false;
    }
    let mut i: usize = 0;
    while i < m
        invariant
            n == s@.len(),
            m == w@.len(),
            p + m <= n,
            0 <= i <= m,
            forall|k: int| 0 <= k < i ==> #[trigger] s@[p + k] == w@[k],
        decreases m - i,
    {
        if s.get_char(p + i) != w.get_char(i) {
            assert(s@.subrange(p as int, p + m)[i as int] == s@[p + i]);
            return false;
        }
        i = i + 1;
    }
    assert forall|k: int| 0 <= k < m implies #[trigger] s@.subrange(p as int, p + m)[k] == w@[k] by {
        assert(s@[p + k] == w@[k]);
    }
    assert(s@.subrange(p as int, p + m) =~= w@);
    true
}

/// Where the token `w` ends that follows `p` after skipping, if it does.
pub fn token_from(s: &str, p: usize, w: &str) -> (r: Option<usize>)
    requires
        p <= s@.len(),
    ensures
        match r {
            Some(q) => token_end(s@, p as int, w@) == Some(q as int) && p <= q <= s@.len(),
            None => token_end(s@, p as int, w@) is None,
        },
{
    let _n = s.unicode_len();
    let q = skip_from(s, p);
    if word_at_pos(s, q, w) {
        Some(q + w.unicode_len())
    } else {
        None
    }
}

/// The end of the run, from `p`, of characters that are neither white space nor `stop`.
pub fn name_end_from(s: &str, p: usize, stop: char) -> (r: usize)
    requires
        p <= s@.len(),
    ensures
        r == name_end(s@, p as int, stop),
        p <= r <= s@.len(),
{
    let n = s.unicode_len();
    let mut i: usize = p;
    while i < n
        invariant
            n == s@.len(),
            p <= i <= n,
            name_end(s@, i as int, stop) == name_end(s@, p as int, stop),
        decreases n - i,
    {
        let c = s.get_char(i);
        if white(c) || c == stop {
            return i;
        }
        i = i + 1;
    }
    i
}

/// The bounds of `s[a..b]` without leading or trailing white space.
pub fn trim_range(s: &str, a: usize, b: usize) -> (r: (usize, usize))
    requires
        a <= b <= s@.len(),
    ensures
        r.0 == trim_start(s@, a as int, b as int),
        r.1 == trim_end(s@, r.0 as int, b as int),
        a <= r.0 <= r.1 <= b,
{
    let mut i: usize = a;
    while i < b && white(s.get_char(i))
        invariant
            a <= i <= b <= s@.len(),
            trim_start(s@, i as int, b as int) == trim_start(s@, a as int, b as int),
        decreases b - i,
    {
        i = i + 1;
    }
    let mut j: usize = b;
    while j > i && white(s.get_char(j - 1))
        invariant
            a <= i <= j <= b <= s@.len(),
            trim_end(s@, i as int, j as int) == trim_end(s@, i as int, b as int),
        decreases j - i,
    {
        j = j - 1;
    }
    (i, j)
}


/// A text that a grammar could not read to its end.
#[derive(Debug, PartialEq)]
pub struct SyntaxError {
    /// The input from the position where reading stopped.
    pub rest: String,
}

/// `s` from position `p` on.
pub fn rest_from(s: &str, p: usize) -> (r: &str)
    requires
        p <= s@.len(),
    ensures
        r@ == s@.skip(p as int),
{
    let n = s.unicode_len();
    let r = s.substring_char(p, n);
    assert(r@ =~= s@.skip(p as int));
    r
}

/// Reads a comment, `#` or `;` up to and including the end of its line, and
/// returns the rest of the input.
pub fn comment(input: &str) -> (r: Option<&str>)
    ensures
        match r {
            Some(rest) => comment_end(input@, 0) matches Some(q) && rest@ == input@.skip(q),
            None => comment_end(input@, 0) is None,
        },
{
    match comment_at(input, 0) {
        Some(q) => Some(rest_from(input, q)),
        None => None,
    }
}

/// Skips white space and comments, and returns the rest of the input.
pub fn skip0(input: &str) -> (r: &str)
    ensures
        r@ == input@.skip(skip_end(input@, 0)),
{
    let q = skip_from(input, 0);
    rest_from(input, q)
}

/// Skips white space and comments, then reads the word `w`; returns the rest
/// of the input.
pub fn token<'a>(input: &'a str, w: &str) -> (r: Option<&'a str>)
    ensures
        match r {
            Some(rest) => token_end(input@, 0, w@) matches Some(q) && rest@ == input@.skip(q),
            None => token_end(input@, 0, w@) is None,
        },
{
    match token_from(input, 0, w) {
        Some(q) => Some(rest_from(input, q)),
        None => None,
    }
}

pub open spec fn word_hyphen() -> Seq<char> {
    seq!['-']
}

pub open spec fn word_equals() -> Seq<char> {
    seq!['=']
}

pub open spec fn word_colon() -> Seq<char> {
    seq![':']
}

/// The token `-`.
pub fn hyphen(input: &str) -> (r: Option<&str>)
    ensures
        match r {
            Some(rest) => token_end(input@, 0, word_hyphen()) matches Some(q) && rest@
                == input@.skip(q),
            None => token_end(input@, 0, word_hyphen()) is None,
        },
{
    proof {
        reveal_strlit("-");
    }
    assert("-"@ =~= word_hyphen());
    token(input, "-")
}

/// The token `=`.
pub fn equals(input: &str) -> (r: Option<&str>)
    ensures
        match r {
            Some(rest) => token_end(input@, 0, word_equals()) matches Some(q) && rest@
                == input@.skip(q),
            None => token_end(input@, 0, word_equals()) is None,
        },
{
    proof {
        reveal_strlit("=");
    }
    assert("="@ =~= word_equals());
    token(input, "=")
}

/// The token `:`.
pub fn colon(input: &str) -> (r: Option<&str>)
    ensures
        match r {
            Some(rest) => token_end(input@, 0, word_colon()) matches Some(q) && rest@
                == input@.skip(q),
            None => token_end(input@, 0, word_colon()) is None,
        },
{
    proof {
        reveal_strlit(":");
    }
    assert(":"@ =~= word_colon());
    token(input, ":")
}

} // verus!
