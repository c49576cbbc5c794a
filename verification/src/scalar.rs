//! Line-level lexical rules: comments, the `key: value` split, quoted
//! scalars and the typing of plain scalars.
use vstd::prelude::*;

use crate::parser::Value;
use crate::parser::ValueModel;
use crate::text::decimal;
use crate::text::digit_char;
use crate::text::is_whitespace;
use crate::text::signed_decimal;
use crate::text::is_ws;
use crate::text::push_char;
use crate::text::string_of;

verus! {

/// Whether a scalar may start after the indicator `c`: a mapping's `:`,
/// a sequence item's `-`, or a flow collection's `[`, `{` or `,`.
pub open spec fn opens_scalar(c: char) -> bool {
    c == ':' || c == '-' || c == ',' || c == '[' || c == '{'
}

/// Whether `c` opens a scalar.
fn opens_scalar_char(c: char) -> (r: bool)
    ensures
        r == opens_scalar(c),
{
    c == ':' || c == '-' || c == ',' || c == '[' || c == '{'
}

/// Where a `#` comment starts in the line `s[lo..hi]`, scanning from `i`,
/// or `hi` when there is none. `sq` and `dq` say whether `i` lies inside a
/// single- or double-quoted scalar, and `st` whether a scalar may start at
/// `i` (nothing but whitespace since the line start or an indicator). A
/// quote opens a quoted scalar only where a scalar may start; inside single
/// quotes `''` stands for one quote. A `#` opens a comment only outside
/// quotes and at the start of the line or right after whitespace.
pub open spec fn comment_cut(s: Seq<char>, lo: int, i: int, hi: int, sq: bool, dq: bool, st: bool) -> int
    decreases hi - i,
{
    if i >= hi || i < 0 {
        hi
    } else if sq {
        if s[i] == '\'' && i + 1 < hi && s[i + 1] == '\'' {
            comment_cut(s, lo, i + 2, hi, true, false, false)
        } else {
            comment_cut(s, lo, i + 1, hi, s[i] != '\'', false, false)
        }
    } else if dq {
        comment_cut(s, lo, i + 1, hi, false, s[i] != '"', false)
    } else if s[i] == '\'' && st {
        comment_cut(s, lo, i + 1, hi, true, false, false)
    } else if s[i] == '"' && st {
        comment_cut(s, lo, i + 1, hi, false, true, false)
    } else if s[i] == '#' && (i == lo || is_ws(s[i - 1])) {
        i
    } else {
        comment_cut(
            s,
            lo,
            i + 1,
            hi,
            false,
            false,
            if is_ws(s[i]) {
                st
            } else {
                opens_scalar(s[i])
            },
        )
    }
}

pub proof fn lemma_comment_cut_bounds(s: Seq<char>, lo: int, i: int, hi: int, sq: bool, dq: bool, st: bool)
    requires
        0 <= i <= hi,
    ensures
        i <= comment_cut(s, lo, i, hi, sq, dq, st) <= hi,
    decreases hi - i,
{
    if i < hi {
        if sq {
            if s[i] == '\'' && i + 1 < hi && s[i + 1] == '\'' {
                lemma_comment_cut_bounds(s, lo, i + 2, hi, true, false, false);
            } else {
                lemma_comment_cut_bounds(s, lo, i + 1, hi, s[i] != '\'', false, false);
            }
        } else if dq {
            lemma_comment_cut_bounds(s, lo, i + 1, hi, false, s[i] != '"', false);
        } else if s[i] == '\'' && st {
            lemma_comment_cut_bounds(s, lo, i + 1, hi, true, false, false);
        } else if s[i] == '"' && st {
            lemma_comment_cut_bounds(s, lo, i + 1, hi, false, true, false);
        } else if s[i] == '#' && (i == lo || is_ws(s[i - 1])) {
        } else {
            lemma_comment_cut_bounds(
                s,
                lo,
                i + 1,
                hi,
                false,
                false,
                if is_ws(s[i]) {
                    st
                } else {
                    opens_scalar(s[i])
                },
            );
        }
    }
}

/// Cuts off a trailing `#` comment from the line `s[lo..hi]`: returns the
/// end of what remains.
pub fn strip_comment(s: &[char], lo: usize, hi: usize) -> (cut: usize)
    requires
        lo <= hi <= s@.len(),
    ensures
        cut == comment_cut(s@, lo as int, lo as int, hi as int, false, false, true),
        lo <= cut <= hi,
{
    proof {
        lemma_comment_cut_bounds(s@, lo as int, lo as int, hi as int, false, false, true);
    }
    let mut in_single = false;
    let mut in_double = false;
    let mut start = true;
    let mut i = lo;
    while i < hi
        invariant
            lo <= i <= hi <= s@.len(),
            comment_cut(s@, lo as int, i as int, hi as int, in_single, in_double, start)
                == comment_cut(s@, lo as int, lo as int, hi as int, false, false, true),
            (in_single || in_double) ==> !start,
            !(in_single && in_double),
        decreases hi - i,
    {
        let ch = s[i];
        if in_single {
            if ch == '\'' && i + 1 < hi && s[i + 1] == '\'' {
                i = i + 2;
            } else {
                in_single = ch != '\'';
                start = false;
                i = i + 1;
            }
        } else if in_double {
            in_double = ch != '"';
            start = false;
            i = i + 1;
        } else if ch == '\'' && start {
            in_single = true;
            start = false;
            i = i + 1;
        } else if ch == '"' && start {
            in_double = true;
            start = false;
            i = i + 1;
        } else if ch == '#' && (i == lo || is_whitespace(s[i - 1])) {
            return i;
        } else {
            if !is_whitespace(ch) {
                start = opens_scalar_char(ch);
            }
            i = i + 1;
        }
    }
    hi
}

/// `s[lo..hi]` is `-` alone or starts with `- `.
pub open spec fn is_item(s: Seq<char>, lo: int, hi: int) -> bool {
    ||| (hi - lo == 1 && s[lo] == '-')
    ||| (hi - lo >= 2 && s[lo] == '-' && s[lo + 1] == ' ')
}

/// Whether the content `s[lo..hi]` is a block sequence item.
pub fn is_sequence_item(s: &[char], lo: usize, hi: usize) -> (r: bool)
    requires
        lo <= hi <= s@.len(),
    ensures
        r == is_item(s@, lo as int, hi as int),
{
    (hi - lo == 1 && s[lo] == '-') || (hi - lo >= 2 && s[lo] == '-' && s[lo + 1] == ' ')
}

/// `s[lo..hi]` opens a flow collection.
pub open spec fn is_flow(s: Seq<char>, lo: int, hi: int) -> bool {
    lo < hi && (s[lo] == '{' || s[lo] == '[')
}

/// `s[lo..hi]` opens with the indicator of an anchor (`&`), an alias
/// (`*`), a tag (`!`) or a block scalar (`|`, `>`), none of which this
/// parser supports.
pub open spec fn is_unsupported(s: Seq<char>, lo: int, hi: int) -> bool {
    lo < hi && (s[lo] == '&' || s[lo] == '*' || s[lo] == '!' || s[lo] == '|' || s[lo] == '>')
}

/// The error message for a scalar that [`is_unsupported`].
pub open spec fn unsupported_message() -> Seq<char> {
    "anchors, aliases, tags and block scalars are not supported"@
}

/// Whether `s[lo..hi]` opens with an unsupported indicator.
pub fn is_unsupported_start(s: &[char], lo: usize, hi: usize) -> (r: bool)
    requires
        lo <= hi <= s@.len(),
    ensures
        r == is_unsupported(s@, lo as int, hi as int),
{
    lo < hi && (s[lo] == '&' || s[lo] == '*' || s[lo] == '!' || s[lo] == '|' || s[lo] == '>')
}

/// The error message for a scalar that opens with an unsupported indicator.
pub fn unsupported_error() -> (m: String)
    ensures
        m@ == unsupported_message(),
{
    String::from_str("anchors, aliases, tags and block scalars are not supported")
}

/// Whether `s[lo..hi]` starts with `{` or `[`.
pub fn is_flow_start(s: &[char], lo: usize, hi: usize) -> (r: bool)
    requires
        lo <= hi <= s@.len(),
    ensures
        r == is_flow(s@, lo as int, hi as int),
{
    lo < hi && (s[lo] == '{' || s[lo] == '[')
}

/// The first `:` at or after `i` in `s[..hi]` that lies outside quoted
/// scalars and is followed by a space or the end, given the quote state
/// and whether a scalar may start at `i` (see [`comment_cut`]).
pub open spec fn colon_at(s: Seq<char>, i: int, hi: int, sq: bool, dq: bool, st: bool) -> Option<int>
    decreases hi - i,
{
    if i >= hi || i < 0 {
        None
    } else if sq {
        if s[i] == '\'' && i + 1 < hi && s[i + 1] == '\'' {
            colon_at(s, i + 2, hi, true, false, false)
        } else {
            colon_at(s, i + 1, hi, s[i] != '\'', false, false)
        }
    } else if dq {
        colon_at(s, i + 1, hi, false, s[i] != '"', false)
    } else if s[i] == '\'' && st {
        colon_at(s, i + 1, hi, true, false, false)
    } else if s[i] == '"' && st {
        colon_at(s, i + 1, hi, false, true, false)
    } else if s[i] == ':' && (i + 1 == hi || s[i + 1] == ' ') {
        Some(i)
    } else {
        colon_at(
            s,
            i + 1,
            hi,
            false,
            false,
            if is_ws(s[i]) {
                st
            } else {
                opens_scalar(s[i])
            },
        )
    }
}

pub proof fn lemma_colon_at_bounds(s: Seq<char>, i: int, hi: int, sq: bool, dq: bool, st: bool)
    ensures
        colon_at(s, i, hi, sq, dq, st) matches Some(k) ==> i <= k < hi,
    decreases hi - i,
{
    if 0 <= i < hi {
        if sq {
            if s[i] == '\'' && i + 1 < hi && s[i + 1] == '\'' {
                lemma_colon_at_bounds(s, i + 2, hi, true, false, false);
            } else {
                lemma_colon_at_bounds(s, i + 1, hi, s[i] != '\'', false, false);
            }
        } else if dq {
            lemma_colon_at_bounds(s, i + 1, hi, false, s[i] != '"', false);
        } else if s[i] == '\'' && st {
            lemma_colon_at_bounds(s, i + 1, hi, true, false, false);
        } else if s[i] == '"' && st {
            lemma_colon_at_bounds(s, i + 1, hi, false, true, false);
        } else if s[i] == ':' && (i + 1 == hi || s[i + 1] == ' ') {
        } else {
            lemma_colon_at_bounds(
                s,
                i + 1,
                hi,
                false,
                false,
                if is_ws(s[i]) {
                    st
                } else {
                    opens_scalar(s[i])
                },
            );
        }
    }
}

/// Where a character of a line stands with respect to quoted scalars,
/// reading the line from its start: outside them (and whether a scalar
/// may start there), inside single quotes, right after a quote inside
/// single quotes (which closes them unless another quote follows), or
/// inside double quotes.
pub enum QuoteState {
    Outside(bool),
    Single,
    SingleQuote,
    Double,
}

/// The state after reading the character `c` in state `q`.
pub open spec fn quote_step(q: QuoteState, c: char) -> QuoteState {
    match q {
        QuoteState::Outside(st) => if c == '\'' && st {
            QuoteState::Single
        } else if c == '"' && st {
            QuoteState::Double
        } else {
            QuoteState::Outside(
                if is_ws(c) {
                    st
                } else {
                    opens_scalar(c)
                },
            )
        },
        QuoteState::Single => if c == '\'' {
            QuoteState::SingleQuote
        } else {
            QuoteState::Single
        },
        QuoteState::SingleQuote => if c == '\'' {
            QuoteState::Single
        } else {
            QuoteState::Outside(
                if is_ws(c) {
                    false
                } else {
                    opens_scalar(c)
                },
            )
        },
        QuoteState::Double => if c == '"' {
            QuoteState::Outside(false)
        } else {
            QuoteState::Double
        },
    }
}

/// The state at index `k` of the line that starts at `lo`.
pub open spec fn quote_state(s: Seq<char>, lo: int, k: int) -> QuoteState
    decreases k - lo,
{
    if k <= lo {
        QuoteState::Outside(true)
    } else {
        quote_step(quote_state(s, lo, k - 1), s[k - 1])
    }
}

/// Whether a state lies outside quoted scalars.
pub open spec fn is_outside(q: QuoteState) -> bool {
    q is Outside || q is SingleQuote
}

/// Whether index `k` of the line `s[lo..hi]` holds a `key: value`
/// separator: a `:` outside quoted scalars, followed by a space or the end.
pub open spec fn separator_at(s: Seq<char>, lo: int, hi: int, k: int) -> bool {
    &&& lo <= k < hi
    &&& s[k] == ':'
    &&& (k + 1 == hi || s[k + 1] == ' ')
    &&& is_outside(quote_state(s, lo, k))
}

/// How the scan's quote flags stand for the state `q` at `i`.
spec fn scan_agrees(q: QuoteState, sq: bool, dq: bool, st: bool, s: Seq<char>, i: int, hi: int) -> bool {
    ||| (q == QuoteState::Outside(st) && !sq && !dq)
    ||| (q == QuoteState::Single && sq && !dq && !st)
    ||| (q == QuoteState::Double && !sq && dq && !st)
    ||| (q == QuoteState::SingleQuote && !sq && !dq && !st && (i >= hi || s[i] != '\''))
}

proof fn lemma_colon_at_first(s: Seq<char>, lo: int, i: int, hi: int, sq: bool, dq: bool, st: bool)
    requires
        0 <= lo <= i <= hi <= s.len(),
        scan_agrees(quote_state(s, lo, i), sq, dq, st, s, i, hi),
    ensures
        match colon_at(s, i, hi, sq, dq, st) {
            Some(k) => separator_at(s, lo, hi, k) && i <= k && forall|j: int|
                i <= j < k ==> !separator_at(s, lo, hi, j),
            None => forall|j: int| i <= j < hi ==> !separator_at(s, lo, hi, j),
        },
    decreases hi - i,
{
    if i < hi {
        let q = quote_state(s, lo, i);
        assert(quote_state(s, lo, i + 1) == quote_step(q, s[i]));
        if sq {
            if s[i] == '\'' && i + 1 < hi && s[i + 1] == '\'' {
                assert(quote_state(s, lo, i + 2) == quote_step(quote_state(s, lo, i + 1), s[i + 1]));
                lemma_colon_at_first(s, lo, i + 2, hi, true, false, false);
            } else {
                lemma_colon_at_first(s, lo, i + 1, hi, s[i] != '\'', false, false);
            }
        } else if dq {
            lemma_colon_at_first(s, lo, i + 1, hi, false, s[i] != '"', false);
        } else if s[i] == '\'' && st {
            lemma_colon_at_first(s, lo, i + 1, hi, true, false, false);
        } else if s[i] == '"' && st {
            lemma_colon_at_first(s, lo, i + 1, hi, false, true, false);
        } else if s[i] == ':' && (i + 1 == hi || s[i + 1] == ' ') {
        } else {
            lemma_colon_at_first(
                s,
                lo,
                i + 1,
                hi,
                false,
                false,
                if is_ws(s[i]) {
                    st
                } else {
                    opens_scalar(s[i])
                },
            );
        }
    }
}

/// `split_colon` splits a line at its first `key: value` separator (the
/// first `:` outside quoted scalars that a space or the end follows): the
/// key is what comes before it with whitespace trimmed, the value what
/// comes after it without leading whitespace. Without a separator it finds
/// nothing.
pub proof fn law_split_colon_first(s: Seq<char>, lo: int, hi: int)
    requires
        0 <= lo <= hi <= s.len(),
    ensures
        match colon_split(s, lo, hi) {
            Some(((a, b), (c, d))) => exists|k: int|
                {
                    &&& separator_at(s, lo, hi, k)
                    &&& forall|j: int| lo <= j < k ==> !separator_at(s, lo, hi, j)
                    &&& a == crate::text::skip_ws(s, lo, k)
                    &&& b == crate::text::trim_end_at(s, a, k)
                    &&& c == crate::text::skip_ws(s, k + 1, hi)
                    &&& d == hi
                },
            None => forall|j: int| lo <= j < hi ==> !separator_at(s, lo, hi, j),
        },
{
    lemma_colon_at_first(s, lo, lo, hi, false, false, true);
    if let Some(k) = colon_at(s, lo, hi, false, false, true) {
        assert(separator_at(s, lo, hi, k));
    }
}

/// The `key: value` split of `s[lo..hi]`: the trimmed key range and the
/// value range with leading whitespace removed.
pub open spec fn colon_split(s: Seq<char>, lo: int, hi: int) -> Option<((int, int), (int, int))> {
    match colon_at(s, lo, hi, false, false, true) {
        Some(k) => {
            let a = crate::text::skip_ws(s, lo, k);
            Some(((a, crate::text::trim_end_at(s, a, k)), (crate::text::skip_ws(s, k + 1, hi), hi)))
        },
        None => None,
    }
}

/// Finds the first unquoted `:` separating a mapping key from its value
/// in `s[lo..hi]` and returns the key range (trimmed) and the value range
/// (with leading whitespace removed).
pub fn split_colon(s: &[char], lo: usize, hi: usize) -> (r: Option<((usize, usize), (usize, usize))>)
    requires
        lo <= hi <= s@.len(),
    ensures
        match r {
            Some(((a, b), (c, d))) => colon_split(s@, lo as int, hi as int) == Some(
                ((a as int, b as int), (c as int, d as int)),
            ) && lo <= a <= b <= hi && c <= d == hi && lo <= c,
            None => colon_split(s@, lo as int, hi as int).is_none(),
        },
{
    proof {
        lemma_colon_at_bounds(s@, lo as int, hi as int, false, false, true);
    }
    let mut in_single = false;
    let mut in_double = false;
    let mut start = true;
    let mut i = lo;
    while i < hi
        invariant
            lo <= i <= hi <= s@.len(),
            colon_at(s@, i as int, hi as int, in_single, in_double, start) == colon_at(
                s@,
                lo as int,
                hi as int,
                false,
                false,
                true,
            ),
            (in_single || in_double) ==> !start,
            !(in_single && in_double),
        decreases hi - i,
    {
        let ch = s[i];
        if in_single {
            if ch == '\'' && i + 1 < hi && s[i + 1] == '\'' {
                i = i + 2;
            } else {
                in_single = ch != '\'';
                start = false;
                i = i + 1;
            }
        } else if in_double {
            in_double = ch != '"';
            start = false;
            i = i + 1;
        } else if ch == '\'' && start {
            in_single = true;
            start = false;
            i = i + 1;
        } else if ch == '"' && start {
            in_double = true;
            start = false;
            i = i + 1;
        } else if ch == ':' && (i + 1 == hi || s[i + 1] == ' ') {
            proof {
                lemma_colon_at_bounds(s@, i as int, hi as int, false, false, start);
            }
            let a = crate::text::skip_whitespace(s, lo, i);
            let b = crate::text::trim_end_index(s, a, i);
            let c = crate::text::skip_whitespace(s, i + 1, hi);
            return Some(((a, b), (c, hi)));
        } else {
            if !is_whitespace(ch) {
                start = opens_scalar_char(ch);
            }
            i = i + 1;
        }
    }
    None
}


/// Whether `s[lo..hi]` is exactly the characters of `w`.
pub fn range_eq(s: &[char], lo: usize, hi: usize, w: &[char]) -> (r: bool)
    requires
        lo <= hi <= s@.len(),
    ensures
        r == (s@.subrange(lo as int, hi as int) == w@),
{
    if hi - lo != w.len() {
        return false;
    }
    let mut k: usize = 0;
    while k < w.len()
        invariant
            lo <= hi <= s@.len(),
            hi - lo == w@.len(),
            0 <= k <= w@.len(),
            forall|j: int| 0 <= j < k ==> s@[lo + j] == w@[j],
        decreases w.len() - k,
    {
        if s[lo + k] != w[k] {
            assert(s@.subrange(lo as int, hi as int)[k as int] != w@[k as int]);
            return false;
        }
        k = k + 1;
    }
    assert(s@.subrange(lo as int, hi as int) =~= w@);
    true
}

/// The ASCII lowercase of `c`.
pub open spec fn ascii_lower(c: char) -> char {
    if 'A' <= c && c <= 'Z' {
        ((c as u32) + 32) as char
    } else {
        c
    }
}

/// `s[lo..hi]` equals the lowercase word `w`, ignoring ASCII case.
pub open spec fn ci_eq(s: Seq<char>, lo: int, hi: int, w: Seq<char>) -> bool {
    &&& hi - lo == w.len()
    &&& forall|k: int| 0 <= k < w.len() ==> ascii_lower(#[trigger] s[lo + k]) == w[k]
}

fn lower(c: char) -> (r: char)
    ensures
        r == ascii_lower(c),
{
    if 'A' <= c && c <= 'Z' {
        ((c as u32) + 32) as u8 as char
    } else {
        c
    }
}

/// Whether `s[lo..hi]` equals the lowercase word `w`, ignoring ASCII case.
fn range_eq_ci(s: &[char], lo: usize, hi: usize, w: &[char]) -> (r: bool)
    requires
        lo <= hi <= s@.len(),
    ensures
        r == ci_eq(s@, lo as int, hi as int, w@),
{
    if hi - lo != w.len() {
        return false;
    }
    let mut k: usize = 0;
    while k < w.len()
        invariant
            lo <= hi <= s@.len(),
            hi - lo == w@.len(),
            0 <= k <= w@.len(),
            forall|j: int| 0 <= j < k ==> ascii_lower(#[trigger] s@[lo + j]) == w@[j],
        decreases w.len() - k,
    {
        if lower(s[lo + k]) != w[k] {
            return false;
        }
        k = k + 1;
    }
    true
}

/// Decodes the escapes of a double-quoted scalar body `s[i..hi]`: `\n`,
/// `\t`, `\"` and `\\` stand for one character; any other escaped
/// character keeps its backslash, and a lone trailing `\` stays as is.
pub open spec fn dq_unescape(s: Seq<char>, i: int, hi: int) -> Seq<char>
    decreases hi - i,
{
    if i >= hi {
        seq![]
    } else if s[i] == '\\' {
        if i + 1 >= hi {
            seq!['\\']
        } else {
            escape_pair(s[i + 1]) + dq_unescape(s, i + 2, hi)
        }
    } else {
        seq![s[i]] + dq_unescape(s, i + 1, hi)
    }
}

/// What the escape `\c` stands for in a double-quoted scalar.
pub open spec fn escape_pair(c: char) -> Seq<char> {
    if c == 'n' {
        seq!['\n']
    } else if c == 't' {
        seq!['\t']
    } else if c == '"' {
        seq!['"']
    } else if c == '\\' {
        seq!['\\']
    } else {
        seq!['\\', c]
    }
}

/// The body `s[i..hi]` of a single-quoted scalar with each `''` read as
/// one `'`, left to right.
pub open spec fn sq_unescape(s: Seq<char>, i: int, hi: int) -> Seq<char>
    decreases hi - i,
{
    if i >= hi {
        seq![]
    } else if i + 1 < hi && s[i] == '\'' && s[i + 1] == '\'' {
        seq!['\''] + sq_unescape(s, i + 2, hi)
    } else {
        seq![s[i]] + sq_unescape(s, i + 1, hi)
    }
}

/// The string a quoted scalar `s[lo..hi]` stands for, or `None` when the
/// text is not wrapped in a matching pair of quotes.
pub open spec fn unquoted(s: Seq<char>, lo: int, hi: int) -> Option<Seq<char>> {
    if hi - lo >= 2 && s[lo] == '"' && s[hi - 1] == '"' {
        Some(dq_unescape(s, lo + 1, hi - 1))
    } else if hi - lo >= 2 && s[lo] == '\'' && s[hi - 1] == '\'' {
        Some(sq_unescape(s, lo + 1, hi - 1))
    } else {
        None
    }
}

/// Strips a matching pair of surrounding quotes from `s[lo..hi]` and
/// decodes the quoted body; `None` when the text is not quoted.
pub fn unquote(s: &[char], lo: usize, hi: usize) -> (r: Option<String>)
    requires
        lo <= hi <= s@.len(),
    ensures
        match r {
            Some(u) => unquoted(s@, lo as int, hi as int) == Some(u@),
            None => unquoted(s@, lo as int, hi as int).is_none(),
        },
{
    if hi - lo >= 2 && s[lo] == '"' && s[hi - 1] == '"' {
        let end = hi - 1;
        let mut out = String::new();
        let mut i = lo + 1;
        while i < end
            invariant
                lo + 1 <= i <= end + 1,
                end < hi <= s@.len(),
                i > end ==> dq_unescape(s@, i as int, end as int) == Seq::<char>::empty(),
                out@ + dq_unescape(s@, i as int, end as int) == dq_unescape(
                    s@,
                    lo + 1,
                    end as int,
                ),
            decreases end + 1 - i,
        {
            let c = s[i];
            let ghost before = out@;
            if c == '\\' {
                if i + 1 >= end {
                    push_char(&mut out, '\\');
                    assert(out@ + dq_unescape(s@, (i + 1) as int, end as int) =~= before
                        + dq_unescape(s@, i as int, end as int));
                    i = i + 1;
                } else {
                    let e = s[i + 1];
                    if e == 'n' {
                        push_char(&mut out, '\n');
                    } else if e == 't' {
                        push_char(&mut out, '\t');
                    } else if e == '"' {
                        push_char(&mut out, '"');
                    } else if e == '\\' {
                        push_char(&mut out, '\\');
                    } else {
                        push_char(&mut out, '\\');
                        push_char(&mut out, e);
                    }
                    assert(out@ =~= before + escape_pair(e));
                    assert(out@ + dq_unescape(s@, (i + 2) as int, end as int) =~= before
                        + dq_unescape(s@, i as int, end as int));
                    i = i + 2;
                }
            } else {
                push_char(&mut out, c);
                assert(out@ + dq_unescape(s@, (i + 1) as int, end as int) =~= before
                    + dq_unescape(s@, i as int, end as int));
                i = i + 1;
            }
        }
        assert(out@ =~= dq_unescape(s@, lo + 1, end as int));
        return Some(out);
    }
    if hi - lo >= 2 && s[lo] == '\'' && s[hi - 1] == '\'' {
        let end = hi - 1;
        let mut out = String::new();
        let mut i = lo + 1;
        while i < end
            invariant
                lo + 1 <= i <= end,
                end < hi <= s@.len(),
                out@ + sq_unescape(s@, i as int, end as int) == sq_unescape(
                    s@,
                    lo + 1,
                    end as int,
                ),
            decreases end - i,
        {
            let ghost before = out@;
            if i + 1 < end && s[i] == '\'' && s[i + 1] == '\'' {
                push_char(&mut out, '\'');
                assert(out@ + sq_unescape(s@, (i + 2) as int, end as int) =~= before
                    + sq_unescape(s@, i as int, end as int));
                i = i + 2;
            } else {
                push_char(&mut out, s[i]);
                assert(out@ + sq_unescape(s@, (i + 1) as int, end as int) =~= before
                    + sq_unescape(s@, i as int, end as int));
                i = i + 1;
            }
        }
        assert(out@ =~= sq_unescape(s@, lo + 1, end as int));
        return Some(out);
    }
    None
}


/// An ASCII decimal digit.
pub open spec fn is_digit(c: char) -> bool {
    '0' <= c && c <= '9'
}

/// Every character of `s[lo..hi]` is a decimal digit.
pub open spec fn all_digits(s: Seq<char>, lo: int, hi: int) -> bool {
    forall|k: int| lo <= k < hi ==> is_digit(#[trigger] s[k])
}

/// The number the digits `s[lo..hi]` spell in base ten.
pub open spec fn digits_value(s: Seq<char>, lo: int, hi: int) -> nat
    decreases hi - lo,
{
    if hi <= lo {
        0
    } else {
        digits_value(s, lo, hi - 1) * 10 + ((s[hi - 1] as u32) - 48) as nat
    }
}

proof fn lemma_digits_value_grows(s: Seq<char>, lo: int, k: int, hi: int)
    requires
        lo <= k <= hi,
    ensures
        digits_value(s, lo, k) <= digits_value(s, lo, hi),
    decreases hi - k,
{
    if k < hi {
        lemma_digits_value_grows(s, lo, k, hi - 1);
    }
}

/// What `i64::from_str` accepts: an optional `+` or `-`, then one or more
/// ASCII digits, denoting a value in the range of `i64`.
pub open spec fn int_text(s: Seq<char>, lo: int, hi: int) -> Option<int> {
    let signed = lo < hi && (s[lo] == '+' || s[lo] == '-');
    let d = if signed {
        lo + 1
    } else {
        lo
    };
    if d < hi && all_digits(s, d, hi) {
        let m = digits_value(s, d, hi) as int;
        let v = if signed && s[lo] == '-' {
            -m
        } else {
            m
        };
        if i64::MIN <= v <= i64::MAX {
            Some(v)
        } else {
            None
        }
    } else {
        None
    }
}

/// Parses `s[lo..hi]` as an `i64` the way `i64::from_str` does.
pub fn parse_i64(s: &[char], lo: usize, hi: usize) -> (r: Option<i64>)
    requires
        lo <= hi <= s@.len(),
    ensures
        match r {
            Some(v) => int_text(s@, lo as int, hi as int) == Some(v as int),
            None => int_text(s@, lo as int, hi as int).is_none(),
        },
{
    let signed = lo < hi && (s[lo] == '+' || s[lo] == '-');
    let neg = signed && s[lo] == '-';
    let d = if signed {
        lo + 1
    } else {
        lo
    };
    if d >= hi {
        return None;
    }
    let bound: u128 = 0x8000_0000_0000_0000;
    let mut m: u128 = 0;
    let mut k = d;
    while k < hi
        invariant
            lo <= d <= k <= hi <= s@.len(),
            signed == (lo < hi && (s@[lo as int] == '+' || s@[lo as int] == '-')),
            neg == (signed && s@[lo as int] == '-'),
            d == (if signed {
                lo + 1
            } else {
                lo as int
            }),
            all_digits(s@, d as int, k as int),
            m == digits_value(s@, d as int, k as int),
            m <= bound,
            bound == 0x8000_0000_0000_0000u128,
        decreases hi - k,
    {
        let c = s[k];
        if !('0' <= c && c <= '9') {
            proof {
                assert(!is_digit(s@[k as int]));
            }
            return None;
        }
        m = m * 10 + ((c as u32) - 48) as u128;
        k = k + 1;
        proof {
            assert(digits_value(s@, d as int, k as int) == digits_value(s@, d as int, k - 1) * 10
                + ((s@[k - 1] as u32) - 48) as nat);
            assert forall|j: int| d <= j < k implies is_digit(#[trigger] s@[j]) by {
                if j < k - 1 {
                    assert(is_digit(s@[j]));
                }
            }
        }
        if m > bound {
            proof {
                if all_digits(s@, d as int, hi as int) {
                    lemma_digits_value_grows(s@, d as int, k as int, hi as int);
                }
            }
            return None;
        }
    }
    if neg {
        if m == bound {
            Some(i64::MIN)
        } else {
            Some(-(m as i64))
        }
    } else if m == bound {
        None
    } else {
        Some(m as i64)
    }
}

/// The end of the run of digits starting at `i` in `s[..hi]`.
pub open spec fn digit_run(s: Seq<char>, i: int, hi: int) -> int
    decreases hi - i,
{
    if i < hi && is_digit(s[i]) {
        digit_run(s, i + 1, hi)
    } else {
        i
    }
}

pub proof fn lemma_digit_run_bounds(s: Seq<char>, i: int, hi: int)
    requires
        i <= hi,
    ensures
        i <= digit_run(s, i, hi) <= hi,
    decreases hi - i,
{
    if i < hi && is_digit(s[i]) {
        lemma_digit_run_bounds(s, i + 1, hi);
    }
}

/// The end of the run of digits starting at `i` in `s[..hi]`.
pub fn digit_run_exec(s: &[char], i: usize, hi: usize) -> (r: usize)
    requires
        i <= hi <= s@.len(),
    ensures
        r == digit_run(s@, i as int, hi as int),
        i <= r <= hi,
{
    proof {
        lemma_digit_run_bounds(s@, i as int, hi as int);
    }
    let mut j = i;
    while j < hi && '0' <= s[j] && s[j] <= '9'
        invariant
            i <= j <= hi <= s@.len(),
            digit_run(s@, j as int, hi as int) == digit_run(s@, i as int, hi as int),
        decreases hi - j,
    {
        j = j + 1;
    }
    j
}

/// An exponent `e`/`E`, an optional sign and one or more digits running
/// from `f` to exactly `hi`; or nothing at all (`f == hi`).
pub open spec fn exponent_ok(s: Seq<char>, f: int, hi: int) -> bool {
    ||| f == hi
    ||| {
        &&& f < hi
        &&& (s[f] == 'e' || s[f] == 'E')
        &&& {
            let g = if f + 1 < hi && (s[f + 1] == '+' || s[f + 1] == '-') {
                f + 2
            } else {
                f + 1
            };
            let h = digit_run(s, g, hi);
            h > g && h == hi
        }
    }
}

/// A decimal mantissa (`Digit+`, `Digit+ '.' Digit*` or `Digit* '.'
/// Digit+`) followed by an optional exponent, spanning `s[b..hi]`.
pub open spec fn decimal_number(s: Seq<char>, b: int, hi: int) -> bool {
    let a = digit_run(s, b, hi);
    if a < hi && s[a] == '.' {
        let f = digit_run(s, a + 1, hi);
        (a > b || f > a + 1) && exponent_ok(s, f, hi)
    } else {
        a > b && exponent_ok(s, a, hi)
    }
}

/// What `f64::from_str` accepts: an optional sign, then `inf`,
/// `infinity` or `nan` in any ASCII case, or a decimal number.
pub open spec fn float_text(s: Seq<char>, lo: int, hi: int) -> bool {
    let b = if lo < hi && (s[lo] == '+' || s[lo] == '-') {
        lo + 1
    } else {
        lo
    };
    ||| ci_eq(s, b, hi, seq!['i', 'n', 'f'])
    ||| ci_eq(s, b, hi, seq!['i', 'n', 'f', 'i', 'n', 'i', 't', 'y'])
    ||| ci_eq(s, b, hi, seq!['n', 'a', 'n'])
    ||| decimal_number(s, b, hi)
}

/// Whether `s[lo..hi]` is accepted by `f64::from_str`.
pub fn is_float_text(s: &[char], lo: usize, hi: usize) -> (r: bool)
    requires
        lo <= hi <= s@.len(),
    ensures
        r == float_text(s@, lo as int, hi as int),
{
    let b = if lo < hi && (s[lo] == '+' || s[lo] == '-') {
        lo + 1
    } else {
        lo
    };
    let inf: [char; 3] = ['i', 'n', 'f'];
    let infinity: [char; 8] = ['i', 'n', 'f', 'i', 'n', 'i', 't', 'y'];
    let nan: [char; 3] = ['n', 'a', 'n'];
    if range_eq_ci(s, b, hi, &inf) || range_eq_ci(s, b, hi, &infinity) || range_eq_ci(
        s,
        b,
        hi,
        &nan,
    ) {
        return true;
    }
    is_decimal_number(s, b, hi)
}

/// Whether `s[b..hi]` is a [`decimal_number`].
pub fn is_decimal_number(s: &[char], b: usize, hi: usize) -> (r: bool)
    requires
        b <= hi <= s@.len(),
    ensures
        r == decimal_number(s@, b as int, hi as int),
{
    let a = digit_run_exec(s, b, hi);
    let (f, mantissa_ok) = if a < hi && s[a] == '.' {
        let f = digit_run_exec(s, a + 1, hi);
        (f, a > b || f > a + 1)
    } else {
        (a, a > b)
    };
    if !mantissa_ok {
        return false;
    }
    if f == hi {
        return true;
    }
    if !(s[f] == 'e' || s[f] == 'E') {
        return false;
    }
    let g = if f + 1 < hi && (s[f + 1] == '+' || s[f + 1] == '-') {
        f + 2
    } else {
        f + 1
    };
    let h = digit_run_exec(s, g, hi);
    h > g && h == hi
}

/// How a plain (unquoted) scalar `s[lo..hi]` is typed: the boolean and
/// null spellings first, then an `i64`, then a float, else a string.
pub open spec fn plain_scalar(s: Seq<char>, lo: int, hi: int) -> ValueModel {
    let t = s.subrange(lo, hi);
    if t == seq!['t', 'r', 'u', 'e'] || t == seq!['T', 'r', 'u', 'e'] || t == seq![
        'T',
        'R',
        'U',
        'E',
    ] {
        ValueModel::Bool(true)
    } else if t == seq!['f', 'a', 'l', 's', 'e'] || t == seq!['F', 'a', 'l', 's', 'e'] || t
        == seq!['F', 'A', 'L', 'S', 'E'] {
        ValueModel::Bool(false)
    } else if t == seq!['n', 'u', 'l', 'l'] || t == seq!['N', 'u', 'l', 'l'] || t == seq![
        'N',
        'U',
        'L',
        'L',
    ] || t == seq!['~'] || t.len() == 0 {
        ValueModel::Null
    } else if int_text(s, lo, hi) is Some {
        ValueModel::Int(int_text(s, lo, hi).unwrap())
    } else if float_text(s, lo, hi) {
        ValueModel::Float(t)
    } else {
        ValueModel::Str(t)
    }
}

/// Scalar-type inference for the plain scalar `s[lo..hi]`.
pub fn interpret_plain_scalar(s: &[char], lo: usize, hi: usize) -> (v: Value)
    requires
        lo <= hi <= s@.len(),
    ensures
        v@ == plain_scalar(s@, lo as int, hi as int),
{
    let w_true: [char; 4] = ['t', 'r', 'u', 'e'];
    let w_true2: [char; 4] = ['T', 'r', 'u', 'e'];
    let w_true3: [char; 4] = ['T', 'R', 'U', 'E'];
    let w_false: [char; 5] = ['f', 'a', 'l', 's', 'e'];
    let w_false2: [char; 5] = ['F', 'a', 'l', 's', 'e'];
    let w_false3: [char; 5] = ['F', 'A', 'L', 'S', 'E'];
    let w_null: [char; 4] = ['n', 'u', 'l', 'l'];
    let w_null2: [char; 4] = ['N', 'u', 'l', 'l'];
    let w_null3: [char; 4] = ['N', 'U', 'L', 'L'];
    let w_tilde: [char; 1] = ['~'];
    proof {
        assert(w_true@ =~= seq!['t', 'r', 'u', 'e']);
        assert(w_true2@ =~= seq!['T', 'r', 'u', 'e']);
        assert(w_true3@ =~= seq!['T', 'R', 'U', 'E']);
        assert(w_false@ =~= seq!['f', 'a', 'l', 's', 'e']);
        assert(w_false2@ =~= seq!['F', 'a', 'l', 's', 'e']);
        assert(w_false3@ =~= seq!['F', 'A', 'L', 'S', 'E']);
        assert(w_null@ =~= seq!['n', 'u', 'l', 'l']);
        assert(w_null2@ =~= seq!['N', 'u', 'l', 'l']);
        assert(w_null3@ =~= seq!['N', 'U', 'L', 'L']);
        assert(w_tilde@ =~= seq!['~']);
    }
    if range_eq(s, lo, hi, &w_true) || range_eq(s, lo, hi, &w_true2) || range_eq(
        s,
        lo,
        hi,
        &w_true3,
    ) {
        return Value::Bool(true);
    }
    if range_eq(s, lo, hi, &w_false) || range_eq(s, lo, hi, &w_false2) || range_eq(
        s,
        lo,
        hi,
        &w_false3,
    ) {
        return Value::Bool(false);
    }
    if range_eq(s, lo, hi, &w_null) || range_eq(s, lo, hi, &w_null2) || range_eq(
        s,
        lo,
        hi,
        &w_null3,
    ) || range_eq(s, lo, hi, &w_tilde) || lo == hi {
        return Value::Null;
    }
    if let Some(i) = parse_i64(s, lo, hi) {
        return Value::Int(i);
    }
    if is_float_text(s, lo, hi) {
        return Value::Float(string_of(s, lo, hi));
    }
    Value::String(string_of(s, lo, hi))
}

/// The words among plain scalars: `true`, `True` and `TRUE` are true;
/// `false`, `False` and `FALSE` are false; `null`, `Null`, `NULL`, `~` and
/// the empty text are null.
pub proof fn law_plain_scalar_words(s: Seq<char>, lo: int, hi: int)
    requires
        0 <= lo <= hi <= s.len(),
    ensures
        ({
            let t = s.subrange(lo, hi);
            &&& (t == "true"@ || t == "True"@ || t == "TRUE"@) ==> plain_scalar(s, lo, hi)
                == ValueModel::Bool(true)
            &&& (t == "false"@ || t == "False"@ || t == "FALSE"@) ==> plain_scalar(s, lo, hi)
                == ValueModel::Bool(false)
            &&& (t == "null"@ || t == "Null"@ || t == "NULL"@ || t == "~"@ || lo == hi)
                ==> plain_scalar(s, lo, hi) == ValueModel::Null
        }),
{
    reveal_strlit("true");
    reveal_strlit("True");
    reveal_strlit("TRUE");
    reveal_strlit("false");
    reveal_strlit("False");
    reveal_strlit("FALSE");
    reveal_strlit("null");
    reveal_strlit("Null");
    reveal_strlit("NULL");
    reveal_strlit("~");
    let t = s.subrange(lo, hi);
    assert("true"@ =~= seq!['t', 'r', 'u', 'e']);
    assert("True"@ =~= seq!['T', 'r', 'u', 'e']);
    assert("TRUE"@ =~= seq!['T', 'R', 'U', 'E']);
    assert("false"@ =~= seq!['f', 'a', 'l', 's', 'e']);
    assert("False"@ =~= seq!['F', 'a', 'l', 's', 'e']);
    assert("FALSE"@ =~= seq!['F', 'A', 'L', 'S', 'E']);
    assert("null"@ =~= seq!['n', 'u', 'l', 'l']);
    assert("Null"@ =~= seq!['N', 'u', 'l', 'l']);
    assert("NULL"@ =~= seq!['N', 'U', 'L', 'L']);
    assert("~"@ =~= seq!['~']);
    if t == "false"@ || t == "False"@ || t == "FALSE"@ {
        assert(t.len() == 5);
        assert(t != seq!['t', 'r', 'u', 'e'] && t != seq!['T', 'r', 'u', 'e'] && t != seq![
            'T',
            'R',
            'U',
            'E',
        ]);
    }
    if t == "null"@ || t == "Null"@ || t == "NULL"@ || t == "~"@ || lo == hi {
        assert(t.len() != 5);
        assert(t != seq!['t', 'r', 'u', 'e'] && t != seq!['T', 'r', 'u', 'e'] && t != seq![
            'T',
            'R',
            'U',
            'E',
        ]) by {
            if t.len() == 4 {
                assert(t[1] != 'r' || t[0] == 'n' || t[0] == 'N');
            }
        }
    }
}

proof fn lemma_digits_value_push(x: Seq<char>, c: char, lo: int, hi: int)
    requires
        0 <= lo <= hi <= x.len(),
    ensures
        digits_value(x.push(c), lo, hi) == digits_value(x, lo, hi),
    decreases hi - lo,
{
    if lo < hi {
        lemma_digits_value_push(x, c, lo, hi - 1);
        assert(x.push(c)[hi - 1] == x[hi - 1]);
    }
}

proof fn lemma_digits_value_shift(p: Seq<char>, x: Seq<char>, k: int)
    requires
        0 <= k <= x.len(),
    ensures
        digits_value(p + x, p.len() as int, p.len() + k) == digits_value(x, 0, k),
    decreases k,
{
    if k > 0 {
        lemma_digits_value_shift(p, x, k - 1);
        assert((p + x)[p.len() + k - 1] == x[k - 1]);
    }
}

proof fn lemma_decimal_digits(m: nat)
    ensures
        decimal(m).len() >= 1,
        all_digits(decimal(m), 0, decimal(m).len() as int),
        digits_value(decimal(m), 0, decimal(m).len() as int) == m,
    decreases m,
{
    let x = decimal(m);
    let d = m % 10;
    assert(digit_char(d) as u32 == d + 48) by {
        assert(d < 10);
    }
    if m < 10 {
        assert(x == seq![digit_char(m)]);
        assert(d == m);
        assert(is_digit(x[0]));
        assert(digits_value(x, 0, 0) == 0);
        assert(digits_value(x, 0, 1) == digits_value(x, 0, 0) * 10 + ((x[0] as u32) - 48) as nat);
    } else {
        lemma_decimal_digits(m / 10);
        let y = decimal(m / 10);
        assert(x == y.push(digit_char(d)));
        lemma_digits_value_push(y, digit_char(d), 0, y.len() as int);
        assert forall|k: int| 0 <= k < x.len() implies is_digit(#[trigger] x[k]) by {
            if k < y.len() {
                assert(x[k] == y[k]);
                assert(is_digit(y[k]));
            }
        }
        assert(m == (m / 10) * 10 + d);
        assert(x[x.len() - 1] == digit_char(d));
        assert(x.len() == y.len() + 1);
        assert(digits_value(x, 0, x.len() as int) == digits_value(x, 0, y.len() as int) * 10 + ((
        x[x.len() - 1] as u32) - 48) as nat);
    }
}

/// An integer of `i64` written in decimal, as a report writes it, reads
/// back as that integer.
pub proof fn law_integer_text_round_trip(n: int)
    requires
        i64::MIN <= n <= i64::MAX,
    ensures
        int_text(signed_decimal(n), 0, signed_decimal(n).len() as int) == Some(n),
        plain_scalar(signed_decimal(n), 0, signed_decimal(n).len() as int) == ValueModel::Int(n),
{
    let t = signed_decimal(n);
    if n < 0 {
        let m = (-n) as nat;
        lemma_decimal_digits(m);
        let x = decimal(m);
        assert(t == seq!['-'] + x);
        lemma_digits_value_shift(seq!['-'], x, x.len() as int);
        assert forall|k: int| 1 <= k < t.len() implies is_digit(#[trigger] t[k]) by {
            assert(t[k] == x[k - 1]);
            assert(is_digit(x[k - 1]));
        }
        assert(t[0] == '-');
    } else {
        lemma_decimal_digits(n as nat);
        assert(is_digit(t[0]));
    }
    let u = t.subrange(0, t.len() as int);
    assert(u =~= t);
    assert(u[0] == '-' || is_digit(u[0]));
}

/// Whether index `k` of the line `s[lo..hi]` starts a comment: a `#`
/// outside quoted scalars, at the start of the line or after whitespace.
pub open spec fn comment_at(s: Seq<char>, lo: int, hi: int, k: int) -> bool {
    &&& lo <= k < hi
    &&& s[k] == '#'
    &&& (k == lo || is_ws(s[k - 1]))
    &&& is_outside(quote_state(s, lo, k))
}

proof fn lemma_comment_cut_first(s: Seq<char>, lo: int, i: int, hi: int, sq: bool, dq: bool, st: bool)
    requires
        0 <= lo <= i <= hi <= s.len(),
        scan_agrees(quote_state(s, lo, i), sq, dq, st, s, i, hi),
    ensures
        ({
            let k = comment_cut(s, lo, i, hi, sq, dq, st);
            &&& i <= k <= hi
            &&& k < hi ==> comment_at(s, lo, hi, k)
            &&& forall|j: int| i <= j < k ==> !comment_at(s, lo, hi, j)
        }),
    decreases hi - i,
{
    if i < hi {
        let q = quote_state(s, lo, i);
        assert(quote_state(s, lo, i + 1) == quote_step(q, s[i]));
        if sq {
            if s[i] == '\'' && i + 1 < hi && s[i + 1] == '\'' {
                assert(quote_state(s, lo, i + 2) == quote_step(quote_state(s, lo, i + 1), s[i + 1]));
                lemma_comment_cut_first(s, lo, i + 2, hi, true, false, false);
            } else {
                lemma_comment_cut_first(s, lo, i + 1, hi, s[i] != '\'', false, false);
            }
        } else if dq {
            lemma_comment_cut_first(s, lo, i + 1, hi, false, s[i] != '"', false);
        } else if s[i] == '\'' && st {
            lemma_comment_cut_first(s, lo, i + 1, hi, true, false, false);
        } else if s[i] == '"' && st {
            lemma_comment_cut_first(s, lo, i + 1, hi, false, true, false);
        } else if s[i] == '#' && (i == lo || is_ws(s[i - 1])) {
        } else {
            lemma_comment_cut_first(
                s,
                lo,
                i + 1,
                hi,
                false,
                false,
                if is_ws(s[i]) {
                    st
                } else {
                    opens_scalar(s[i])
                },
            );
        }
    }
}

/// `strip_comment` cuts a line at its first comment (a `#` outside quoted
/// scalars, at the start of the line or after whitespace), and keeps the
/// whole line when there is none.
pub proof fn law_strip_comment_first(s: Seq<char>, lo: int, hi: int)
    requires
        0 <= lo <= hi <= s.len(),
    ensures
        ({
            let k = comment_cut(s, lo, lo, hi, false, false, true);
            &&& lo <= k <= hi
            &&& k < hi ==> comment_at(s, lo, hi, k)
            &&& forall|j: int| lo <= j < k ==> !comment_at(s, lo, hi, j)
        }),
{
    lemma_comment_cut_first(s, lo, lo, hi, false, false, true);
}

/// How a character is written inside a double-quoted scalar: a backslash,
/// a double quote, a newline and a tab escaped, any other as itself.
pub open spec fn dq_escape_char(c: char) -> Seq<char> {
    if c == '\\' {
        seq!['\\', '\\']
    } else if c == '"' {
        seq!['\\', '"']
    } else if c == '\n' {
        seq!['\\', 'n']
    } else if c == '\t' {
        seq!['\\', 't']
    } else {
        seq![c]
    }
}

/// The text `x` written as the body of a double-quoted scalar.
pub open spec fn dq_escaped(x: Seq<char>) -> Seq<char>
    decreases x.len(),
{
    if x.len() == 0 {
        seq![]
    } else {
        dq_escape_char(x[0]) + dq_escaped(x.drop_first())
    }
}

/// The text `x` written as the body of a single-quoted scalar: each `'`
/// doubled.
pub open spec fn sq_escaped(x: Seq<char>) -> Seq<char>
    decreases x.len(),
{
    if x.len() == 0 {
        seq![]
    } else {
        (if x[0] == '\'' {
            seq!['\'', '\'']
        } else {
            seq![x[0]]
        }) + sq_escaped(x.drop_first())
    }
}

proof fn lemma_dq_unescape_escaped(s: Seq<char>, i: int, hi: int, x: Seq<char>)
    requires
        0 <= i <= hi <= s.len(),
        s.subrange(i, hi) == dq_escaped(x),
    ensures
        dq_unescape(s, i, hi) == x,
    decreases x.len(),
{
    if x.len() == 0 {
        assert(s.subrange(i, hi).len() == 0);
    } else {
        let e = dq_escape_char(x[0]);
        let rest = x.drop_first();
        assert(dq_escaped(x) == e + dq_escaped(rest));
        let w = s.subrange(i, hi);
        assert(w[0] == s[i]);
        assert(w[0] == (e + dq_escaped(rest))[0]);
        if e.len() == 2 {
            assert(w[1] == s[i + 1]);
            assert(w[1] == (e + dq_escaped(rest))[1]);
        }
        let n = e.len() as int;
        assert(s.subrange(i, hi).len() == hi - i);
        assert(s[i] == e[0]);
        if n == 2 {
            assert(s[i + 1] == e[1]);
        }
        assert(s.subrange(i + n, hi) =~= dq_escaped(rest)) by {
            assert(s.subrange(i + n, hi) =~= s.subrange(i, hi).subrange(n, hi - i));
        }
        lemma_dq_unescape_escaped(s, i + n, hi, rest);
        assert(seq![x[0]] + rest =~= x);
    }
}

proof fn lemma_sq_unescape_escaped(s: Seq<char>, i: int, hi: int, x: Seq<char>)
    requires
        0 <= i <= hi <= s.len(),
        s.subrange(i, hi) == sq_escaped(x),
    ensures
        sq_unescape(s, i, hi) == x,
    decreases x.len(),
{
    if x.len() == 0 {
        assert(s.subrange(i, hi).len() == 0);
    } else {
        let e: Seq<char> = if x[0] == '\'' {
            seq!['\'', '\'']
        } else {
            seq![x[0]]
        };
        let rest = x.drop_first();
        assert(sq_escaped(x) == e + sq_escaped(rest));
        let w = s.subrange(i, hi);
        assert(w[0] == s[i]);
        assert(w[0] == (e + sq_escaped(rest))[0]);
        if e.len() == 2 {
            assert(w[1] == s[i + 1]);
            assert(w[1] == (e + sq_escaped(rest))[1]);
        }
        let n = e.len() as int;
        assert(s.subrange(i, hi).len() == hi - i);
        assert(s[i] == e[0]);
        if n == 2 {
            assert(s[i + 1] == e[1]);
        }
        assert(s.subrange(i + n, hi) =~= sq_escaped(rest)) by {
            assert(s.subrange(i + n, hi) =~= s.subrange(i, hi).subrange(n, hi - i));
        }
        lemma_sq_unescape_escaped(s, i + n, hi, rest);
        assert(seq![x[0]] + rest =~= x);
    }
}

/// A text written as a double-quoted scalar (backslash, double quote,
/// newline and tab escaped) or as a single-quoted scalar (each `'`
/// doubled) reads back as that text.
pub proof fn law_quoted_round_trip(x: Seq<char>)
    ensures
        ({
            let d = seq!['"'] + dq_escaped(x) + seq!['"'];
            unquoted(d, 0, d.len() as int) == Some(x)
        }),
        ({
            let q = seq!['\''] + sq_escaped(x) + seq!['\''];
            unquoted(q, 0, q.len() as int) == Some(x)
        }),
{
    let d = seq!['"'] + dq_escaped(x) + seq!['"'];
    assert(d.subrange(1, d.len() - 1) =~= dq_escaped(x));
    lemma_dq_unescape_escaped(d, 1, d.len() - 1, x);
    assert(d[0] == '"' && d[d.len() - 1] == '"');
    let q = seq!['\''] + sq_escaped(x) + seq!['\''];
    assert(q.subrange(1, q.len() - 1) =~= sq_escaped(x));
    lemma_sq_unescape_escaped(q, 1, q.len() - 1, x);
    assert(q[0] == '\'' && q[q.len() - 1] == '\'');
}

} // verus!
