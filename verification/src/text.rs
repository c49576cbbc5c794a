//! Character-level helpers shared by the parser, the linter and the
//! renderers: whitespace classification, trimming of index ranges, line
//! splitting, decimal rendering and string building.
use vstd::prelude::*;
use vstd::std_specs::iter::IteratorSpec;

verus! {

/// The characters of `s`, in order.
pub fn chars_of(s: &str) -> (out: Vec<char>)
    ensures
        out@ == s@,
{
    broadcast use vstd::string::group_string_axioms;

    let mut out: Vec<char> = Vec::new();
    for c in it: s.chars()
        invariant
            out@ == it.seq().take(it.index() as int),
            it.seq() == s@,
    {
        out.push(c);
    }
    out
}

/// Appends one character to a string (`String::push`).
#[verifier::external_body]
pub(crate) fn push_char(s: &mut String, c: char)
    ensures
        final(s)@ == old(s)@.push(c),
{
    s.push(c);
}

/// Appends the characters `chars[lo..hi]` to `out`.
pub fn push_range(out: &mut String, chars: &[char], lo: usize, hi: usize)
    requires
        lo <= hi <= chars@.len(),
    ensures
        final(out)@ == old(out)@ + chars@.subrange(lo as int, hi as int),
{
    let mut i = lo;
    while i < hi
        invariant
            lo <= i <= hi <= chars@.len(),
            out@ == old(out)@ + chars@.subrange(lo as int, i as int),
        decreases hi - i,
    {
        push_char(out, chars[i]);
        i = i + 1;
        assert(chars@.subrange(lo as int, i as int) == chars@.subrange(lo as int, i - 1).push(
            chars@[i - 1],
        ));
    }
}

/// A new string holding `chars[lo..hi]`.
pub fn string_of(chars: &[char], lo: usize, hi: usize) -> (out: String)
    requires
        lo <= hi <= chars@.len(),
    ensures
        out@ == chars@.subrange(lo as int, hi as int),
{
    let mut out = String::new();
    push_range(&mut out, chars, lo, hi);
    out
}

/// Appends all of `s` to `out`.
pub fn push_str(out: &mut String, s: &str)
    ensures
        final(out)@ == old(out)@ + s@,
{
    let cs = chars_of(s);
    push_range(out, cs.as_slice(), 0, cs.len());
    assert(cs@.subrange(0, cs@.len() as int) == cs@);
}

/// The `White_Space` property of the Unicode character database, which is
/// what `char::is_whitespace` tests.
pub open spec fn is_ws(c: char) -> bool {
    ||| c == '\t'
    ||| c == '\n'
    ||| c == '\u{b}'
    ||| c == '\u{c}'
    ||| c == '\r'
    ||| c == ' '
    ||| c == '\u{85}'
    ||| c == '\u{a0}'
    ||| c == '\u{1680}'
    ||| ('\u{2000}' <= c && c <= '\u{200a}')
    ||| c == '\u{2028}'
    ||| c == '\u{2029}'
    ||| c == '\u{202f}'
    ||| c == '\u{205f}'
    ||| c == '\u{3000}'
}

/// Executable form of [`is_ws`].
pub fn is_whitespace(c: char) -> (r: bool)
    ensures
        r == is_ws(c),
{
    c == '\t' || c == '\n' || c == '\u{b}' || c == '\u{c}' || c == '\r' || c == ' ' || c
        == '\u{85}' || c == '\u{a0}' || c == '\u{1680}' || ('\u{2000}' <= c && c <= '\u{200a}')
        || c == '\u{2028}' || c == '\u{2029}' || c == '\u{202f}' || c == '\u{205f}' || c
        == '\u{3000}'
}

/// Number of bytes in the UTF-8 encoding of `c`.
pub open spec fn utf8_width(c: char) -> nat {
    if (c as u32) < 0x80 {
        1
    } else if (c as u32) < 0x800 {
        2
    } else if (c as u32) < 0x10000 {
        3
    } else {
        4
    }
}

/// Number of bytes in the UTF-8 encoding of `s`.
pub open spec fn utf8_len(s: Seq<char>) -> nat
    decreases s.len(),
{
    if s.len() == 0 {
        0
    } else {
        utf8_width(s[0]) + utf8_len(s.drop_first())
    }
}

pub proof fn lemma_utf8_len_add(a: Seq<char>, b: Seq<char>)
    ensures
        utf8_len(a + b) == utf8_len(a) + utf8_len(b),
    decreases a.len(),
{
    if a.len() == 0 {
        assert(a + b =~= b);
    } else {
        lemma_utf8_len_add(a.drop_first(), b);
        assert((a + b).drop_first() =~= a.drop_first() + b);
    }
}

/// The UTF-8 length of a part of `s` is at most that of `s`.
pub proof fn lemma_utf8_len_subrange(s: Seq<char>, lo: int, hi: int)
    requires
        0 <= lo <= hi <= s.len(),
    ensures
        utf8_len(s.subrange(lo, hi)) <= utf8_len(s),
        utf8_len(s.subrange(0, lo)) + utf8_len(s.subrange(lo, hi)) == utf8_len(s.subrange(0, hi)),
{
    lemma_utf8_len_add(s.subrange(0, lo), s.subrange(lo, hi));
    assert(s.subrange(0, lo) + s.subrange(lo, hi) =~= s.subrange(0, hi));
    lemma_utf8_len_add(s.subrange(0, hi), s.subrange(hi, s.len() as int));
    assert(s.subrange(0, hi) + s.subrange(hi, s.len() as int) =~= s);
}

/// The byte length of a string is the sum of its characters' UTF-8 widths.
pub proof fn lemma_utf8_len_bytes(s: Seq<char>)
    ensures
        utf8_len(s) == vstd::utf8::encode_utf8(s).len(),
    decreases s.len(),
{
    if s.len() > 0 {
        lemma_utf8_len_bytes(s.drop_first());
        vstd::utf8::char_is_scalar(s[0]);
    }
}

/// The first index in `lo..hi` whose character is not whitespace, or `hi`
/// when there is none (where `trim_start` cuts).
pub open spec fn skip_ws(s: Seq<char>, lo: int, hi: int) -> int
    decreases hi - lo,
{
    if lo < hi && is_ws(s[lo]) {
        skip_ws(s, lo + 1, hi)
    } else {
        lo
    }
}

/// The index just after the last non-whitespace character in `lo..hi`, or
/// `lo` when there is none (where `trim_end` cuts).
pub open spec fn trim_end_at(s: Seq<char>, lo: int, hi: int) -> int
    decreases hi - lo,
{
    if lo < hi && is_ws(s[hi - 1]) {
        trim_end_at(s, lo, hi - 1)
    } else {
        hi
    }
}

pub proof fn lemma_skip_ws_bounds(s: Seq<char>, lo: int, hi: int)
    requires
        lo <= hi,
    ensures
        lo <= skip_ws(s, lo, hi) <= hi,
        forall|k: int| lo <= k < skip_ws(s, lo, hi) ==> is_ws(#[trigger] s[k]),
        skip_ws(s, lo, hi) < hi ==> !is_ws(s[skip_ws(s, lo, hi)]),
    decreases hi - lo,
{
    if lo < hi && is_ws(s[lo]) {
        lemma_skip_ws_bounds(s, lo + 1, hi);
    }
}

pub proof fn lemma_trim_end_bounds(s: Seq<char>, lo: int, hi: int)
    requires
        lo <= hi,
    ensures
        lo <= trim_end_at(s, lo, hi) <= hi,
        forall|k: int| trim_end_at(s, lo, hi) <= k < hi ==> is_ws(#[trigger] s[k]),
        trim_end_at(s, lo, hi) > lo ==> !is_ws(s[trim_end_at(s, lo, hi) - 1]),
    decreases hi - lo,
{
    if lo < hi && is_ws(s[hi - 1]) {
        lemma_trim_end_bounds(s, lo, hi - 1);
    }
}

/// Executable form of [`skip_ws`].
pub fn skip_whitespace(s: &[char], lo: usize, hi: usize) -> (r: usize)
    requires
        lo <= hi <= s@.len(),
    ensures
        r == skip_ws(s@, lo as int, hi as int),
        lo <= r <= hi,
{
    proof {
        lemma_skip_ws_bounds(s@, lo as int, hi as int);
    }
    let mut i = lo;
    while i < hi && is_whitespace(s[i])
        invariant
            lo <= i <= hi <= s@.len(),
            skip_ws(s@, i as int, hi as int) == skip_ws(s@, lo as int, hi as int),
        decreases hi - i,
    {
        i = i + 1;
    }
    i
}

/// Executable form of [`trim_end_at`].
pub fn trim_end_index(s: &[char], lo: usize, hi: usize) -> (r: usize)
    requires
        lo <= hi <= s@.len(),
    ensures
        r == trim_end_at(s@, lo as int, hi as int),
        lo <= r <= hi,
{
    proof {
        lemma_trim_end_bounds(s@, lo as int, hi as int);
    }
    let mut j = hi;
    while j > lo && is_whitespace(s[j - 1])
        invariant
            lo <= j <= hi <= s@.len(),
            trim_end_at(s@, lo as int, j as int) == trim_end_at(s@, lo as int, hi as int),
        decreases j - lo,
    {
        j = j - 1;
    }
    j
}

/// UTF-8 byte length of `s[lo..hi]`.
pub fn utf8_len_of(s: &[char], lo: usize, hi: usize) -> (n: usize)
    requires
        lo <= hi <= s@.len(),
        utf8_len(s@) <= usize::MAX,
    ensures
        n == utf8_len(s@.subrange(lo as int, hi as int)),
{
    proof {
        lemma_utf8_len_subrange(s@, lo as int, hi as int);
    }
    let mut n: usize = 0;
    let mut i = lo;
    while i < hi
        invariant
            lo <= i <= hi <= s@.len(),
            utf8_len(s@.subrange(lo as int, hi as int)) <= usize::MAX,
            n == utf8_len(s@.subrange(lo as int, i as int)),
        decreases hi - i,
    {
        let c = s[i];
        let w: usize = if (c as u32) < 0x80 {
            1
        } else if (c as u32) < 0x800 {
            2
        } else if (c as u32) < 0x10000 {
            3
        } else {
            4
        };
        proof {
            let t = s@.subrange(lo as int, hi as int);
            lemma_utf8_len_add(s@.subrange(lo as int, i as int), seq![c]);
            assert(s@.subrange(lo as int, i as int) + seq![c] =~= s@.subrange(lo as int, i + 1));
            assert(utf8_len(seq![c]) == utf8_width(c)) by {
                assert(seq![c].drop_first() =~= Seq::<char>::empty());
                assert(utf8_len(Seq::<char>::empty()) == 0);
            }
            lemma_utf8_len_subrange(t, 0, i + 1 - lo);
            assert(t.subrange(0, i + 1 - lo) =~= s@.subrange(lo as int, i + 1));
        }
        n = n + w;
        i = i + 1;
    }
    n
}

/// The index of the first `\n` at or after `i`, or the length.
pub open spec fn next_newline(s: Seq<char>, i: int) -> int
    decreases s.len() - i,
{
    if i >= s.len() {
        s.len() as int
    } else if s[i] == '\n' {
        i
    } else {
        next_newline(s, i + 1)
    }
}

pub proof fn lemma_next_newline_bounds(s: Seq<char>, i: int)
    requires
        0 <= i <= s.len(),
    ensures
        i <= next_newline(s, i) <= s.len(),
        next_newline(s, i) < s.len() ==> s[next_newline(s, i)] == '\n',
    decreases s.len() - i,
{
    if i < s.len() && s[i] != '\n' {
        lemma_next_newline_bounds(s, i + 1);
    }
}

/// The lines of `s` from `from` on, as `str::lines` yields them: split at
/// each `\n`, with one `\r` before the `\n` removed too, and no empty
/// line after a final `\n`. Each line is a range of `s`.
pub open spec fn line_spans(s: Seq<char>, from: int) -> Seq<(int, int)>
    decreases s.len() - from,
{
    if from < 0 || from >= s.len() {
        seq![]
    } else {
        proof {
            lemma_next_newline_bounds(s, from);
        }
        let e = next_newline(s, from);
        let end = if e < s.len() && e > from && s[e - 1] == '\r' {
            e - 1
        } else {
            e
        };
        if e >= s.len() {
            seq![(from, end)]
        } else {
            seq![(from, end)] + line_spans(s, e + 1)
        }
    }
}

/// The lines of `s`, as ranges.
pub open spec fn lines_of(s: Seq<char>) -> Seq<(int, int)> {
    line_spans(s, 0)
}

pub proof fn lemma_line_spans_facts(s: Seq<char>, from: int)
    requires
        0 <= from,
    ensures
        line_spans(s, from).len() <= s.len() - from || line_spans(s, from).len() == 0,
        forall|k: int|
            0 <= k < line_spans(s, from).len() ==> from <= (#[trigger] line_spans(s, from)[k]).0
                <= line_spans(s, from)[k].1 <= s.len(),
    decreases s.len() - from,
{
    if from < s.len() {
        lemma_next_newline_bounds(s, from);
        let e = next_newline(s, from);
        if e < s.len() {
            lemma_line_spans_facts(s, e + 1);
        }
        let rest = if e < s.len() {
            line_spans(s, e + 1)
        } else {
            seq![]
        };
        let end = if e < s.len() && e > from && s[e - 1] == '\r' {
            e - 1
        } else {
            e
        };
        assert(line_spans(s, from) == seq![(from, end)] + rest);
        assert forall|k: int| 0 <= k < line_spans(s, from).len() implies from <= (
        #[trigger] line_spans(s, from)[k]).0 <= line_spans(s, from)[k].1 <= s.len() by {
            if k > 0 {
                assert(line_spans(s, from)[k] == rest[k - 1]);
            }
        }
    }
}

/// Splits `s` into lines as `str::lines` does.
pub fn split_lines(s: &[char]) -> (out: Vec<(usize, usize)>)
    ensures
        out@.len() == lines_of(s@).len(),
        forall|k: int|
            0 <= k < out@.len() ==> (#[trigger] out@[k]).0 as int == lines_of(s@)[k].0
                && out@[k].1 as int == lines_of(s@)[k].1,
        out@.len() <= s@.len(),
        forall|k: int| 0 <= k < out@.len() ==> (#[trigger] out@[k]).0 <= out@[k].1 <= s@.len(),
{
    let n = s.len();
    let mut out: Vec<(usize, usize)> = Vec::new();
    let mut from: usize = 0;
    proof {
        lemma_line_spans_facts(s@, 0);
    }
    while from < n
        invariant_except_break
            out@.len() + line_spans(s@, from as int).len() == lines_of(s@).len(),
            forall|k: int|
                0 <= k < line_spans(s@, from as int).len() ==> (#[trigger] line_spans(
                    s@,
                    from as int,
                )[k]) == lines_of(s@)[out@.len() + k],
        invariant
            n == s@.len(),
            from <= n,
            forall|k: int|
                0 <= k < out@.len() ==> (#[trigger] out@[k]).0 as int == lines_of(s@)[k].0
                    && out@[k].1 as int == lines_of(s@)[k].1,
        ensures
            out@.len() == lines_of(s@).len(),
        decreases n - from,
    {
        let ghost rest = line_spans(s@, from as int);
        proof {
            lemma_next_newline_bounds(s@, from as int);
        }
        let mut e = from;
        while e < n && s[e] != '\n'
            invariant
                from <= e <= n,
                n == s@.len(),
                next_newline(s@, e as int) == next_newline(s@, from as int),
            decreases n - e,
        {
            e = e + 1;
        }
        let end = if e < n && e > from && s[e - 1] == '\r' {
            e - 1
        } else {
            e
        };
        proof {
            assert(rest[0] == (from as int, end as int));
            if e < n {
                assert(line_spans(s@, e + 1) =~= rest.drop_first());
            } else {
                assert(rest.len() == 1);
            }
            assert(lines_of(s@)[out@.len() as int] == rest[0]);
        }
        out.push((from, end));
        if e >= n {
            break;
        }
        from = e + 1;
    }
    proof {
        lemma_line_spans_facts(s@, 0);
    }
    out
}

/// The decimal digit character for `d < 10`.
pub open spec fn digit_char(d: nat) -> char {
    ((d + 48) as u32) as char
}

/// Decimal rendering of a natural number, as `Display` writes it.
pub open spec fn decimal(n: nat) -> Seq<char>
    decreases n,
{
    if n < 10 {
        seq![digit_char(n)]
    } else {
        decimal(n / 10).push(digit_char(n % 10))
    }
}

/// Decimal rendering of an integer, as `Display` writes it.
pub open spec fn signed_decimal(n: int) -> Seq<char> {
    if n < 0 {
        seq!['-'] + decimal((-n) as nat)
    } else {
        decimal(n as nat)
    }
}

fn digit(d: u64) -> (c: char)
    requires
        d < 10,
    ensures
        c == digit_char(d as nat),
{
    let b: u8 = (d as u8) + 48;
    b as char
}

/// Appends the decimal rendering of `n`.
pub fn push_decimal(out: &mut String, n: u64)
    ensures
        final(out)@ == old(out)@ + decimal(n as nat),
    decreases n,
{
    if n >= 10 {
        push_decimal(out, n / 10);
    }
    push_char(out, digit(n % 10));
}

/// Appends the decimal rendering of `n`, with a leading `-` when negative.
pub fn push_signed_decimal(out: &mut String, n: i64)
    ensures
        final(out)@ == old(out)@ + signed_decimal(n as int),
{
    if n < 0 {
        push_char(out, '-');
        let m: u64 = (-(n as i128)) as u64;
        push_decimal(out, m);
    } else {
        push_decimal(out, n as u64);
    }
}

} // verus!
