//! A recursive-descent parser for single-line flow collections
//! (`{a: 1, b: 2}`, `[1, 2, 3]`), nested ones included.
use vstd::prelude::*;

use crate::parser::diags_model;
use crate::parser::entries_model;
use crate::parser::items_model;
use crate::parser::lemma_parser_diags_push;
use crate::parser::parser_diags;
use crate::parser::lemma_diags_model_push;
use crate::parser::lemma_mapping_model;
use crate::parser::lemma_sequence_model;
use crate::parser::Diagnostic;
use crate::parser::DiagnosticModel;
use crate::parser::Severity;
use crate::parser::Value;
use crate::parser::ValueModel;
use crate::scalar::escape_pair;
use crate::scalar::interpret_plain_scalar;
use crate::scalar::is_unsupported;
use crate::scalar::is_unsupported_start;
use crate::scalar::unsupported_error;
use crate::scalar::unsupported_message;
use crate::scalar::plain_scalar;
use crate::text::is_whitespace;
use crate::text::is_ws;
use crate::text::lemma_skip_ws_bounds;
use crate::text::lemma_trim_end_bounds;
use crate::text::push_char;
use crate::text::push_str;
use crate::text::skip_whitespace;
use crate::text::skip_ws;
use crate::text::string_of;
use crate::text::trim_end_at;
use crate::text::trim_end_index;

verus! {

/// What a flow value parses to from a position: the value, the position
/// after it and the diagnostics so far; or an error message.
pub type FlowResult = Result<(ValueModel, int, Seq<DiagnosticModel>), Seq<char>>;

/// The text `format!("{:?}", c)` produces for a character.
pub uninterp spec fn char_debug(c: char) -> Seq<char>;

/// Formats `c` with `char`'s `Debug` implementation (`format!("{:?}", c)`).
/// The contract names the result [`char_debug`] and says nothing of its
/// characters.
#[verifier::external_body]
fn debug_char(c: char) -> (r: String)
    ensures
        r@ == char_debug(c),
{
    format!("{:?}", c)
}

/// How an `Option<char>` is shown in an error message, given the `Debug`
/// text of the character when there is one: `None` or `Some(<text>)`.
pub open spec fn found_phrase(debug: Option<Seq<char>>) -> Seq<char> {
    match debug {
        None => "None"@,
        Some(t) => "Some("@ + t + ")"@,
    }
}

/// Renders what was found where a delimiter was expected: `None` at the
/// end of the input, `Some(<debug>)` for a character whose `Debug` text is
/// `debug`.
pub fn describe_found(debug: Option<String>) -> (r: String)
    ensures
        r@ == found_phrase(
            match debug {
                None => None,
                Some(t) => Some(t@),
            },
        ),
{
    match debug {
        None => String::from_str("None"),
        Some(t) => {
            let mut out = String::from_str("Some(");
            push_str(&mut out, t.as_str());
            push_str(&mut out, ")");
            out
        },
    }
}

/// [`found_phrase`] of the character at `i` in `s`, or of nothing when `i`
/// is past the end.
pub open spec fn found_at(s: Seq<char>, i: int) -> Seq<char> {
    if i < s.len() {
        found_phrase(Some(char_debug(s[i])))
    } else {
        found_phrase(None)
    }
}

/// A flow delimiter: `,`, `}` or `]`.
pub open spec fn is_delim(c: char) -> bool {
    c == ',' || c == '}' || c == ']'
}

/// Where a bare token starting at `i` ends: at the end of input, at a
/// delimiter, or at a `:` followed by whitespace, a delimiter or the end.
pub open spec fn token_end(s: Seq<char>, i: int) -> int
    decreases s.len() - i,
{
    if i >= s.len() {
        i
    } else if is_delim(s[i]) {
        i
    } else if s[i] == ':' && (i + 1 >= s.len() || is_ws(s[i + 1]) || is_delim(s[i + 1])) {
        i
    } else {
        token_end(s, i + 1)
    }
}

pub proof fn lemma_token_end_bounds(s: Seq<char>, i: int)
    requires
        0 <= i <= s.len(),
    ensures
        i <= token_end(s, i) <= s.len(),
    decreases s.len() - i,
{
    if i < s.len() && !is_delim(s[i]) && !(s[i] == ':' && (i + 1 >= s.len() || is_ws(s[i + 1])
        || is_delim(s[i + 1]))) {
        lemma_token_end_bounds(s, i + 1);
    }
}

/// The trimmed range of the bare token starting at `p`, and where it ends.
pub open spec fn token_span(s: Seq<char>, p: int) -> (int, int, int) {
    let e = token_end(s, p);
    let a = skip_ws(s, p, e);
    (a, trim_end_at(s, a, e), e)
}

/// A quoted string's text (without its quotes) and the position after
/// it, or an error message.
pub type QuotedResult = Result<(Seq<char>, int), Seq<char>>;

/// `x` followed by what `r` parsed, if it parsed.
pub open spec fn prepend(x: Seq<char>, r: QuotedResult) -> QuotedResult {
    match r {
        Ok((t, e)) => Ok((x + t, e)),
        Err(m) => Err(m),
    }
}

/// The body of a string quoted by `q` from `i` up to its closing quote.
/// In `'...'`, `''` stands for `'`; in `"..."`, a backslash escape is read
/// as in [`escape_pair`].
pub open spec fn quoted_from(s: Seq<char>, q: char, i: int) -> QuotedResult
    decreases s.len() - i,
{
    if i >= s.len() {
        Err("unterminated quoted string in flow collection"@)
    } else if s[i] == q {
        if q == '\'' && i + 1 < s.len() && s[i + 1] == '\'' {
            prepend(seq!['\''], quoted_from(s, q, i + 2))
        } else {
            Ok((seq![], i + 1))
        }
    } else if s[i] == '\\' && q == '"' {
        if i + 1 >= s.len() {
            Err("unterminated quoted string in flow collection"@)
        } else {
            prepend(escape_pair(s[i + 1]), quoted_from(s, q, i + 2))
        }
    } else {
        prepend(seq![s[i]], quoted_from(s, q, i + 1))
    }
}

pub proof fn lemma_quoted_from_bounds(s: Seq<char>, q: char, i: int)
    requires
        0 <= i,
    ensures
        quoted_from(s, q, i) matches Ok((_, e)) ==> i < e <= s.len(),
    decreases s.len() - i,
{
    if i < s.len() {
        if s[i] == q {
            if q == '\'' && i + 1 < s.len() && s[i + 1] == '\'' {
                lemma_quoted_from_bounds(s, q, i + 2);
            }
        } else if s[i] == '\\' && q == '"' {
            if i + 1 < s.len() {
                lemma_quoted_from_bounds(s, q, i + 2);
            }
        } else {
            lemma_quoted_from_bounds(s, q, i + 1);
        }
    }
}

/// The quoted string opening at `p` (whose character is the quote).
pub open spec fn quoted(s: Seq<char>, p: int) -> QuotedResult {
    quoted_from(s, s[p], p + 1)
}

/// Whether `key` is already a key of `entries`.
pub open spec fn has_key(entries: Seq<(Seq<char>, ValueModel)>, key: Seq<char>) -> bool {
    exists|j: int| 0 <= j < entries.len() && (#[trigger] entries[j]).0 == key
}

/// The warning for a repeated key.
pub open spec fn duplicate_diag(line: int, key: Seq<char>) -> DiagnosticModel {
    DiagnosticModel {
        line,
        severity: Severity::Warning,
        message: "duplicate key '"@ + key + "'"@,
    }
}

/// The flow value starting at `p` (after optional whitespace): a flow
/// mapping, a flow sequence, a quoted string or a bare token typed as a
/// plain scalar. `d` holds the diagnostics so far; duplicate keys in flow
/// mappings add warnings on line `line`.
pub open spec fn flow_value(s: Seq<char>, p: int, line: int, d: Seq<DiagnosticModel>) -> FlowResult
    decreases s.len() - p, 3int,
{
    if !(0 <= p <= s.len()) {
        Err(seq![])
    } else {
        let q = skip_ws(s, p, s.len() as int);
        proof {
            lemma_skip_ws_bounds(s, p, s.len() as int);
        }
        if q >= s.len() {
            Err("unexpected end of input in flow value"@)
        } else if s[q] == '{' {
            flow_mapping(s, q, line, d)
        } else if s[q] == '[' {
            flow_sequence(s, q, line, d)
        } else if s[q] == '"' || s[q] == '\'' {
            match quoted(s, q) {
                Ok((t, e)) => Ok((ValueModel::Str(t), e, d)),
                Err(m) => Err(m),
            }
        } else {
            let (a, b, e) = token_span(s, q);
            if is_unsupported(s, a, b) {
                Err(unsupported_message())
            } else {
                Ok((plain_scalar(s, a, b), e, d))
            }
        }
    }
}

/// The flow mapping whose `{` is at `p`.
pub open spec fn flow_mapping(s: Seq<char>, p: int, line: int, d: Seq<DiagnosticModel>) -> FlowResult
    decreases s.len() - p, 2int,
{
    if !(0 <= p < s.len()) {
        Err(seq![])
    } else {
        let q = skip_ws(s, p + 1, s.len() as int);
        proof {
            lemma_skip_ws_bounds(s, p + 1, s.len() as int);
        }
        if q < s.len() && s[q] == '}' {
            Ok((ValueModel::Mapping(seq![]), q + 1, d))
        } else {
            flow_entries(s, q, line, seq![], d)
        }
    }
}

/// The entries of a flow mapping from `i` on, after the entries already
/// read.
pub open spec fn flow_entries(
    s: Seq<char>,
    i: int,
    line: int,
    entries: Seq<(Seq<char>, ValueModel)>,
    d: Seq<DiagnosticModel>,
) -> FlowResult
    decreases s.len() - i, 1int,
{
    if !(0 <= i <= s.len()) {
        Err(seq![])
    } else {
        let k0 = skip_ws(s, i, s.len() as int);
        proof {
            lemma_skip_ws_bounds(s, i, s.len() as int);
            lemma_token_end_bounds(s, k0);
            if k0 < s.len() {
                lemma_quoted_from_bounds(s, s[k0], k0 + 1);
            }
        }
        let key_r: QuotedResult = if k0 < s.len() && (s[k0] == '"' || s[k0] == '\'') {
            quoted(s, k0)
        } else {
            let (a, b, e) = token_span(s, k0);
            if is_unsupported(s, a, b) {
                Err(unsupported_message())
            } else {
                Ok((s.subrange(a, b), e))
            }
        };
        match key_r {
            Err(m) => Err(m),
            Ok((key, k1)) => {
                if key.len() == 0 {
                    Err("expected a key in flow mapping"@)
                } else {
                    let c = skip_ws(s, k1, s.len() as int);
                    proof {
                        lemma_skip_ws_bounds(s, k1, s.len() as int);
                    }
                    if c >= s.len() || s[c] != ':' {
                        Err("expected ':' in flow mapping, found "@ + found_at(s, c))
                    } else {
                        match flow_value(s, c + 1, line, d) {
                            Err(m) => Err(m),
                            Ok((v, e, d2)) => {
                                if e < c + 1 || e > s.len() {
                                    Err(seq![])
                                } else {
                                    let d3 = if has_key(entries, key) {
                                        d2.push(duplicate_diag(line, key))
                                    } else {
                                        d2
                                    };
                                    let entries2 = entries.push((key, v));
                                    let t = skip_ws(s, e, s.len() as int);
                                    proof {
                                        lemma_skip_ws_bounds(s, e, s.len() as int);
                                    }
                                    if t < s.len() && s[t] == ',' {
                                        flow_entries(s, t + 1, line, entries2, d3)
                                    } else if t < s.len() && s[t] == '}' {
                                        Ok((ValueModel::Mapping(entries2), t + 1, d3))
                                    } else {
                                        Err(
                                            "expected ',' or '}' in flow mapping, found "@
                                                + found_at(s, t),
                                        )
                                    }
                                }
                            },
                        }
                    }
                }
            },
        }
    }
}

/// The flow sequence whose `[` is at `p`.
pub open spec fn flow_sequence(s: Seq<char>, p: int, line: int, d: Seq<DiagnosticModel>) -> FlowResult
    decreases s.len() - p, 2int,
{
    if !(0 <= p < s.len()) {
        Err(seq![])
    } else {
        let q = skip_ws(s, p + 1, s.len() as int);
        proof {
            lemma_skip_ws_bounds(s, p + 1, s.len() as int);
        }
        if q < s.len() && s[q] == ']' {
            Ok((ValueModel::Sequence(seq![]), q + 1, d))
        } else {
            flow_items(s, q, line, seq![], d)
        }
    }
}

/// The items of a flow sequence from `i` on, after the items already read.
pub open spec fn flow_items(
    s: Seq<char>,
    i: int,
    line: int,
    items: Seq<ValueModel>,
    d: Seq<DiagnosticModel>,
) -> FlowResult
    decreases s.len() - i, 4int,
{
    if !(0 <= i <= s.len()) {
        Err(seq![])
    } else {
        match flow_value(s, i, line, d) {
            Err(m) => Err(m),
            Ok((v, e, d2)) => {
                if e < i || e > s.len() {
                    Err(seq![])
                } else {
                    let items2 = items.push(v);
                    let t = skip_ws(s, e, s.len() as int);
                    proof {
                        lemma_skip_ws_bounds(s, e, s.len() as int);
                    }
                    if t < s.len() && s[t] == ',' {
                        flow_items(s, t + 1, line, items2, d2)
                    } else if t < s.len() && s[t] == ']' {
                        Ok((ValueModel::Sequence(items2), t + 1, d2))
                    } else {
                        Err("expected ',' or ']' in flow sequence, found "@ + found_at(s, t))
                    }
                }
            },
        }
    }
}

/// A whole flow collection from `p` on: one flow value and nothing after
/// it but whitespace.
pub open spec fn flow_top(s: Seq<char>, p: int, line: int, d: Seq<DiagnosticModel>) -> Result<
    (ValueModel, Seq<DiagnosticModel>),
    Seq<char>,
> {
    match flow_value(s, p, line, d) {
        Err(m) => Err(m),
        Ok((v, e, d2)) => {
            if skip_ws(s, e, s.len() as int) < s.len() {
                Err("unexpected trailing content after flow collection"@)
            } else {
                Ok((v, d2))
            }
        },
    }
}


/// Whether `entries` already holds `key`.
pub fn contains_key(entries: &Vec<(String, Value)>, key: &String) -> (r: bool)
    ensures
        r == has_key(entries_model(entries@), key@),
{
    let mut j: usize = 0;
    while j < entries.len()
        invariant
            0 <= j <= entries@.len(),
            forall|k: int| 0 <= k < j ==> entries@[k].0@ != key@,
        decreases entries.len() - j,
    {
        if entries[j].0 == *key {
            assert(entries_model(entries@)[j as int].0 == key@);
            return true;
        }
        j = j + 1;
    }
    assert forall|k: int| 0 <= k < entries_model(entries@).len() implies (
    #[trigger] entries_model(entries@)[k]).0 != key@ by {
        assert(entries_model(entries@)[k].0 == entries@[k].0@);
    }
    false
}

pub proof fn lemma_entries_model_push(v: Seq<(String, Value)>, x: (String, Value))
    ensures
        entries_model(v.push(x)) == entries_model(v).push((x.0@, x.1@)),
{
    assert(entries_model(v.push(x)) =~= entries_model(v).push((x.0@, x.1@)));
}

pub proof fn lemma_items_model_push(v: Seq<Value>, x: Value)
    ensures
        items_model(v.push(x)) == items_model(v).push(x@),
{
    assert(items_model(v.push(x)) =~= items_model(v).push(x@));
}

/// An error message followed by a description of what was found at `i`.
fn found_message(prefix: &str, chars: &Vec<char>, i: usize) -> (r: String)
    ensures
        r@ == prefix@ + found_at(chars@, i as int),
{
    let debug = if i < chars.len() {
        Some(debug_char(chars[i]))
    } else {
        None
    };
    let found = describe_found(debug);
    let mut out = String::from_str(prefix);
    push_str(&mut out, found.as_str());
    out
}

/// A cursor over the text of one flow collection found on line `line`.
pub struct FlowParser {
    pub chars: Vec<char>,
    pub pos: usize,
    pub line: usize,
}

impl FlowParser {
    /// A parser positioned at the start of the text `s[lo..hi]`.
    pub fn new(s: &[char], lo: usize, hi: usize, line: usize) -> (p: FlowParser)
        requires
            lo <= hi <= s@.len(),
        ensures
            p.chars@ == s@.subrange(lo as int, hi as int),
            p.pos == 0,
            p.line == line,
    {
        let mut chars: Vec<char> = Vec::new();
        let mut i = lo;
        while i < hi
            invariant
                lo <= i <= hi <= s@.len(),
                chars@ == s@.subrange(lo as int, i as int),
            decreases hi - i,
        {
            chars.push(s[i]);
            i = i + 1;
            assert(chars@ =~= s@.subrange(lo as int, i as int));
        }
        FlowParser { chars, pos: 0, line }
    }

    /// Parses the rest of the text as one flow value with nothing but
    /// whitespace after it.
    pub fn parse_top(&mut self, diags: &mut Vec<Diagnostic>) -> (r: Result<Value, String>)
        requires
            old(self).pos <= old(self).chars@.len(),
        ensures
            match flow_top(
                old(self).chars@,
                old(self).pos as int,
                old(self).line as int,
                diags_model(old(diags)@),
            ) {
                Ok((v, d)) => r matches Ok(x) && x@ == v && diags_model(final(diags)@) == d,
                Err(m) => r matches Err(x) && x@ == m,
            },
    {
        let value = match self.parse_value(diags) {
            Ok(v) => v,
            Err(m) => {
                return Err(m);
            },
        };
        self.skip_ws();
        if self.pos < self.chars.len() {
            return Err(String::from_str("unexpected trailing content after flow collection"));
        }
        Ok(value)
    }

    /// Moves past whitespace.
    pub fn skip_ws(&mut self)
        requires
            old(self).pos <= old(self).chars@.len(),
        ensures
            final(self).chars == old(self).chars,
            final(self).line == old(self).line,
            final(self).pos == skip_ws(
                old(self).chars@,
                old(self).pos as int,
                old(self).chars@.len() as int,
            ),
            old(self).pos <= final(self).pos <= final(self).chars@.len(),
    {
        let p = skip_whitespace(self.chars.as_slice(), self.pos, self.chars.len());
        self.pos = p;
    }

    /// Parses the flow value at the cursor.
    pub fn parse_value(&mut self, diags: &mut Vec<Diagnostic>) -> (r: Result<Value, String>)
        requires
            old(self).pos <= old(self).chars@.len(),
        ensures
            final(self).chars == old(self).chars,
            final(self).line == old(self).line,
            match flow_value(
                old(self).chars@,
                old(self).pos as int,
                old(self).line as int,
                diags_model(old(diags)@),
            ) {
                Ok((v, e, d)) => r matches Ok(x) && x@ == v && final(self).pos == e && diags_model(
                    final(diags)@,
                ) == d,
                Err(m) => r matches Err(x) && x@ == m,
            },
            r is Ok ==> old(self).pos <= final(self).pos <= final(self).chars@.len(),
        decreases old(self).chars@.len() - old(self).pos, 3int,
    {
        proof {
            lemma_skip_ws_bounds(self.chars@, self.pos as int, self.chars@.len() as int);
        }
        self.skip_ws();
        if self.pos >= self.chars.len() {
            return Err(String::from_str("unexpected end of input in flow value"));
        }
        let c = self.chars[self.pos];
        if c == '{' {
            self.parse_mapping(diags)
        } else if c == '[' {
            self.parse_sequence(diags)
        } else if c == '"' || c == '\'' {
            match self.parse_quoted() {
                Ok(t) => Ok(Value::String(t)),
                Err(m) => Err(m),
            }
        } else {
            let (a, b) = self.parse_token();
            if is_unsupported_start(self.chars.as_slice(), a, b) {
                return Err(unsupported_error());
            }
            Ok(interpret_plain_scalar(self.chars.as_slice(), a, b))
        }
    }

    /// Parses the flow mapping whose `{` is at the cursor.
    pub fn parse_mapping(&mut self, diags: &mut Vec<Diagnostic>) -> (r: Result<Value, String>)
        requires
            old(self).pos < old(self).chars@.len(),
        ensures
            final(self).chars == old(self).chars,
            final(self).line == old(self).line,
            match flow_mapping(
                old(self).chars@,
                old(self).pos as int,
                old(self).line as int,
                diags_model(old(diags)@),
            ) {
                Ok((v, e, d)) => r matches Ok(x) && x@ == v && final(self).pos == e && diags_model(
                    final(diags)@,
                ) == d,
                Err(m) => r matches Err(x) && x@ == m,
            },
            r is Ok ==> old(self).pos < final(self).pos <= final(self).chars@.len(),
        decreases old(self).chars@.len() - old(self).pos, 2int,
    {
        let ghost s = self.chars@;
        let ghost p0 = self.pos as int;
        let _n = self.chars.len();
        let ghost line = self.line as int;
        let ghost d0 = diags_model(diags@);
        self.pos = self.pos + 1;
        let mut entries: Vec<(String, Value)> = Vec::new();
        self.skip_ws();
        if self.pos < self.chars.len() && self.chars[self.pos] == '}' {
            self.pos = self.pos + 1;
            proof {
                lemma_mapping_model(entries);
                assert(entries_model(entries@) =~= Seq::<(Seq<char>, ValueModel)>::empty());
            }
            return Ok(Value::Mapping(entries));
        }
        assert(entries_model(entries@) =~= Seq::<(Seq<char>, ValueModel)>::empty());
        loop
            invariant
                self.chars@ == s,
                self.chars == old(self).chars,
                s == old(self).chars@,
                self.line == line,
                p0 < self.pos <= s.len(),
                0 <= p0 < s.len(),
                p0 == old(self).pos,
                line == old(self).line,
                d0 == diags_model(old(diags)@),
                flow_mapping(s, p0, line, d0) == flow_entries(
                    s,
                    self.pos as int,
                    line,
                    entries_model(entries@),
                    diags_model(diags@),
                ),
            decreases s.len() - self.pos,
        {
            let ghost i = self.pos as int;
            let ghost ents = entries_model(entries@);
            let ghost dd = diags_model(diags@);
            proof {
                lemma_skip_ws_bounds(s, i, s.len() as int);
            }
            self.skip_ws();
            let key = if self.pos < self.chars.len() && (self.chars[self.pos] == '"'
                || self.chars[self.pos] == '\'') {
                match self.parse_quoted() {
                    Ok(k) => k,
                    Err(m) => {
                        return Err(m);
                    },
                }
            } else {
                let (a, b) = self.parse_token();
                if is_unsupported_start(self.chars.as_slice(), a, b) {
                    return Err(unsupported_error());
                }
                string_of(self.chars.as_slice(), a, b)
            };
            if key.as_str().is_empty() {
                return Err(String::from_str("expected a key in flow mapping"));
            }
            self.skip_ws();
            if self.pos >= self.chars.len() || self.chars[self.pos] != ':' {
                return Err(
                    found_message("expected ':' in flow mapping, found ", &self.chars, self.pos),
                );
            }
            let ghost c = self.pos as int;
            self.pos = self.pos + 1;
            let value = match self.parse_value(diags) {
                Ok(v) => v,
                Err(m) => {
                    return Err(m);
                },
            };
            let ghost d2 = diags_model(diags@);
            if contains_key(&entries, &key) {
                let mut message = String::from_str("duplicate key '");
                push_str(&mut message, key.as_str());
                push_str(&mut message, "'");
                let diag = Diagnostic { line: self.line, severity: Severity::Warning, message };
                proof {
                    lemma_diags_model_push(diags@, diag);
                }
                diags.push(diag);
            }
            proof {
                lemma_entries_model_push(entries@, (key, value));
            }
            entries.push((key, value));
            let ghost e = self.pos as int;
            proof {
                lemma_skip_ws_bounds(s, e, s.len() as int);
            }
            self.skip_ws();
            if self.pos < self.chars.len() && self.chars[self.pos] == ',' {
                self.pos = self.pos + 1;
            } else if self.pos < self.chars.len() && self.chars[self.pos] == '}' {
                self.pos = self.pos + 1;
                proof {
                    lemma_mapping_model(entries);
                }
                return Ok(Value::Mapping(entries));
            } else {
                return Err(
                    found_message(
                        "expected ',' or '}' in flow mapping, found ",
                        &self.chars,
                        self.pos,
                    ),
                );
            }
        }
    }

    /// Parses the flow sequence whose `[` is at the cursor.
    pub fn parse_sequence(&mut self, diags: &mut Vec<Diagnostic>) -> (r: Result<Value, String>)
        requires
            old(self).pos < old(self).chars@.len(),
        ensures
            final(self).chars == old(self).chars,
            final(self).line == old(self).line,
            match flow_sequence(
                old(self).chars@,
                old(self).pos as int,
                old(self).line as int,
                diags_model(old(diags)@),
            ) {
                Ok((v, e, d)) => r matches Ok(x) && x@ == v && final(self).pos == e && diags_model(
                    final(diags)@,
                ) == d,
                Err(m) => r matches Err(x) && x@ == m,
            },
            r is Ok ==> old(self).pos < final(self).pos <= final(self).chars@.len(),
        decreases old(self).chars@.len() - old(self).pos, 2int,
    {
        let ghost s = self.chars@;
        let ghost p0 = self.pos as int;
        let _n = self.chars.len();
        let ghost line = self.line as int;
        let ghost d0 = diags_model(diags@);
        self.pos = self.pos + 1;
        let mut items: Vec<Value> = Vec::new();
        self.skip_ws();
        if self.pos < self.chars.len() && self.chars[self.pos] == ']' {
            self.pos = self.pos + 1;
            proof {
                lemma_sequence_model(items);
                assert(items_model(items@) =~= Seq::<ValueModel>::empty());
            }
            return Ok(Value::Sequence(items));
        }
        assert(items_model(items@) =~= Seq::<ValueModel>::empty());
        loop
            invariant
                self.chars@ == s,
                self.chars == old(self).chars,
                s == old(self).chars@,
                self.line == line,
                p0 < self.pos <= s.len(),
                0 <= p0 < s.len(),
                p0 == old(self).pos,
                line == old(self).line,
                d0 == diags_model(old(diags)@),
                flow_sequence(s, p0, line, d0) == flow_items(
                    s,
                    self.pos as int,
                    line,
                    items_model(items@),
                    diags_model(diags@),
                ),
            decreases s.len() - self.pos,
        {
            let value = match self.parse_value(diags) {
                Ok(v) => v,
                Err(m) => {
                    return Err(m);
                },
            };
            proof {
                lemma_items_model_push(items@, value);
            }
            items.push(value);
            let ghost e = self.pos as int;
            proof {
                lemma_skip_ws_bounds(s, e, s.len() as int);
            }
            self.skip_ws();
            if self.pos < self.chars.len() && self.chars[self.pos] == ',' {
                self.pos = self.pos + 1;
            } else if self.pos < self.chars.len() && self.chars[self.pos] == ']' {
                self.pos = self.pos + 1;
                proof {
                    lemma_sequence_model(items);
                }
                return Ok(Value::Sequence(items));
            } else {
                return Err(
                    found_message(
                        "expected ',' or ']' in flow sequence, found ",
                        &self.chars,
                        self.pos,
                    ),
                );
            }
        }
    }

    /// Parses the quoted string whose opening quote is at the cursor.
    pub fn parse_quoted(&mut self) -> (r: Result<String, String>)
        requires
            old(self).pos < old(self).chars@.len(),
        ensures
            final(self).chars == old(self).chars,
            final(self).line == old(self).line,
            match quoted(old(self).chars@, old(self).pos as int) {
                Ok((t, e)) => r matches Ok(x) && x@ == t && final(self).pos == e,
                Err(m) => r matches Err(x) && x@ == m,
            },
            r is Ok ==> old(self).pos < final(self).pos <= final(self).chars@.len(),
    {
        let ghost s = self.chars@;
        let ghost p0 = self.pos as int;
        let _n = self.chars.len();
        let quote = self.chars[self.pos];
        self.pos = self.pos + 1;
        let mut out = String::new();
        proof {
            lemma_quoted_from_bounds(s, quote, p0 + 1);
            assert(prepend(out@, quoted_from(s, quote, p0 + 1)) =~= quoted_from(s, quote, p0 + 1))
                by {
                match quoted_from(s, quote, p0 + 1) {
                    Ok((t, e)) => {
                        assert(out@ + t =~= t);
                    },
                    Err(_) => {},
                }
            }
        }
        loop
            invariant
                self.chars@ == s,
                self.chars == old(self).chars,
                s == old(self).chars@,
                self.line == old(self).line,
                p0 == old(self).pos,
                p0 < self.pos <= s.len(),
                quote == s[p0],
                quoted(s, p0) == prepend(out@, quoted_from(s, quote, self.pos as int)),
            decreases s.len() - self.pos,
        {
            let ghost i = self.pos as int;
            let ghost before = out@;
            if self.pos >= self.chars.len() {
                return Err(String::from_str("unterminated quoted string in flow collection"));
            }
            let c = self.chars[self.pos];
            self.pos = self.pos + 1;
            if c == quote {
                if quote == '\'' && self.pos < self.chars.len() && self.chars[self.pos] == '\'' {
                    self.pos = self.pos + 1;
                    push_char(&mut out, '\'');
                    proof {
                        assert(prepend(before, prepend(seq!['\''], quoted_from(s, quote, i + 2)))
                            =~= prepend(out@, quoted_from(s, quote, i + 2))) by {
                            match quoted_from(s, quote, i + 2) {
                                Ok((t, e)) => {
                                    assert(before + (seq!['\''] + t) =~= out@ + t);
                                },
                                Err(_) => {},
                            }
                        }
                    }
                } else {
                    proof {
                        assert(before + seq![] =~= before);
                    }
                    return Ok(out);
                }
            } else if c == '\\' && quote == '"' {
                if self.pos >= self.chars.len() {
                    return Err(String::from_str("unterminated quoted string in flow collection"));
                }
                let e = self.chars[self.pos];
                self.pos = self.pos + 1;
                if e == 'n' {
                    push_char(&mut out, '\n');
                } else if e == 't' {
                    push_char(&mut out, '\t');
                } else if e == '"' {
                    push_char(&mut out, '"');
                } else if e == '\\' {
                    push_char(&mut out, '\\');
                } else {
                    push_char(&mut out, '\\');
                    push_char(&mut out, e);
                }
                proof {
                    assert(out@ =~= before + escape_pair(e));
                    assert(prepend(before, prepend(escape_pair(e), quoted_from(s, quote, i + 2)))
                        =~= prepend(out@, quoted_from(s, quote, i + 2))) by {
                        match quoted_from(s, quote, i + 2) {
                            Ok((t, x)) => {
                                assert(before + (escape_pair(e) + t) =~= out@ + t);
                            },
                            Err(_) => {},
                        }
                    }
                }
            } else {
                push_char(&mut out, c);
                proof {
                    assert(prepend(before, prepend(seq![c], quoted_from(s, quote, i + 1)))
                        =~= prepend(out@, quoted_from(s, quote, i + 1))) by {
                        match quoted_from(s, quote, i + 1) {
                            Ok((t, x)) => {
                                assert(before + (seq![c] + t) =~= out@ + t);
                            },
                            Err(_) => {},
                        }
                    }
                }
            }
        }
    }

    /// Reads a bare token up to the next flow delimiter, returning its
    /// trimmed range. A `:` ends the token only when it acts as a key/value
    /// separator (followed by whitespace, a delimiter, or the end), so
    /// plain scalars like `http://host` survive intact.
    pub fn parse_token(&mut self) -> (r: (usize, usize))
        requires
            old(self).pos <= old(self).chars@.len(),
        ensures
            final(self).chars == old(self).chars,
            final(self).line == old(self).line,
            ({
                let (a, b, e) = token_span(old(self).chars@, old(self).pos as int);
                r.0 == a && r.1 == b && final(self).pos == e
            }),
            old(self).pos <= r.0 <= r.1 <= final(self).pos <= final(self).chars@.len(),
    {
        let ghost s = self.chars@;
        let start = self.pos;
        let n = self.chars.len();
        proof {
            lemma_token_end_bounds(s, start as int);
        }
        let mut i = start;
        while i < n
            invariant
                self.chars@ == s,
                self.chars == old(self).chars,
                s == old(self).chars@,
                n == s.len(),
                start <= i <= n,
                token_end(s, i as int) == token_end(s, start as int),
            ensures
                token_end(s, i as int) == i,
            decreases n - i,
        {
            let c = self.chars[i];
            if c == ',' || c == '}' || c == ']' {
                break;
            }
            if c == ':' {
                if i + 1 >= n || is_whitespace(self.chars[i + 1]) || self.chars[i + 1] == ','
                    || self.chars[i + 1] == '}' || self.chars[i + 1] == ']' {
                    break;
                }
            }
            i = i + 1;
        }
        self.pos = i;
        let a = skip_whitespace(self.chars.as_slice(), start, i);
        let b = trim_end_index(self.chars.as_slice(), a, i);
        (a, b)
    }
}


/// Flow parsing adds only duplicate-key warnings on its own line.
pub proof fn lemma_flow_value_diags(s: Seq<char>, p: int, line: int, d: Seq<DiagnosticModel>, count: int)
    requires
        1 <= line <= count,
        parser_diags(d, count),
    ensures
        flow_value(s, p, line, d) matches Ok((_, e, d2)) ==> parser_diags(d2, count) && p <= e
            <= s.len(),
    decreases s.len() - p, 3int,
{
    if 0 <= p <= s.len() {
        lemma_skip_ws_bounds(s, p, s.len() as int);
        let q = skip_ws(s, p, s.len() as int);
        if q < s.len() {
            if s[q] == '{' {
                lemma_flow_mapping_diags(s, q, line, d, count);
            } else if s[q] == '[' {
                lemma_flow_sequence_diags(s, q, line, d, count);
            } else if s[q] == '"' || s[q] == '\'' {
                lemma_quoted_from_bounds(s, s[q], q + 1);
            } else {
                lemma_token_end_bounds(s, q);
            }
        }
    }
}

proof fn lemma_flow_mapping_diags(s: Seq<char>, p: int, line: int, d: Seq<DiagnosticModel>, count: int)
    requires
        1 <= line <= count,
        parser_diags(d, count),
    ensures
        flow_mapping(s, p, line, d) matches Ok((_, e, d2)) ==> parser_diags(d2, count) && p <= e
            <= s.len(),
    decreases s.len() - p, 2int,
{
    if 0 <= p < s.len() {
        lemma_skip_ws_bounds(s, p + 1, s.len() as int);
        let q = skip_ws(s, p + 1, s.len() as int);
        if !(q < s.len() && s[q] == '}') {
            lemma_flow_entries_diags(s, q, line, seq![], d, count);
        }
    }
}

proof fn lemma_flow_entries_diags(
    s: Seq<char>,
    i: int,
    line: int,
    entries: Seq<(Seq<char>, ValueModel)>,
    d: Seq<DiagnosticModel>,
    count: int,
)
    requires
        1 <= line <= count,
        parser_diags(d, count),
    ensures
        flow_entries(s, i, line, entries, d) matches Ok((_, e, d2)) ==> parser_diags(d2, count)
            && i <= e <= s.len(),
    decreases s.len() - i, 1int,
{
    if 0 <= i <= s.len() {
        lemma_skip_ws_bounds(s, i, s.len() as int);
        let k0 = skip_ws(s, i, s.len() as int);
        lemma_token_end_bounds(s, k0);
        if k0 < s.len() {
            lemma_quoted_from_bounds(s, s[k0], k0 + 1);
        }
        let key_r: QuotedResult = if k0 < s.len() && (s[k0] == '"' || s[k0] == '\'') {
            quoted(s, k0)
        } else {
            let (a, b, e) = token_span(s, k0);
            if is_unsupported(s, a, b) {
                Err(unsupported_message())
            } else {
                Ok((s.subrange(a, b), e))
            }
        };
        if let Ok((key, k1)) = key_r {
            if key.len() != 0 {
                lemma_skip_ws_bounds(s, k1, s.len() as int);
                let c = skip_ws(s, k1, s.len() as int);
                if c < s.len() && s[c] == ':' {
                    lemma_flow_value_diags(s, c + 1, line, d, count);
                    if let Ok((v, e, d2)) = flow_value(s, c + 1, line, d) {
                        if !(e < c + 1 || e > s.len()) {
                            let d3 = if has_key(entries, key) {
                                lemma_parser_diags_push(d2, count, line, key);
                                d2.push(duplicate_diag(line, key))
                            } else {
                                d2
                            };
                            lemma_skip_ws_bounds(s, e, s.len() as int);
                            let t = skip_ws(s, e, s.len() as int);
                            if t < s.len() && s[t] == ',' {
                                lemma_flow_entries_diags(
                                    s,
                                    t + 1,
                                    line,
                                    entries.push((key, v)),
                                    d3,
                                    count,
                                );
                            }
                        }
                    }
                }
            }
        }
    }
}

proof fn lemma_flow_sequence_diags(s: Seq<char>, p: int, line: int, d: Seq<DiagnosticModel>, count: int)
    requires
        1 <= line <= count,
        parser_diags(d, count),
    ensures
        flow_sequence(s, p, line, d) matches Ok((_, e, d2)) ==> parser_diags(d2, count) && p <= e
            <= s.len(),
    decreases s.len() - p, 2int,
{
    if 0 <= p < s.len() {
        lemma_skip_ws_bounds(s, p + 1, s.len() as int);
        let q = skip_ws(s, p + 1, s.len() as int);
        if !(q < s.len() && s[q] == ']') {
            lemma_flow_items_diags(s, q, line, seq![], d, count);
        }
    }
}

proof fn lemma_flow_items_diags(
    s: Seq<char>,
    i: int,
    line: int,
    items: Seq<ValueModel>,
    d: Seq<DiagnosticModel>,
    count: int,
)
    requires
        1 <= line <= count,
        parser_diags(d, count),
    ensures
        flow_items(s, i, line, items, d) matches Ok((_, e, d2)) ==> parser_diags(d2, count) && i
            <= e <= s.len(),
    decreases s.len() - i, 4int,
{
    if 0 <= i <= s.len() {
        lemma_flow_value_diags(s, i, line, d, count);
        if let Ok((v, e, d2)) = flow_value(s, i, line, d) {
            if !(e < i || e > s.len()) {
                lemma_skip_ws_bounds(s, e, s.len() as int);
                let t = skip_ws(s, e, s.len() as int);
                if t < s.len() && s[t] == ',' {
                    lemma_flow_items_diags(s, t + 1, line, items.push(v), d2, count);
                }
            }
        }
    }
}

/// A whole flow collection adds only duplicate-key warnings on its line.
pub proof fn lemma_flow_top_diags(s: Seq<char>, p: int, line: int, d: Seq<DiagnosticModel>, count: int)
    requires
        1 <= line <= count,
        parser_diags(d, count),
    ensures
        flow_top(s, p, line, d) matches Ok((_, d2)) ==> parser_diags(d2, count),
{
    lemma_flow_value_diags(s, p, line, d, count);
}

} // verus!
