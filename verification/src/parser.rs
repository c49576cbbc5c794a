//! The parsed value tree, diagnostics, and the block-structure parser.
use vstd::prelude::*;

use crate::flow::contains_key;
use crate::flow::flow_top;
use crate::flow::has_key;
use crate::flow::lemma_flow_top_diags;
use crate::flow::lemma_entries_model_push;
use crate::flow::lemma_items_model_push;
use crate::flow::FlowParser;
use crate::scalar::colon_split;
use crate::scalar::comment_cut;
use crate::scalar::interpret_plain_scalar;
use crate::scalar::is_flow;
use crate::scalar::is_flow_start;
use crate::scalar::is_item;
use crate::scalar::is_sequence_item;
use crate::scalar::is_unsupported;
use crate::scalar::is_unsupported_start;
use crate::scalar::unsupported_error;
use crate::scalar::unsupported_message;
use crate::scalar::plain_scalar;
use crate::scalar::split_colon;
use crate::scalar::strip_comment;
use crate::scalar::unquote;
use crate::scalar::unquoted;
use crate::text::chars_of;
use crate::text::lemma_skip_ws_bounds;
use crate::text::lemma_trim_end_bounds;
use crate::text::lemma_utf8_len_add;
use crate::text::lemma_utf8_len_bytes;
use crate::text::lemma_utf8_len_subrange;
use crate::text::lemma_line_spans_facts;
use crate::text::lines_of;
use crate::text::push_range;
use crate::text::push_str;
use crate::text::skip_whitespace;
use crate::text::skip_ws;
use crate::text::split_lines;
use crate::text::string_of;
use crate::text::trim_end_at;
use crate::text::trim_end_index;
use crate::text::utf8_len;
use crate::text::utf8_len_of;



verus! {

/// A parsed YAML value. Only the subset of YAML handled by this crate is
/// represented: no anchors, aliases, tags, or multi-document streams.
///
/// A floating-point scalar is kept as the text it was written with (for
/// example `1.5`, `-2e3`, `.5` or `inf`); when parsed, the text is accepted
/// by [`crate::scalar::float_text`], the grammar `f64::from_str` accepts.
/// Two floats compare equal when their texts are equal, so `1.0` and
/// `1.00` differ.
#[derive(Debug, PartialEq)]
pub enum Value {
    Null,
    Bool(bool),
    Int(i64),
    Float(String),
    String(String),
    Sequence(Vec<Value>),
    Mapping(Vec<(String, Value)>),
}

/// The mathematical model of a [`Value`]: strings become character
/// sequences and vectors become sequences.
pub enum ValueModel {
    Null,
    Bool(bool),
    Int(int),
    Float(Seq<char>),
    Str(Seq<char>),
    Sequence(Seq<ValueModel>),
    Mapping(Seq<(Seq<char>, ValueModel)>),
}

impl Value {
    pub open spec fn model(&self) -> ValueModel
        decreases self,
    {
        match self {
            Value::Null => ValueModel::Null,
            Value::Bool(b) => ValueModel::Bool(*b),
            Value::Int(i) => ValueModel::Int(*i as int),
            Value::Float(t) => ValueModel::Float(t@),
            Value::String(s) => ValueModel::Str(s@),
            Value::Sequence(items) => ValueModel::Sequence(
                Seq::new(
                    items.len() as nat,
                    |i: int|
                        if 0 <= i < items.len() {
                            proof {
                                vstd::std_specs::vec::axiom_vec_index_decreases(*items, i);
                            }
                            items[i].model()
                        } else {
                            ValueModel::Null
                        },
                ),
            ),
            Value::Mapping(entries) => ValueModel::Mapping(
                Seq::new(
                    entries.len() as nat,
                    |i: int|
                        if 0 <= i < entries.len() {
                            proof {
                                vstd::std_specs::vec::axiom_vec_index_decreases(*entries, i);
                            }
                            (entries[i].0@, entries[i].1.model())
                        } else {
                            (Seq::empty(), ValueModel::Null)
                        },
                ),
            ),
        }
    }
}

impl View for Value {
    type V = ValueModel;

    open spec fn view(&self) -> ValueModel {
        self.model()
    }
}


/// The models of a sequence of values.
pub open spec fn items_model(v: Seq<Value>) -> Seq<ValueModel> {
    Seq::new(v.len(), |i: int| v[i]@)
}

/// The models of a sequence of mapping entries.
pub open spec fn entries_model(v: Seq<(String, Value)>) -> Seq<(Seq<char>, ValueModel)> {
    Seq::new(v.len(), |i: int| (v[i].0@, v[i].1@))
}

/// The model of a sequence value, in terms of [`items_model`].
pub proof fn lemma_sequence_model(items: Vec<Value>)
    ensures
        Value::Sequence(items)@ == ValueModel::Sequence(items_model(items@)),
{
    let v = Value::Sequence(items);
    match v@ {
        ValueModel::Sequence(t) => {
            assert(t =~= items_model(items@));
        },
        _ => {},
    }
}

/// The model of a mapping value, in terms of [`entries_model`].
pub proof fn lemma_mapping_model(entries: Vec<(String, Value)>)
    ensures
        Value::Mapping(entries)@ == ValueModel::Mapping(entries_model(entries@)),
{
    let v = Value::Mapping(entries);
    match v@ {
        ValueModel::Mapping(t) => {
            assert(t =~= entries_model(entries@));
        },
        _ => {},
    }
}

impl Value {
    /// A copy of this value, with the same model.
    pub fn copy_value(&self) -> (r: Value)
        ensures
            r@ == self@,
        decreases self,
    {
        match self {
            Value::Null => Value::Null,
            Value::Bool(b) => Value::Bool(*b),
            Value::Int(i) => Value::Int(*i),
            Value::Float(t) => Value::Float(t.clone()),
            Value::String(s) => Value::String(s.clone()),
            Value::Sequence(items) => {
                let mut out: Vec<Value> = Vec::new();
                let mut i: usize = 0;
                #[verifier::loop_isolation(false)]
                while i < items.len()
                    invariant
                        0 <= i <= items@.len(),
                        out@.len() == i,
                        forall|k: int| 0 <= k < i ==> (#[trigger] out@[k])@ == items@[k]@,
                    decreases items.len() - i,
                {
                    proof {
                        vstd::std_specs::vec::axiom_vec_index_decreases(*items, i as int);
                    }
                    out.push(items[i].copy_value());
                    i = i + 1;
                }
                proof {
                    lemma_sequence_model(*items);
                    lemma_sequence_model(out);
                    assert(items_model(out@) =~= items_model(items@));
                }
                Value::Sequence(out)
            },
            Value::Mapping(entries) => {
                let mut out: Vec<(String, Value)> = Vec::new();
                let mut i: usize = 0;
                #[verifier::loop_isolation(false)]
                while i < entries.len()
                    invariant
                        0 <= i <= entries@.len(),
                        out@.len() == i,
                        forall|k: int|
                            0 <= k < i ==> (#[trigger] out@[k]).0@ == entries@[k].0@ && out@[k].1@
                                == entries@[k].1@,
                    decreases entries.len() - i,
                {
                    proof {
                        vstd::std_specs::vec::axiom_vec_index_decreases(*entries, i as int);
                    }
                    let (k, v) = &entries[i];
                    out.push((k.clone(), v.copy_value()));
                    i = i + 1;
                }
                proof {
                    lemma_mapping_model(*entries);
                    lemma_mapping_model(out);
                    assert(entries_model(out@) =~= entries_model(entries@));
                }
                Value::Mapping(out)
            },
        }
    }
}

impl Clone for Value {
    fn clone(&self) -> (r: Self)
        ensures
            r@ == self@,
    {
        self.copy_value()
    }
}

/// The value of the first entry whose key is `key`, scanning from `j`.
pub open spec fn lookup_from(entries: Seq<(Seq<char>, ValueModel)>, key: Seq<char>, j: int) -> Option<
    ValueModel,
>
    decreases entries.len() - j,
{
    if j < 0 || j >= entries.len() {
        None
    } else if entries[j].0 == key {
        Some(entries[j].1)
    } else {
        lookup_from(entries, key, j + 1)
    }
}

/// The value of the first entry whose key is `key`.
pub open spec fn lookup(entries: Seq<(Seq<char>, ValueModel)>, key: Seq<char>) -> Option<ValueModel> {
    lookup_from(entries, key, 0)
}

impl Value {
    /// The text of a string value.
    pub fn as_str(&self) -> (r: Option<&str>)
        ensures
            match self@ {
                ValueModel::Str(s) => r matches Some(x) && x@ == s,
                _ => r is None,
            },
    {
        match self {
            Value::String(s) => Some(s.as_str()),
            _ => None,
        }
    }

    /// The entries of a mapping value, in order.
    pub fn as_mapping(&self) -> (r: Option<&[(String, Value)]>)
        ensures
            match self {
                Value::Mapping(m) => r matches Some(x) && x@ == m@,
                _ => r is None,
            },
    {
        match self {
            Value::Mapping(m) => Some(m.as_slice()),
            _ => None,
        }
    }

    /// The items of a sequence value, in order.
    pub fn as_sequence(&self) -> (r: Option<&[Value]>)
        ensures
            match self {
                Value::Sequence(s) => r matches Some(x) && x@ == s@,
                _ => r is None,
            },
    {
        match self {
            Value::Sequence(s) => Some(s.as_slice()),
            _ => None,
        }
    }

    /// Looks up a key if this value is a mapping. Mappings preserve
    /// insertion order rather than hashing, since config files are small
    /// and order-preserving output makes diffs and JSON dumps stable; the
    /// first entry with the key wins.
    pub fn get(&self, key: &str) -> (r: Option<&Value>)
        ensures
            match self@ {
                ValueModel::Mapping(es) => match lookup(es, key@) {
                    Some(v) => r matches Some(x) && x@ == v,
                    None => r is None,
                },
                _ => r is None,
            },
    {
        match self {
            Value::Mapping(entries) => {
                proof {
                    lemma_mapping_model(*entries);
                }
                let ghost m = entries_model(entries@);
                let wanted = String::from_str(key);
                let mut j: usize = 0;
                while j < entries.len()
                    invariant
                        0 <= j <= entries@.len(),
                        m == entries_model(entries@),
                        wanted@ == key@,
                        self@ == ValueModel::Mapping(m),
                        lookup(m, key@) == lookup_from(m, key@, j as int),
                    decreases entries.len() - j,
                {
                    if entries[j].0 == wanted {
                        proof {
                            assert(m[j as int] == (entries@[j as int].0@, entries@[j as int].1@));
                        }
                        return Some(&entries[j].1);
                    }
                    j = j + 1;
                }
                None
            },
            _ => None,
        }
    }
}

/// Ordered `Warning < Error` so a minimum-severity filter can compare
/// against it directly.
#[derive(Debug, Clone, Copy, PartialEq, Eq, Structural, PartialOrd, Ord)]
pub enum Severity {
    Warning,
    Error,
}

/// The rank of a severity in the order `Warning < Error`.
pub open spec fn rank(s: Severity) -> int {
    match s {
        Severity::Warning => 0,
        Severity::Error => 1,
    }
}

impl Severity {
    /// Whether `self >= other` in the order `Warning < Error`.
    pub fn at_least(&self, other: &Severity) -> (r: bool)
        ensures
            r == (rank(*self) >= rank(*other)),
    {
        match (self, other) {
            (Severity::Warning, Severity::Error) => false,
            _ => true,
        }
    }

    /// The lower-case name of the severity (`warning` or `error`), as it
    /// is displayed.
    pub fn as_string(&self) -> (r: String)
        ensures
            r@ == severity_name(*self),
    {
        match self {
            Severity::Warning => String::from_str("warning"),
            Severity::Error => String::from_str("error"),
        }
    }
}

/// The displayed name of a severity.
pub open spec fn severity_name(s: Severity) -> Seq<char> {
    match s {
        Severity::Warning => "warning"@,
        Severity::Error => "error"@,
    }
}

/// A finding about the input, located by a 1-based line number.
#[derive(Debug, Clone)]
pub struct Diagnostic {
    pub line: usize,
    pub severity: Severity,
    pub message: String,
}

/// The model of a [`Diagnostic`].
pub struct DiagnosticModel {
    pub line: int,
    pub severity: Severity,
    pub message: Seq<char>,
}

impl View for Diagnostic {
    type V = DiagnosticModel;

    open spec fn view(&self) -> DiagnosticModel {
        DiagnosticModel { line: self.line as int, severity: self.severity, message: self.message@ }
    }
}

/// The models of a sequence of diagnostics.
pub open spec fn diags_model(v: Seq<Diagnostic>) -> Seq<DiagnosticModel> {
    Seq::new(v.len(), |i: int| v[i]@)
}

pub proof fn lemma_diags_model_push(v: Seq<Diagnostic>, d: Diagnostic)
    ensures
        diags_model(v.push(d)) == diags_model(v).push(d@),
{
    assert(diags_model(v.push(d)) =~= diags_model(v).push(d@));
}

/// A diagnostic the parser raises: a duplicate-key warning on one of the
/// lines `1..=count`.
pub open spec fn parser_diag(d: DiagnosticModel, count: int) -> bool {
    &&& 1 <= d.line <= count
    &&& d.severity == Severity::Warning
    &&& exists|key: Seq<char>| d.message == "duplicate key '"@ + key + "'"@
}

/// Every diagnostic in `d` is a [`parser_diag`].
pub open spec fn parser_diags(d: Seq<DiagnosticModel>, count: int) -> bool {
    forall|k: int| 0 <= k < d.len() ==> parser_diag(#[trigger] d[k], count)
}

pub proof fn lemma_parser_diags_push(d: Seq<DiagnosticModel>, count: int, line: int, key: Seq<char>)
    requires
        parser_diags(d, count),
        1 <= line <= count,
    ensures
        parser_diags(
            d.push(
                DiagnosticModel {
                    line,
                    severity: Severity::Warning,
                    message: "duplicate key '"@ + key + "'"@,
                },
            ),
            count,
        ),
{
    let x = DiagnosticModel {
        line,
        severity: Severity::Warning,
        message: "duplicate key '"@ + key + "'"@,
    };
    assert forall|k: int| 0 <= k < d.push(x).len() implies parser_diag(#[trigger] d.push(x)[k], count) by {
        if k < d.len() {
            assert(d.push(x)[k] == d[k]);
        } else {
            assert(d.push(x)[k] == x);
            assert(x.message == "duplicate key '"@ + key + "'"@);
        }
    }
}

/// A parse failure: the 1-based line it was found on and what went wrong.
#[derive(Debug, Clone)]
pub struct ParseError {
    pub line: usize,
    pub message: String,
}

/// The result of a successful parse: the value tree plus the warnings
/// collected along the way.
#[derive(Debug)]
pub struct Document {
    pub value: Value,
    pub diagnostics: Vec<Diagnostic>,
}


/// The model of a [`ParseError`].
pub struct ParseErrorModel {
    pub line: int,
    pub message: Seq<char>,
}

impl View for ParseError {
    type V = ParseErrorModel;

    open spec fn view(&self) -> ParseErrorModel {
        ParseErrorModel { line: self.line as int, message: self.message@ }
    }
}

/// A significant (non-blank, non-comment) line: its indentation in bytes,
/// the range of its content in the input, and its 1-based number.
#[derive(Debug, Clone, Copy)]
pub struct Line {
    pub indent: usize,
    pub start: usize,
    pub end: usize,
    pub number: usize,
}

/// The significant line made from the raw line `s[a..b]` numbered
/// `number`: the comment is cut off, trailing whitespace trimmed, and the
/// leading whitespace becomes the indentation. `None` for a blank line.
pub open spec fn line_of(s: Seq<char>, a: int, b: int, number: int) -> Option<Line> {
    let cut = comment_cut(s, a, a, b, false, false, true);
    let t = trim_end_at(s, a, cut);
    let c = skip_ws(s, a, t);
    if c == t {
        None
    } else {
        Some(
            Line {
                indent: utf8_len(s.subrange(a, c)) as usize,
                start: c as usize,
                end: t as usize,
                number: number as usize,
            },
        )
    }
}

/// The significant lines among the raw lines `spans[i..]` of `s`.
pub open spec fn lines_from(s: Seq<char>, spans: Seq<(int, int)>, i: int) -> Seq<Line>
    decreases spans.len() - i,
{
    if i < 0 || i >= spans.len() {
        seq![]
    } else {
        (match line_of(s, spans[i].0, spans[i].1, i + 1) {
            Some(l) => seq![l],
            None => seq![],
        }) + lines_from(s, spans, i + 1)
    }
}

/// The significant lines of the input `s`, in order.
pub open spec fn significant_lines(s: Seq<char>) -> Seq<Line> {
    lines_from(s, lines_of(s), 0)
}

/// Lines whose contents are non-empty ranges of `s` and whose
/// indentation is at most the byte offset of their content.
pub open spec fn wf_lines(s: Seq<char>, ls: Seq<Line>) -> bool {
    forall|k: int|
        0 <= k < ls.len() ==> {
            &&& (#[trigger] ls[k]).start < ls[k].end <= s.len()
            &&& ls[k].indent <= utf8_len(s.subrange(0, ls[k].start as int))
        }
}

/// How far the lines nested under an entry starting at `start` reach:
/// the end of the run of lines indented more than `indent`.
pub open spec fn nested_end(ls: Seq<Line>, start: int, indent: int) -> int
    decreases ls.len() - start,
{
    if start < ls.len() && ls[start].indent > indent {
        nested_end(ls, start + 1, indent)
    } else {
        start
    }
}

pub proof fn lemma_nested_end_bounds(ls: Seq<Line>, start: int, indent: int)
    requires
        0 <= start <= ls.len(),
    ensures
        start <= nested_end(ls, start, indent) <= ls.len(),
    decreases ls.len() - start,
{
    if start < ls.len() && ls[start].indent > indent {
        lemma_nested_end_bounds(ls, start + 1, indent);
    }
}

/// Content length of the first line (0 when there is none).
pub open spec fn first_len(ls: Seq<Line>) -> int {
    if ls.len() > 0 {
        ls[0].end - ls[0].start
    } else {
        0
    }
}

/// What a block parses to: its value, how many lines it used, and the
/// diagnostics so far; or the error.
pub type BlockResult = Result<(ValueModel, int, Seq<DiagnosticModel>), ParseErrorModel>;

/// A value with the diagnostics so far, or the error.
pub type ItemResult = Result<(ValueModel, Seq<DiagnosticModel>), ParseErrorModel>;

/// An error on line `line`.
pub open spec fn error_at(line: int, message: Seq<char>) -> ParseErrorModel {
    ParseErrorModel { line, message }
}

/// The scalar or flow collection `s[lo..hi]` (trimmed first) on line
/// `line`.
pub open spec fn scalar_value(s: Seq<char>, lo: int, hi: int, line: int, d: Seq<DiagnosticModel>) -> ItemResult {
    let a = skip_ws(s, lo, hi);
    let b = trim_end_at(s, a, hi);
    if is_flow(s, a, b) {
        match flow_top(s.subrange(a, b), 0, line, d) {
            Ok((v, d2)) => Ok((v, d2)),
            Err(m) => Err(error_at(line, m)),
        }
    } else if unquoted(s, a, b) is Some {
        Ok((ValueModel::Str(unquoted(s, a, b).unwrap()), d))
    } else if is_unsupported(s, a, b) {
        Err(error_at(line, unsupported_message()))
    } else {
        Ok((plain_scalar(s, a, b), d))
    }
}

/// The lines `ls` parsed as one block: a sequence when the first line is
/// a `- ` item, a mapping otherwise, at the first line's indentation.
pub open spec fn block_spec(s: Seq<char>, ls: Seq<Line>, d: Seq<DiagnosticModel>) -> BlockResult
    decreases ls.len(), first_len(ls), 2int, 0int,
{
    if ls.len() == 0 {
        Ok((ValueModel::Null, 0, d))
    } else if is_item(s, ls[0].start as int, ls[0].end as int) {
        seq_items(s, ls, ls[0].indent as int, 0, seq![], d)
    } else {
        map_entries(s, ls, ls[0].indent as int, 0, seq![], d)
    }
}

/// The entries of a block mapping at `indent` from line `i` on, after the
/// entries already read.
pub open spec fn map_entries(
    s: Seq<char>,
    ls: Seq<Line>,
    indent: int,
    i: int,
    entries: Seq<(Seq<char>, ValueModel)>,
    d: Seq<DiagnosticModel>,
) -> BlockResult
    decreases ls.len(), first_len(ls), 1int, ls.len() - i,
{
    if !(0 <= i < ls.len() && ls[i].indent == indent) || is_item(
        s,
        ls[i].start as int,
        ls[i].end as int,
    ) {
        Ok((ValueModel::Mapping(entries), i, d))
    } else {
        let l = ls[i];
        let number = l.number as int;
        match colon_split(s, l.start as int, l.end as int) {
            None => Err(
                error_at(
                    number,
                    "expected 'key: value', found '"@ + s.subrange(l.start as int, l.end as int)
                        + "'"@,
                ),
            ),
            Some(((ka, kb), (va, vb))) => if is_unsupported(s, ka, kb) {
                Err(error_at(number, unsupported_message()))
            } else {
                let key = match unquoted(s, ka, kb) {
                    Some(u) => u,
                    None => s.subrange(ka, kb),
                };
                let d1 = if has_key(entries, key) {
                    d.push(
                        DiagnosticModel {
                            line: number,
                            severity: Severity::Warning,
                            message: "duplicate key '"@ + key + "'"@,
                        },
                    )
                } else {
                    d
                };
                proof {
                    lemma_nested_end_bounds(ls, i + 1, indent);
                }
                let j = nested_end(ls, i + 1, indent);
                let nested = ls.subrange(i + 1, j);
                let value_r: ItemResult = if va < vb {
                    if nested.len() > 0 && !is_unsupported(s, va, vb) {
                        Err(
                            error_at(
                                nested[0].number as int,
                                "unexpected indentation after '"@ + key + "'"@,
                            ),
                        )
                    } else {
                        scalar_value(s, va, vb, number, d1)
                    }
                } else if nested.len() == 0 {
                    Ok((ValueModel::Null, d1))
                } else {
                    match block_spec(s, nested, d1) {
                        Err(e) => Err(e),
                        Ok((v, consumed, d2)) => {
                            if consumed != nested.len() {
                                Err(
                                    error_at(
                                        nested[consumed].number as int,
                                        "unexpected indentation"@,
                                    ),
                                )
                            } else {
                                Ok((v, d2))
                            }
                        },
                    }
                };
                match value_r {
                    Err(e) => Err(e),
                    Ok((v, d2)) => map_entries(s, ls, indent, j, entries.push((key, v)), d2),
                }
            },
        }
    }
}

/// The items of a block sequence at `indent` from line `i` on, after the
/// items already read.
pub open spec fn seq_items(
    s: Seq<char>,
    ls: Seq<Line>,
    indent: int,
    i: int,
    items: Seq<ValueModel>,
    d: Seq<DiagnosticModel>,
) -> BlockResult
    decreases ls.len(), first_len(ls), 1int, ls.len() - i,
{
    if !(0 <= i < ls.len() && ls[i].indent == indent && is_item(
        s,
        ls[i].start as int,
        ls[i].end as int,
    )) {
        Ok((ValueModel::Sequence(items), i, d))
    } else {
        let l = ls[i];
        let number = l.number as int;
        let r = skip_ws(s, l.start + 1, l.end as int);
        proof {
            lemma_skip_ws_bounds(s, l.start + 1, l.end as int);
            lemma_nested_end_bounds(ls, i + 1, indent);
        }
        let synthetic_indent = indent + utf8_len(s.subrange(l.start + 1, r)) + 1;
        let j = nested_end(ls, i + 1, indent);
        let nested = ls.subrange(i + 1, j);
        let item_r: ItemResult = if r == l.end {
            if nested.len() == 0 {
                Ok((ValueModel::Null, d))
            } else {
                match block_spec(s, nested, d) {
                    Err(e) => Err(e),
                    Ok((v, consumed, d2)) => {
                        if consumed != nested.len() {
                            Err(error_at(nested[consumed].number as int, "unexpected indentation"@))
                        } else {
                            Ok((v, d2))
                        }
                    },
                }
            }
        } else if is_flow(s, r, l.end as int) {
            if nested.len() > 0 {
                Err(
                    error_at(
                        nested[0].number as int,
                        "unexpected indentation after flow collection"@,
                    ),
                )
            } else {
                scalar_value(s, r, l.end as int, number, d)
            }
        } else if is_item(s, r, l.end as int) || colon_split(s, r, l.end as int) is Some {
            let synthetic = Line {
                indent: synthetic_indent as usize,
                start: r as usize,
                end: l.end,
                number: l.number,
            };
            let combined = seq![synthetic] + nested;
            match block_spec(s, combined, d) {
                Err(e) => Err(e),
                Ok((v, consumed, d2)) => {
                    if consumed != combined.len() {
                        Err(error_at(combined[consumed].number as int, "unexpected indentation"@))
                    } else {
                        Ok((v, d2))
                    }
                },
            }
        } else {
            if nested.len() > 0 && !is_unsupported(s, r, l.end as int) {
                Err(
                    error_at(
                        nested[0].number as int,
                        "unexpected indentation after scalar sequence item"@,
                    ),
                )
            } else {
                scalar_value(s, r, l.end as int, number, d)
            }
        };
        match item_r {
            Err(e) => Err(e),
            Ok((v, d2)) => seq_items(s, ls, indent, j, items.push(v), d2),
        }
    }
}

/// The whole input `s` parsed: `Null` when it has no significant lines,
/// otherwise one block that must use every significant line.
pub open spec fn parse_spec(s: Seq<char>) -> Result<(ValueModel, Seq<DiagnosticModel>), ParseErrorModel> {
    let ls = significant_lines(s);
    if ls.len() == 0 {
        Ok((ValueModel::Null, seq![]))
    } else {
        match block_spec(s, ls, seq![]) {
            Err(e) => Err(e),
            Ok((v, consumed, d)) => {
                if consumed != ls.len() {
                    Err(error_at(ls[consumed].number as int, "unexpected indentation"@))
                } else {
                    Ok((v, d))
                }
            },
        }
    }
}


/// Splits the input into its significant lines: comments cut off,
/// trailing whitespace trimmed, blank lines dropped, and the leading
/// whitespace measured (in bytes) as the indentation.
pub fn preprocess(s: &[char]) -> (out: Vec<Line>)
    requires
        utf8_len(s@) <= usize::MAX,
    ensures
        out@ == significant_lines(s@),
        wf_lines(s@, out@),
{
    let spans = split_lines(s);
    let ghost all = lines_of(s@);
    let mut out: Vec<Line> = Vec::new();
    let mut i: usize = 0;
    while i < spans.len()
        invariant
            all == lines_of(s@),
            spans@.len() == all.len(),
            forall|k: int|
                0 <= k < spans@.len() ==> (#[trigger] spans@[k]).0 as int == all[k].0
                    && spans@[k].1 as int == all[k].1,
            forall|k: int| 0 <= k < spans@.len() ==> (#[trigger] spans@[k]).0 <= spans@[k].1 <= s@.len(),
            spans@.len() <= s@.len(),
            utf8_len(s@) <= usize::MAX,
            0 <= i <= spans@.len(),
            out@ + lines_from(s@, all, i as int) == lines_from(s@, all, 0),
            wf_lines(s@, out@),
        decreases spans.len() - i,
    {
        let (a, b) = spans[i];
        let cut = strip_comment(s, a, b);
        let t = trim_end_index(s, a, cut);
        let c = skip_whitespace(s, a, t);
        let ghost before = out@;
        proof {
            assert(lines_from(s@, all, i as int) == (match line_of(s@, all[i as int].0, all[i as int].1, i + 1) {
                Some(l) => seq![l],
                None => seq![],
            }) + lines_from(s@, all, i + 1));
        }
        if c != t {
            let indent = utf8_len_of(s, a, c);
            let line = Line { indent, start: c, end: t, number: i + 1 };
            proof {
                lemma_utf8_len_subrange(s@, a as int, c as int);
                assert(line_of(s@, a as int, b as int, i + 1) == Some(line));
            }
            out.push(line);
            proof {
                assert(out@ + lines_from(s@, all, i + 1) =~= before + lines_from(s@, all, i as int));
            }
        } else {
            proof {
                assert(before + lines_from(s@, all, i + 1) =~= before + lines_from(s@, all, i as int));
            }
        }
        i = i + 1;
    }
    proof {
        assert(out@ =~= lines_from(s@, all, 0));
    }
    out
}

/// The lines nested under the entry on the line before `start`: the run
/// of lines indented more than `indent`, and where that run ends.
pub fn nested_slice(lines: &[Line], start: usize, indent: usize) -> (r: (&[Line], usize))
    requires
        start <= lines@.len(),
    ensures
        r.1 == nested_end(lines@, start as int, indent as int),
        start <= r.1 <= lines@.len(),
        r.0@ == lines@.subrange(start as int, r.1 as int),
{
    proof {
        lemma_nested_end_bounds(lines@, start as int, indent as int);
    }
    let mut j = start;
    while j < lines.len() && lines[j].indent > indent
        invariant
            start <= j <= lines@.len(),
            nested_end(lines@, j as int, indent as int) == nested_end(lines@, start as int, indent as int),
        decreases lines.len() - j,
    {
        j = j + 1;
    }
    (&lines[start..j], j)
}

/// Parses the scalar or single-line flow collection `s[lo..hi]` found on
/// line `line`.
pub fn parse_scalar(s: &[char], lo: usize, hi: usize, line: usize, diags: &mut Vec<Diagnostic>) -> (r: Result<Value, String>)
    requires
        lo <= hi <= s@.len(),
    ensures
        match scalar_value(s@, lo as int, hi as int, line as int, diags_model(old(diags)@)) {
            Ok((v, d)) => r matches Ok(x) && x@ == v && diags_model(final(diags)@) == d,
            Err(e) => r matches Err(m) && e == error_at(line as int, m@),
        },
{
    let a = skip_whitespace(s, lo, hi);
    let b = trim_end_index(s, a, hi);
    if is_flow_start(s, a, b) {
        let mut parser = FlowParser::new(s, a, b, line);
        return parser.parse_top(diags);
    }
    if let Some(u) = unquote(s, a, b) {
        return Ok(Value::String(u));
    }
    if is_unsupported_start(s, a, b) {
        return Err(unsupported_error());
    }
    Ok(interpret_plain_scalar(s, a, b))
}

/// The error for an entry line that is not `key: value`.
fn malformed_entry(s: &[char], l: Line) -> (e: ParseError)
    requires
        l.start <= l.end <= s@.len(),
    ensures
        e@ == error_at(
            l.number as int,
            "expected 'key: value', found '"@ + s@.subrange(l.start as int, l.end as int) + "'"@,
        ),
{
    let mut message = String::from_str("expected 'key: value', found '");
    push_range(&mut message, s, l.start, l.end);
    push_str(&mut message, "'");
    ParseError { line: l.number, message }
}

/// An error with a fixed message on line `line`.
fn error_line(line: usize, message: &str) -> (e: ParseError)
    ensures
        e@ == error_at(line as int, message@),
{
    ParseError { line, message: String::from_str(message) }
}

/// Parses `lines` as one block: a sequence when the first line is a `- `
/// item, a mapping otherwise. Returns the value and how many lines it used.
pub fn parse_block(s: &[char], lines: &[Line], diags: &mut Vec<Diagnostic>) -> (r: Result<(Value, usize), ParseError>)
    requires
        wf_lines(s@, lines@),
        utf8_len(s@) <= usize::MAX,
    ensures
        match block_spec(s@, lines@, diags_model(old(diags)@)) {
            Ok((v, c, d)) => r matches Ok((x, n)) && x@ == v && n == c && diags_model(final(diags)@) == d,
            Err(e) => r matches Err(pe) && pe@ == e,
        },
        r matches Ok((_, n)) ==> n <= lines@.len(),
    decreases lines@.len(), first_len(lines@), 2int,
{
    if lines.len() == 0 {
        return Ok((Value::Null, 0));
    }
    let indent = lines[0].indent;
    if is_sequence_item(s, lines[0].start, lines[0].end) {
        parse_sequence(s, lines, indent, diags)
    } else {
        parse_mapping(s, lines, indent, diags)
    }
}

/// Parses the block mapping at `indent` that starts `lines`.
#[verifier::spinoff_prover]
pub fn parse_mapping(s: &[char], lines: &[Line], indent: usize, diags: &mut Vec<Diagnostic>) -> (r: Result<(Value, usize), ParseError>)
    requires
        wf_lines(s@, lines@),
        utf8_len(s@) <= usize::MAX,
        lines@.len() > 0,
    ensures
        match map_entries(s@, lines@, indent as int, 0, seq![], diags_model(old(diags)@)) {
            Ok((v, c, d)) => r matches Ok((x, n)) && x@ == v && n == c && diags_model(final(diags)@) == d,
            Err(e) => r matches Err(pe) && pe@ == e,
        },
        r matches Ok((_, n)) ==> n <= lines@.len(),
    decreases lines@.len(), first_len(lines@), 1int,
{
    let ghost d0 = diags_model(diags@);
    let mut entries: Vec<(String, Value)> = Vec::new();
    let mut i: usize = 0;
    proof {
        assert(entries_model(entries@) =~= Seq::<(Seq<char>, ValueModel)>::empty());
    }
    while i < lines.len() && lines[i].indent == indent
        invariant
            wf_lines(s@, lines@),
            utf8_len(s@) <= usize::MAX,
            lines@.len() > 0,
            0 <= i <= lines@.len(),
            d0 == diags_model(old(diags)@),
            map_entries(s@, lines@, indent as int, 0, seq![], d0) == map_entries(
                s@,
                lines@,
                indent as int,
                i as int,
                entries_model(entries@),
                diags_model(diags@),
            ),
        ensures
            i >= lines@.len() || lines@[i as int].indent != indent || is_item(
                s@,
                lines@[i as int].start as int,
                lines@[i as int].end as int,
            ),
        decreases lines.len() - i,
    {
        let l = lines[i];
        if is_sequence_item(s, l.start, l.end) {
            break;
        }
        let number = l.number;
        let ((ka, kb), (va, vb)) = match split_colon(s, l.start, l.end) {
            Some(parts) => parts,
            None => {
                return Err(malformed_entry(s, l));
            },
        };
        if is_unsupported_start(s, ka, kb) {
            return Err(ParseError { line: number, message: unsupported_error() });
        }
        let key = match unquote(s, ka, kb) {
            Some(u) => u,
            None => string_of(s, ka, kb),
        };
        if contains_key(&entries, &key) {
            let mut message = String::from_str("duplicate key '");
            push_str(&mut message, key.as_str());
            push_str(&mut message, "'");
            let diag = Diagnostic { line: number, severity: Severity::Warning, message };
            proof {
                lemma_diags_model_push(diags@, diag);
            }
            diags.push(diag);
        }
        let (nested, next) = nested_slice(lines, i + 1, indent);
        proof {
            assert(wf_lines(s@, nested@)) by {
                assert forall|k: int| 0 <= k < nested@.len() implies (#[trigger] nested@[k]).start
                    < nested@[k].end <= s@.len() && nested@[k].indent <= utf8_len(
                    s@.subrange(0, nested@[k].start as int),
                ) by {
                    assert(nested@[k] == lines@[i + 1 + k]);
                }
            }
        }
        let value = if va < vb {
            if nested.len() > 0 && !is_unsupported_start(s, va, vb) {
                let mut message = String::from_str("unexpected indentation after '");
                push_str(&mut message, key.as_str());
                push_str(&mut message, "'");
                return Err(ParseError { line: nested[0].number, message });
            }
            match parse_scalar(s, va, vb, number, diags) {
                Ok(v) => v,
                Err(message) => {
                    return Err(ParseError { line: number, message });
                },
            }
        } else if nested.len() == 0 {
            Value::Null
        } else {
            let (v, consumed) = match parse_block(s, nested, diags) {
                Ok(res) => res,
                Err(e) => {
                    return Err(e);
                },
            };
            if consumed != nested.len() {
                return Err(error_line(nested[consumed].number, "unexpected indentation"));
            }
            v
        };
        proof {
            lemma_entries_model_push(entries@, (key, value));
        }
        entries.push((key, value));
        i = next;
    }
    proof {
        lemma_mapping_model(entries);
    }
    Ok((Value::Mapping(entries), i))
}

/// Parses the block sequence at `indent` that starts `lines`.
#[verifier::spinoff_prover]
#[verifier::rlimit(40)]
pub fn parse_sequence(s: &[char], lines: &[Line], indent: usize, diags: &mut Vec<Diagnostic>) -> (r: Result<(Value, usize), ParseError>)
    requires
        wf_lines(s@, lines@),
        utf8_len(s@) <= usize::MAX,
        lines@.len() > 0,
        indent == lines@[0].indent,
    ensures
        match seq_items(s@, lines@, indent as int, 0, seq![], diags_model(old(diags)@)) {
            Ok((v, c, d)) => r matches Ok((x, n)) && x@ == v && n == c && diags_model(final(diags)@) == d,
            Err(e) => r matches Err(pe) && pe@ == e,
        },
        r matches Ok((_, n)) ==> n <= lines@.len(),
    decreases lines@.len(), first_len(lines@), 1int,
{
    let ghost d0 = diags_model(diags@);
    let mut items: Vec<Value> = Vec::new();
    let mut i: usize = 0;
    proof {
        assert(items_model(items@) =~= Seq::<ValueModel>::empty());
    }
    while i < lines.len() && lines[i].indent == indent && is_sequence_item(s, lines[i].start, lines[i].end)
        invariant
            wf_lines(s@, lines@),
            utf8_len(s@) <= usize::MAX,
            lines@.len() > 0,
            indent == lines@[0].indent,
            0 <= i <= lines@.len(),
            d0 == diags_model(old(diags)@),
            seq_items(s@, lines@, indent as int, 0, seq![], d0) == seq_items(
                s@,
                lines@,
                indent as int,
                i as int,
                items_model(items@),
                diags_model(diags@),
            ),
        decreases lines.len() - i,
    {
        let l = lines[i];
        let number = l.number;
        let after_dash = l.start + 1;
        let rest = skip_whitespace(s, after_dash, l.end);
        proof {
            assert(lines@[i as int] == l);
            lemma_utf8_len_subrange(s@, l.start as int, rest as int);
            lemma_utf8_len_subrange(s@, 0, rest as int);
            let u = s@.subrange(0, rest as int);
            lemma_utf8_len_subrange(u, l.start as int, rest as int);
            assert(u.subrange(0, l.start as int) =~= s@.subrange(0, l.start as int));
            assert(u.subrange(l.start as int, rest as int) =~= s@.subrange(
                l.start as int,
                rest as int,
            ));
            assert(u.subrange(0, rest as int) =~= u);
            let t = s@.subrange(l.start as int, rest as int);
            assert(t.drop_first() =~= s@.subrange(after_dash as int, rest as int));
            assert(t[0] == '-');
            assert(utf8_len(t) == 1 + utf8_len(s@.subrange(after_dash as int, rest as int)));
        }
        let dash_and_spaces = utf8_len_of(s, after_dash, rest) + 1;
        let synthetic_indent = indent + dash_and_spaces;
        let (nested, next) = nested_slice(lines, i + 1, indent);
        proof {
            assert(wf_lines(s@, nested@)) by {
                assert forall|k: int| 0 <= k < nested@.len() implies (#[trigger] nested@[k]).start
                    < nested@[k].end <= s@.len() && nested@[k].indent <= utf8_len(
                    s@.subrange(0, nested@[k].start as int),
                ) by {
                    assert(nested@[k] == lines@[i + 1 + k]);
                }
            }
        }
        let item = if rest == l.end {
            if nested.len() == 0 {
                Value::Null
            } else {
                let (v, consumed) = match parse_block(s, nested, diags) {
                    Ok(res) => res,
                    Err(e) => {
                        return Err(e);
                    },
                };
                if consumed != nested.len() {
                    return Err(error_line(nested[consumed].number, "unexpected indentation"));
                }
                v
            }
        } else if is_flow_start(s, rest, l.end) {
            if nested.len() > 0 {
                return Err(
                    error_line(nested[0].number, "unexpected indentation after flow collection"),
                );
            }
            match parse_scalar(s, rest, l.end, number, diags) {
                Ok(v) => v,
                Err(message) => {
                    return Err(ParseError { line: number, message });
                },
            }
        } else if is_sequence_item(s, rest, l.end) || split_colon(s, rest, l.end).is_some() {
            let synthetic = Line { indent: synthetic_indent, start: rest, end: l.end, number };
            let mut combined: Vec<Line> = Vec::new();
            combined.push(synthetic);
            let mut k: usize = 0;
            while k < nested.len()
                invariant
                    0 <= k <= nested@.len(),
                    combined@ == seq![synthetic] + nested@.subrange(0, k as int),
                decreases nested.len() - k,
            {
                combined.push(nested[k]);
                k = k + 1;
                proof {
                    assert(combined@ =~= seq![synthetic] + nested@.subrange(0, k as int));
                }
            }
            proof {
                assert(nested@.subrange(0, nested@.len() as int) =~= nested@);
                assert(wf_lines(s@, combined@)) by {
                    assert forall|k: int| 0 <= k < combined@.len() implies (
                    #[trigger] combined@[k]).start < combined@[k].end <= s@.len()
                        && combined@[k].indent <= utf8_len(
                        s@.subrange(0, combined@[k].start as int),
                    ) by {
                        if k > 0 {
                            assert(combined@[k] == nested@[k - 1]);
                        }
                    }
                }
            }
            let (v, consumed) = match parse_block(s, combined.as_slice(), diags) {
                Ok(res) => res,
                Err(e) => {
                    return Err(e);
                },
            };
            if consumed != combined.len() {
                return Err(error_line(combined[consumed].number, "unexpected indentation"));
            }
            v
        } else {
            if nested.len() > 0 && !is_unsupported_start(s, rest, l.end) {
                return Err(
                    error_line(
                        nested[0].number,
                        "unexpected indentation after scalar sequence item",
                    ),
                );
            }
            match parse_scalar(s, rest, l.end, number, diags) {
                Ok(v) => v,
                Err(message) => {
                    return Err(ParseError { line: number, message });
                },
            }
        };
        proof {
            lemma_items_model_push(items@, item);
        }
        items.push(item);
        i = next;
    }
    proof {
        lemma_sequence_model(items);
    }
    Ok((Value::Sequence(items), i))
}

/// Parses `input` into a value tree plus the warnings found on the way
/// (duplicate keys), or the first error with its line number.
pub fn parse(input: &str) -> (r: Result<Document, ParseError>)
    ensures
        match parse_spec(input@) {
            Ok((v, d)) => r matches Ok(doc) && doc.value@ == v && diags_model(doc.diagnostics@) == d,
            Err(e) => r matches Err(pe) && pe@ == e,
        },
{
    broadcast use vstd::slice::group_slice_axioms;

    let chars = chars_of(input);
    let bytes = input.as_bytes();
    let _byte_len = bytes.len();
    proof {
        lemma_utf8_len_bytes(input@);
    }
    let mut diagnostics: Vec<Diagnostic> = Vec::new();
    proof {
        assert(diags_model(diagnostics@) =~= Seq::<DiagnosticModel>::empty());
    }
    let lines = preprocess(chars.as_slice());
    if lines.len() == 0 {
        return Ok(Document { value: Value::Null, diagnostics });
    }
    let (value, consumed) = match parse_block(chars.as_slice(), lines.as_slice(), &mut diagnostics) {
        Ok(res) => res,
        Err(e) => {
            return Err(e);
        },
    };
    if consumed != lines.len() {
        return Err(error_line(lines[consumed].number, "unexpected indentation"));
    }
    Ok(Document { value, diagnostics })
}


/// Every line of `ls` is numbered within `1..=count`.
pub open spec fn numbers_in(ls: Seq<Line>, count: int) -> bool {
    forall|k: int| 0 <= k < ls.len() ==> 1 <= (#[trigger] ls[k]).number <= count
}

proof fn lemma_scalar_value_diags(
    s: Seq<char>,
    lo: int,
    hi: int,
    line: int,
    d: Seq<DiagnosticModel>,
    count: int,
)
    requires
        1 <= line <= count,
        parser_diags(d, count),
    ensures
        match scalar_value(s, lo, hi, line, d) {
            Ok((_, d2)) => parser_diags(d2, count),
            Err(e) => e.line == line,
        },
{
    let a = skip_ws(s, lo, hi);
    let b = trim_end_at(s, a, hi);
    if is_flow(s, a, b) {
        lemma_flow_top_diags(s.subrange(a, b), 0, line, d, count);
    }
}

proof fn lemma_nested_numbers(ls: Seq<Line>, lo: int, hi: int, count: int)
    requires
        numbers_in(ls, count),
        0 <= lo <= hi <= ls.len(),
    ensures
        numbers_in(ls.subrange(lo, hi), count),
{
    assert forall|k: int| 0 <= k < ls.subrange(lo, hi).len() implies 1 <= (
    #[trigger] ls.subrange(lo, hi)[k]).number <= count by {
        assert(ls.subrange(lo, hi)[k] == ls[lo + k]);
    }
}

/// A block reports errors and diagnostics only on lines it was given.
pub proof fn lemma_block_lines(s: Seq<char>, ls: Seq<Line>, d: Seq<DiagnosticModel>, count: int)
    requires
        numbers_in(ls, count),
        parser_diags(d, count),
    ensures
        match block_spec(s, ls, d) {
            Ok((_, c, d2)) => 0 <= c <= ls.len() && parser_diags(d2, count),
            Err(e) => 1 <= e.line <= count,
        },
    decreases ls.len(), first_len(ls), 2int, 0int,
{
    if ls.len() > 0 {
        if is_item(s, ls[0].start as int, ls[0].end as int) {
            lemma_seq_items_lines(s, ls, ls[0].indent as int, 0, seq![], d, count);
        } else {
            lemma_map_entries_lines(s, ls, ls[0].indent as int, 0, seq![], d, count);
        }
    }
}

proof fn lemma_map_entries_lines(
    s: Seq<char>,
    ls: Seq<Line>,
    indent: int,
    i: int,
    entries: Seq<(Seq<char>, ValueModel)>,
    d: Seq<DiagnosticModel>,
    count: int,
)
    requires
        numbers_in(ls, count),
        parser_diags(d, count),
        0 <= i <= ls.len(),
    ensures
        match map_entries(s, ls, indent, i, entries, d) {
            Ok((_, c, d2)) => 0 <= c <= ls.len() && parser_diags(d2, count),
            Err(e) => 1 <= e.line <= count,
        },
    decreases ls.len(), first_len(ls), 1int, ls.len() - i,
{
    if !(!(0 <= i < ls.len() && ls[i].indent == indent) || is_item(
        s,
        ls[i].start as int,
        ls[i].end as int,
    )) {
        let l = ls[i];
        let number = l.number as int;
        assert(1 <= number <= count);
        if let Some(((ka, kb), (va, vb))) = colon_split(s, l.start as int, l.end as int) {
            let key = match unquoted(s, ka, kb) {
                Some(u) => u,
                None => s.subrange(ka, kb),
            };
            let d1 = if has_key(entries, key) {
                lemma_parser_diags_push(d, count, number, key);
                d.push(
                    DiagnosticModel {
                        line: number,
                        severity: Severity::Warning,
                        message: "duplicate key '"@ + key + "'"@,
                    },
                )
            } else {
                d
            };
            lemma_nested_end_bounds(ls, i + 1, indent);
            let j = nested_end(ls, i + 1, indent);
            let nested = ls.subrange(i + 1, j);
            lemma_nested_numbers(ls, i + 1, j, count);
            if va < vb {
                lemma_scalar_value_diags(s, va, vb, number, d1, count);
            } else if nested.len() > 0 {
                lemma_block_lines(s, nested, d1, count);
            }
            let value_r: ItemResult = if va < vb {
                if nested.len() > 0 && !is_unsupported(s, va, vb) {
                    Err(
                        error_at(
                            nested[0].number as int,
                            "unexpected indentation after '"@ + key + "'"@,
                        ),
                    )
                } else {
                    scalar_value(s, va, vb, number, d1)
                }
            } else if nested.len() == 0 {
                Ok((ValueModel::Null, d1))
            } else {
                match block_spec(s, nested, d1) {
                    Err(e) => Err(e),
                    Ok((v, consumed, d2)) => {
                        if consumed != nested.len() {
                            Err(
                                error_at(
                                    nested[consumed].number as int,
                                    "unexpected indentation"@,
                                ),
                            )
                        } else {
                            Ok((v, d2))
                        }
                    },
                }
            };
            if let Ok((v, d2)) = value_r {
                lemma_map_entries_lines(s, ls, indent, j, entries.push((key, v)), d2, count);
            }
        }
    }
}

proof fn lemma_seq_items_lines(
    s: Seq<char>,
    ls: Seq<Line>,
    indent: int,
    i: int,
    items: Seq<ValueModel>,
    d: Seq<DiagnosticModel>,
    count: int,
)
    requires
        numbers_in(ls, count),
        parser_diags(d, count),
        0 <= i <= ls.len(),
    ensures
        match seq_items(s, ls, indent, i, items, d) {
            Ok((_, c, d2)) => 0 <= c <= ls.len() && parser_diags(d2, count),
            Err(e) => 1 <= e.line <= count,
        },
    decreases ls.len(), first_len(ls), 1int, ls.len() - i,
{
    if 0 <= i < ls.len() && ls[i].indent == indent && is_item(
        s,
        ls[i].start as int,
        ls[i].end as int,
    ) {
        let l = ls[i];
        let number = l.number as int;
        assert(1 <= number <= count);
        let r = skip_ws(s, l.start + 1, l.end as int);
        lemma_skip_ws_bounds(s, l.start + 1, l.end as int);
        lemma_nested_end_bounds(ls, i + 1, indent);
        let synthetic_indent = indent + utf8_len(s.subrange(l.start + 1, r)) + 1;
        let j = nested_end(ls, i + 1, indent);
        let nested = ls.subrange(i + 1, j);
        lemma_nested_numbers(ls, i + 1, j, count);
        let synthetic = Line {
            indent: synthetic_indent as usize,
            start: r as usize,
            end: l.end,
            number: l.number,
        };
        let combined = seq![synthetic] + nested;
        if r == l.end {
            if nested.len() > 0 {
                lemma_block_lines(s, nested, d, count);
            }
        } else if is_flow(s, r, l.end as int) {
            lemma_scalar_value_diags(s, r, l.end as int, number, d, count);
        } else if is_item(s, r, l.end as int) || colon_split(s, r, l.end as int) is Some {
            assert forall|k: int| 0 <= k < combined.len() implies 1 <= (
            #[trigger] combined[k]).number <= count by {
                if k > 0 {
                    assert(combined[k] == nested[k - 1]);
                }
            }
            lemma_block_lines(s, combined, d, count);
        } else {
            lemma_scalar_value_diags(s, r, l.end as int, number, d, count);
        }
        let item_r: ItemResult = if r == l.end {
            if nested.len() == 0 {
                Ok((ValueModel::Null, d))
            } else {
                match block_spec(s, nested, d) {
                    Err(e) => Err(e),
                    Ok((v, consumed, d2)) => {
                        if consumed != nested.len() {
                            Err(error_at(nested[consumed].number as int, "unexpected indentation"@))
                        } else {
                            Ok((v, d2))
                        }
                    },
                }
            }
        } else if is_flow(s, r, l.end as int) {
            if nested.len() > 0 {
                Err(
                    error_at(
                        nested[0].number as int,
                        "unexpected indentation after flow collection"@,
                    ),
                )
            } else {
                scalar_value(s, r, l.end as int, number, d)
            }
        } else if is_item(s, r, l.end as int) || colon_split(s, r, l.end as int) is Some {
            match block_spec(s, combined, d) {
                Err(e) => Err(e),
                Ok((v, consumed, d2)) => {
                    if consumed != combined.len() {
                        Err(error_at(combined[consumed].number as int, "unexpected indentation"@))
                    } else {
                        Ok((v, d2))
                    }
                },
            }
        } else {
            if nested.len() > 0 && !is_unsupported(s, r, l.end as int) {
                Err(
                    error_at(
                        nested[0].number as int,
                        "unexpected indentation after scalar sequence item"@,
                    ),
                )
            } else {
                scalar_value(s, r, l.end as int, number, d)
            }
        };
        if let Ok((v, d2)) = item_r {
            lemma_seq_items_lines(s, ls, indent, j, items.push(v), d2, count);
        }
    }
}

proof fn lemma_lines_from_numbers(s: Seq<char>, spans: Seq<(int, int)>, i: int)
    requires
        0 <= i,
        spans.len() <= usize::MAX,
    ensures
        numbers_in(lines_from(s, spans, i), spans.len() as int),
    decreases spans.len() - i,
{
    if i < spans.len() {
        lemma_lines_from_numbers(s, spans, i + 1);
        let here: Seq<Line> = match line_of(s, spans[i].0, spans[i].1, i + 1) {
            Some(l) => seq![l],
            None => seq![],
        };
        let rest = lines_from(s, spans, i + 1);
        assert forall|k: int| 0 <= k < (here + rest).len() implies 1 <= (#[trigger] (here
            + rest)[k]).number <= spans.len() by {
            if k < here.len() {
                assert((here + rest)[k] == here[k]);
            } else {
                assert((here + rest)[k] == rest[k - here.len()]);
            }
        }
    }
}

/// A parse error always names one of the input's lines, and the parser's
/// own diagnostics are duplicate-key warnings on lines of the input.
pub proof fn law_parse_lines(s: Seq<char>)
    requires
        s.len() <= usize::MAX,
    ensures
        match parse_spec(s) {
            Ok((_, d)) => parser_diags(d, lines_of(s).len() as int),
            Err(e) => 1 <= e.line <= lines_of(s).len(),
        },
{
    let count = lines_of(s).len() as int;
    let ls = significant_lines(s);
    lemma_line_spans_facts(s, 0);
    lemma_lines_from_numbers(s, lines_of(s), 0);
    if ls.len() > 0 {
        lemma_block_lines(s, ls, seq![], count);
    }
}

/// How many of the first `k` lines `ls` have the indentation `indent`.
pub open spec fn count_at(ls: Seq<Line>, indent: int, k: int) -> int
    decreases k,
{
    if k <= 0 {
        0
    } else {
        count_at(ls, indent, k - 1) + if ls[k - 1].indent == indent {
            1int
        } else {
            0int
        }
    }
}

proof fn lemma_nested_facts(ls: Seq<Line>, start: int, indent: int)
    requires
        0 <= start <= ls.len(),
    ensures
        start <= nested_end(ls, start, indent) <= ls.len(),
        forall|j: int| start <= j < nested_end(ls, start, indent) ==> (#[trigger] ls[j]).indent > indent,
        nested_end(ls, start, indent) < ls.len() ==> ls[nested_end(ls, start, indent)].indent <= indent,
        count_at(ls, indent, nested_end(ls, start, indent)) == count_at(ls, indent, start),
    decreases ls.len() - start,
{
    if start < ls.len() && ls[start].indent > indent {
        lemma_nested_facts(ls, start + 1, indent);
    }
}

/// What holds of a block read at `indent` from line `i` on, after the
/// lines before `i`: every line so far is at least as indented, and a
/// line at `indent` is an entry (`item` says whether of a sequence).
pub open spec fn level_lines(s: Seq<char>, ls: Seq<Line>, indent: int, k: int, item: bool) -> bool {
    forall|j: int|
        0 <= j < k ==> (#[trigger] ls[j]).indent >= indent && (ls[j].indent == indent ==> is_item(
            s,
            ls[j].start as int,
            ls[j].end as int,
        ) == item)
}

#[verifier::spinoff_prover]
#[verifier::rlimit(30)]
proof fn lemma_map_entries_shape(
    s: Seq<char>,
    ls: Seq<Line>,
    indent: int,
    i: int,
    entries: Seq<(Seq<char>, ValueModel)>,
    d: Seq<DiagnosticModel>,
)
    requires
        0 <= i <= ls.len(),
        entries.len() == count_at(ls, indent, i),
        level_lines(s, ls, indent, i, false),
        i < ls.len() ==> ls[i].indent <= indent,
    ensures
        map_entries(s, ls, indent, i, entries, d) matches Ok((v, c, _)) ==> {
            &&& i <= c <= ls.len()
            &&& v matches ValueModel::Mapping(es) && es.len() == count_at(ls, indent, c)
            &&& level_lines(s, ls, indent, c, false)
            &&& c < ls.len() ==> ls[c].indent < indent || (ls[c].indent == indent && is_item(
                s,
                ls[c].start as int,
                ls[c].end as int,
            ))
            &&& c == i ==> !(i < ls.len() && ls[i].indent == indent && !is_item(
                s,
                ls[i].start as int,
                ls[i].end as int,
            ))
        },
    decreases ls.len() - i,
{
    if !(!(0 <= i < ls.len() && ls[i].indent == indent) || is_item(
        s,
        ls[i].start as int,
        ls[i].end as int,
    )) {
        let l = ls[i];
        let number = l.number as int;
        if let Some(((ka, kb), (va, vb))) = colon_split(s, l.start as int, l.end as int) {
            if !is_unsupported(s, ka, kb) {
                let key = match unquoted(s, ka, kb) {
                    Some(u) => u,
                    None => s.subrange(ka, kb),
                };
                let d1 = if has_key(entries, key) {
                    d.push(
                        DiagnosticModel {
                            line: number,
                            severity: Severity::Warning,
                            message: "duplicate key '"@ + key + "'"@,
                        },
                    )
                } else {
                    d
                };
                lemma_nested_facts(ls, i + 1, indent);
                let next = nested_end(ls, i + 1, indent);
                let nested = ls.subrange(i + 1, next);
                let value_r: ItemResult = if va < vb {
                    if nested.len() > 0 && !is_unsupported(s, va, vb) {
                        Err(
                            error_at(
                                nested[0].number as int,
                                "unexpected indentation after '"@ + key + "'"@,
                            ),
                        )
                    } else {
                        scalar_value(s, va, vb, number, d1)
                    }
                } else if nested.len() == 0 {
                    Ok((ValueModel::Null, d1))
                } else {
                    match block_spec(s, nested, d1) {
                        Err(e) => Err(e),
                        Ok((v, consumed, d2)) => {
                            if consumed != nested.len() {
                                Err(
                                    error_at(
                                        nested[consumed].number as int,
                                        "unexpected indentation"@,
                                    ),
                                )
                            } else {
                                Ok((v, d2))
                            }
                        },
                    }
                };
                if let Ok((v, d2)) = value_r {
                    assert(count_at(ls, indent, i + 1) == count_at(ls, indent, i) + 1);
                    assert forall|j: int| 0 <= j < next implies (#[trigger] ls[j]).indent >= indent
                        && (ls[j].indent == indent ==> is_item(
                        s,
                        ls[j].start as int,
                        ls[j].end as int,
                    ) == false) by {
                        if j < i {
                            assert(level_lines(s, ls, indent, i, false));
                        } else if j > i {
                            assert(ls[j].indent > indent);
                        }
                    }
                    lemma_map_entries_shape(s, ls, indent, next, entries.push((key, v)), d2);
                }
            }
        }
    }
}

#[verifier::spinoff_prover]
#[verifier::rlimit(30)]
proof fn lemma_seq_items_shape(
    s: Seq<char>,
    ls: Seq<Line>,
    indent: int,
    i: int,
    items: Seq<ValueModel>,
    d: Seq<DiagnosticModel>,
)
    requires
        0 <= i <= ls.len(),
        items.len() == count_at(ls, indent, i),
        level_lines(s, ls, indent, i, true),
        i < ls.len() ==> ls[i].indent <= indent,
    ensures
        seq_items(s, ls, indent, i, items, d) matches Ok((v, c, _)) ==> {
            &&& i <= c <= ls.len()
            &&& v matches ValueModel::Sequence(xs) && xs.len() == count_at(ls, indent, c)
            &&& level_lines(s, ls, indent, c, true)
            &&& c < ls.len() ==> ls[c].indent < indent || (ls[c].indent == indent && !is_item(
                s,
                ls[c].start as int,
                ls[c].end as int,
            ))
            &&& c == i ==> !(i < ls.len() && ls[i].indent == indent && is_item(
                s,
                ls[i].start as int,
                ls[i].end as int,
            ))
        },
    decreases ls.len() - i,
{
    if 0 <= i < ls.len() && ls[i].indent == indent && is_item(
        s,
        ls[i].start as int,
        ls[i].end as int,
    ) {
        let l = ls[i];
        let number = l.number as int;
        let r = skip_ws(s, l.start + 1, l.end as int);
        lemma_skip_ws_bounds(s, l.start + 1, l.end as int);
        lemma_nested_facts(ls, i + 1, indent);
        let synthetic_indent = indent + utf8_len(s.subrange(l.start + 1, r)) + 1;
        let next = nested_end(ls, i + 1, indent);
        let nested = ls.subrange(i + 1, next);
        let synthetic = Line {
            indent: synthetic_indent as usize,
            start: r as usize,
            end: l.end,
            number: l.number,
        };
        let combined = seq![synthetic] + nested;
        let item_r: ItemResult = if r == l.end {
            if nested.len() == 0 {
                Ok((ValueModel::Null, d))
            } else {
                match block_spec(s, nested, d) {
                    Err(e) => Err(e),
                    Ok((v, consumed, d2)) => {
                        if consumed != nested.len() {
                            Err(error_at(nested[consumed].number as int, "unexpected indentation"@))
                        } else {
                            Ok((v, d2))
                        }
                    },
                }
            }
        } else if is_flow(s, r, l.end as int) {
            if nested.len() > 0 {
                Err(
                    error_at(
                        nested[0].number as int,
                        "unexpected indentation after flow collection"@,
                    ),
                )
            } else {
                scalar_value(s, r, l.end as int, number, d)
            }
        } else if is_item(s, r, l.end as int) || colon_split(s, r, l.end as int) is Some {
            match block_spec(s, combined, d) {
                Err(e) => Err(e),
                Ok((v, consumed, d2)) => {
                    if consumed != combined.len() {
                        Err(error_at(combined[consumed].number as int, "unexpected indentation"@))
                    } else {
                        Ok((v, d2))
                    }
                },
            }
        } else {
            if nested.len() > 0 && !is_unsupported(s, r, l.end as int) {
                Err(
                    error_at(
                        nested[0].number as int,
                        "unexpected indentation after scalar sequence item"@,
                    ),
                )
            } else {
                scalar_value(s, r, l.end as int, number, d)
            }
        };
        if let Ok((v, d2)) = item_r {
            assert(count_at(ls, indent, i + 1) == count_at(ls, indent, i) + 1);
            assert forall|j: int| 0 <= j < next implies (#[trigger] ls[j]).indent >= indent && (
            ls[j].indent == indent ==> is_item(s, ls[j].start as int, ls[j].end as int) == true) by {
                if j < i {
                    assert(level_lines(s, ls, indent, i, true));
                } else if j > i {
                    assert(ls[j].indent > indent);
                }
            }
            lemma_seq_items_shape(s, ls, indent, next, items.push(v), d2);
        }
    }
}

/// A block mapping read from the lines `ls` (the first of them an entry,
/// not a `- ` item) uses at least its first line, keeps one entry for
/// each line it used at the first line's indentation (a repeated key
/// included), has every other line it used indented deeper, and stops at
/// the end, at a shallower line, or at a `- ` item at its own
/// indentation.
pub proof fn law_block_mapping_shape(s: Seq<char>, ls: Seq<Line>, d: Seq<DiagnosticModel>)
    requires
        ls.len() > 0,
        !is_item(s, ls[0].start as int, ls[0].end as int),
    ensures
        block_spec(s, ls, d) matches Ok((v, c, _)) ==> {
            &&& 1 <= c <= ls.len()
            &&& v matches ValueModel::Mapping(es) && es.len() == count_at(ls, ls[0].indent as int, c)
            &&& level_lines(s, ls, ls[0].indent as int, c, false)
            &&& c < ls.len() ==> ls[c].indent < ls[0].indent || (ls[c].indent == ls[0].indent
                && is_item(s, ls[c].start as int, ls[c].end as int))
        },
{
    lemma_map_entries_shape(s, ls, ls[0].indent as int, 0, seq![], d);
}

/// A block sequence read from the lines `ls` (the first of them a `- `
/// item) uses at least its first line, keeps one item for each line it
/// used at the first line's indentation, each of them a `- ` item, has
/// every other line it used indented deeper, and stops at the end, at a
/// shallower line, or at a line at its own indentation that is not an
/// item.
pub proof fn law_block_sequence_shape(s: Seq<char>, ls: Seq<Line>, d: Seq<DiagnosticModel>)
    requires
        ls.len() > 0,
        is_item(s, ls[0].start as int, ls[0].end as int),
    ensures
        block_spec(s, ls, d) matches Ok((v, c, _)) ==> {
            &&& 1 <= c <= ls.len()
            &&& v matches ValueModel::Sequence(xs) && xs.len() == count_at(
                ls,
                ls[0].indent as int,
                c,
            )
            &&& level_lines(s, ls, ls[0].indent as int, c, true)
            &&& c < ls.len() ==> ls[c].indent < ls[0].indent || (ls[c].indent == ls[0].indent
                && !is_item(s, ls[c].start as int, ls[c].end as int))
        },
{
    lemma_seq_items_shape(s, ls, ls[0].indent as int, 0, seq![], d);
}

/// A block value written as a bare word (no surrounding whitespace) is
/// typed as that word: `true`, `True`, `TRUE` give true, `false`, `False`,
/// `FALSE` give false, and `null`, `Null`, `NULL`, `~` give null; it adds
/// no diagnostic.
pub proof fn law_scalar_value_words(s: Seq<char>, lo: int, hi: int, line: int, d: Seq<DiagnosticModel>)
    requires
        0 <= lo <= hi <= s.len(),
    ensures
        ({
            let t = s.subrange(lo, hi);
            &&& (t == "true"@ || t == "True"@ || t == "TRUE"@) ==> scalar_value(s, lo, hi, line, d)
                == Ok::<(ValueModel, Seq<DiagnosticModel>), ParseErrorModel>(
                (ValueModel::Bool(true), d),
            )
            &&& (t == "false"@ || t == "False"@ || t == "FALSE"@) ==> scalar_value(
                s,
                lo,
                hi,
                line,
                d,
            ) == Ok::<(ValueModel, Seq<DiagnosticModel>), ParseErrorModel>(
                (ValueModel::Bool(false), d),
            )
            &&& (t == "null"@ || t == "Null"@ || t == "NULL"@ || t == "~"@) ==> scalar_value(
                s,
                lo,
                hi,
                line,
                d,
            ) == Ok::<(ValueModel, Seq<DiagnosticModel>), ParseErrorModel>((ValueModel::Null, d))
        }),
{
    crate::scalar::law_plain_scalar_words(s, lo, hi);
    reveal_strlit("true");
    reveal_strlit("True");
    reveal_strlit("TRUE");
    reveal_strlit("false");
    reveal_strlit("False");
    reveal_strlit("FALSE");
    reveal_strlit("null");
    reveal_strlit("Null");
    reveal_strlit("NULL");
    reveal_strlit("~");
    let t = s.subrange(lo, hi);
    if t == "true"@ || t == "True"@ || t == "TRUE"@ || t == "false"@ || t == "False"@ || t
        == "FALSE"@ || t == "null"@ || t == "Null"@ || t == "NULL"@ || t == "~"@ {
        assert(lo < hi);
        assert(s[lo] == t[0] && s[hi - 1] == t[t.len() - 1]);
        assert(!crate::text::is_ws(s[lo]));
        assert(!crate::text::is_ws(s[hi - 1]));
        assert(skip_ws(s, lo, hi) == lo);
        assert(trim_end_at(s, lo, hi) == hi);
    }
}

/// A lookup finds the first entry with the key: `Some(v)` exactly when
/// some entry has the key, `v` being the value of the first such entry.
pub proof fn law_lookup_first(entries: Seq<(Seq<char>, ValueModel)>, key: Seq<char>)
    ensures
        match lookup(entries, key) {
            Some(v) => exists|i: int|
                0 <= i < entries.len() && #[trigger] entries[i] == (key, v) && forall|j: int|
                    0 <= j < i ==> entries[j].0 != key,
            None => forall|i: int| 0 <= i < entries.len() ==> entries[i].0 != key,
        },
{
    lemma_lookup_from_first(entries, key, 0);
}

proof fn lemma_lookup_from_first(entries: Seq<(Seq<char>, ValueModel)>, key: Seq<char>, j: int)
    requires
        0 <= j,
        forall|i: int| 0 <= i < j && i < entries.len() ==> entries[i].0 != key,
    ensures
        match lookup_from(entries, key, j) {
            Some(v) => exists|i: int|
                0 <= i < entries.len() && #[trigger] entries[i] == (key, v) && forall|k: int|
                    0 <= k < i ==> entries[k].0 != key,
            None => forall|i: int| 0 <= i < entries.len() ==> entries[i].0 != key,
        },
    decreases entries.len() - j,
{
    if j < entries.len() {
        if entries[j].0 == key {
            assert(entries[j] == (key, entries[j].1));
        } else {
            lemma_lookup_from_first(entries, key, j + 1);
        }
    }
}

/// Warnings rank below errors: an error is at least a warning, and a
/// warning is not at least an error.
pub proof fn law_severity_order()
    ensures
        rank(Severity::Warning) < rank(Severity::Error),
{
}

} // verus!
