//! Rendering a [`Document`] for a person or as JSON.
use vstd::prelude::*;

use crate::parser::diags_model;
use crate::scalar::decimal_number;
use crate::scalar::digit_run;
use crate::scalar::digit_run_exec;
use crate::scalar::exponent_ok;
use crate::scalar::is_digit;
use crate::scalar::is_decimal_number;
use crate::scalar::lemma_digit_run_bounds;
use crate::text::chars_of;
use crate::text::push_range;
use crate::parser::entries_model;
use crate::parser::items_model;
use crate::parser::lemma_mapping_model;
use crate::parser::lemma_sequence_model;
use crate::parser::severity_name;
use crate::parser::DiagnosticModel;
use crate::parser::Document;
use crate::parser::Severity;
use crate::parser::Value;
use crate::parser::ValueModel;
use crate::text::decimal;
use crate::text::push_char;
use crate::text::push_decimal;
use crate::text::push_signed_decimal;
use crate::text::push_str;
use crate::text::signed_decimal;

verus! {

/// Which shape to render a `Document` as. This is the hook a caller's own
/// CLI (or web handler, or test harness) wires up to something like a
/// `--json` flag: pick `Human` for a terminal and `Json` for machine
/// consumers, same document either way.
#[derive(Debug, Clone, Copy, PartialEq, Eq, Structural)]
pub enum OutputFormat {
    Human,
    Json,
}

/// One diagnostic as a line of human-readable output.
pub open spec fn human_line(d: DiagnosticModel) -> Seq<char> {
    "line "@ + decimal(d.line as nat) + ": "@ + severity_name(d.severity) + ": "@ + d.message
        + "\n"@
}

/// The human-readable lines for the diagnostics `ds`, in order.
pub open spec fn human_lines(ds: Seq<DiagnosticModel>) -> Seq<char>
    decreases ds.len(),
{
    if ds.len() == 0 {
        seq![]
    } else {
        human_lines(ds.drop_last()) + human_line(ds.last())
    }
}

/// The human-readable report: one line per diagnostic, or
/// `no issues found` when there is none.
pub open spec fn human_text(ds: Seq<DiagnosticModel>) -> Seq<char> {
    if ds.len() == 0 {
        "no issues found\n"@
    } else {
        human_lines(ds)
    }
}

/// The lowercase hexadecimal digit for `d < 16`.
pub open spec fn hex_digit(d: nat) -> char {
    if d < 10 {
        ((d + 48) as u32) as char
    } else {
        ((d + 87) as u32) as char
    }
}

/// How one character appears inside a JSON string literal.
pub open spec fn json_char(c: char) -> Seq<char> {
    if c == '"' {
        seq!['\\', '"']
    } else if c == '\\' {
        seq!['\\', '\\']
    } else if c == '\n' {
        seq!['\\', 'n']
    } else if c == '\t' {
        seq!['\\', 't']
    } else if c == '\r' {
        seq!['\\', 'r']
    } else if (c as u32) < 0x20 {
        seq!['\\', 'u', '0', '0', hex_digit((c as u32 / 16) as nat), hex_digit((c as u32 % 16) as nat)]
    } else {
        seq![c]
    }
}

/// The escaped body of a JSON string literal for `s`.
pub open spec fn json_escaped(s: Seq<char>) -> Seq<char>
    decreases s.len(),
{
    if s.len() == 0 {
        seq![]
    } else {
        json_escaped(s.drop_last()) + json_char(s.last())
    }
}

/// `s` as a JSON string literal.
pub open spec fn json_string_of(s: Seq<char>) -> Seq<char> {
    seq!['"'] + json_escaped(s) + seq!['"']
}

/// The digits `x` without leading zeros, keeping at least one digit; `0`
/// when there is none.
pub open spec fn int_digits(x: Seq<char>) -> Seq<char>
    decreases x.len(),
{
    if x.len() == 0 {
        seq!['0']
    } else if x.len() > 1 && x[0] == '0' {
        int_digits(x.drop_first())
    } else {
        x
    }
}

/// A float's text as a JSON value. A decimal number (with an optional
/// sign, digits, point and exponent) is written as a JSON number: without
/// a `+` sign or leading zeros, with a `0` before a bare point and without
/// a point that no digit follows. Anything else (`inf`, `nan`) is `null`.
pub open spec fn json_float(t: Seq<char>) -> Seq<char> {
    let n = t.len() as int;
    let b: int = if n > 0 && (t[0] == '+' || t[0] == '-') {
        1
    } else {
        0
    };
    if !decimal_number(t, b, n) {
        "null"@
    } else {
        let sign = if b == 1 && t[0] == '-' {
            seq!['-']
        } else {
            seq![]
        };
        let a = digit_run(t, b, n);
        let f = if a < n && t[a] == '.' {
            digit_run(t, a + 1, n)
        } else {
            a
        };
        let frac = if f > a + 1 {
            t.subrange(a, f)
        } else {
            seq![]
        };
        sign + int_digits(t.subrange(b, a)) + frac + t.subrange(f, n)
    }
}

/// A value as JSON. A float is written by [`json_float`].
pub open spec fn json_value_of(v: ValueModel) -> Seq<char>
    decreases v, 0int,
{
    match v {
        ValueModel::Null => "null"@,
        ValueModel::Bool(b) => if b {
            "true"@
        } else {
            "false"@
        },
        ValueModel::Int(i) => signed_decimal(i),
        ValueModel::Float(t) => json_float(t),
        ValueModel::Str(s) => json_string_of(s),
        ValueModel::Sequence(items) => seq!['['] + json_items(items, items.len() as int) + seq![
            ']',
        ],
        ValueModel::Mapping(entries) => seq!['{'] + json_entries(entries, entries.len() as int)
            + seq!['}'],
    }
}

/// The first `k` items as JSON, separated by commas.
pub open spec fn json_items(items: Seq<ValueModel>, k: int) -> Seq<char>
    decreases items, k,
{
    if k <= 0 || k > items.len() {
        seq![]
    } else if k == 1 {
        json_value_of(items[0])
    } else {
        json_items(items, k - 1) + seq![','] + json_value_of(items[k - 1])
    }
}

/// The first `k` entries as JSON `"key":value` members, separated by
/// commas.
pub open spec fn json_entries(entries: Seq<(Seq<char>, ValueModel)>, k: int) -> Seq<char>
    decreases entries, k,
{
    if k <= 0 || k > entries.len() {
        seq![]
    } else if k == 1 {
        json_string_of(entries[0].0) + seq![':'] + json_value_of(entries[0].1)
    } else {
        json_entries(entries, k - 1) + seq![','] + json_string_of(entries[k - 1].0) + seq![':']
            + json_value_of(entries[k - 1].1)
    }
}


/// One diagnostic as a JSON object.
pub open spec fn diag_json(d: DiagnosticModel) -> Seq<char> {
    "{\"line\":"@ + decimal(d.line as nat) + ",\"severity\":\""@ + severity_name(d.severity)
        + "\",\"message\":"@ + json_string_of(d.message) + "}"@
}

/// The first `k` diagnostics as JSON objects, separated by commas.
pub open spec fn diags_json(ds: Seq<DiagnosticModel>, k: int) -> Seq<char>
    decreases k,
{
    if k <= 0 || k > ds.len() {
        seq![]
    } else if k == 1 {
        diag_json(ds[0])
    } else {
        diags_json(ds, k - 1) + seq![','] + diag_json(ds[k - 1])
    }
}

/// The JSON report: one object holding the diagnostics and the value.
pub open spec fn json_text(v: ValueModel, ds: Seq<DiagnosticModel>) -> Seq<char> {
    "{\"diagnostics\":["@ + diags_json(ds, ds.len() as int) + "],\"value\":"@ + json_value_of(v)
        + "}"@
}

/// The report for `document` in the chosen format.
pub open spec fn rendered(v: ValueModel, ds: Seq<DiagnosticModel>, format: OutputFormat) -> Seq<
    char,
> {
    match format {
        OutputFormat::Human => human_text(ds),
        OutputFormat::Json => json_text(v, ds),
    }
}

/// Renders `document` for a person or as JSON.
pub fn render(document: &Document, format: OutputFormat) -> (out: String)
    ensures
        out@ == rendered(document.value@, diags_model(document.diagnostics@), format),
{
    match format {
        OutputFormat::Human => render_human(document),
        OutputFormat::Json => render_json(document),
    }
}

/// One line per diagnostic (`line N: severity: message`), or
/// `no issues found`.
pub fn render_human(document: &Document) -> (out: String)
    ensures
        out@ == human_text(diags_model(document.diagnostics@)),
{
    let mut out = String::new();
    let ghost ds = diags_model(document.diagnostics@);
    if document.diagnostics.len() == 0 {
        push_str(&mut out, "no issues found\n");
        return out;
    }
    let mut i: usize = 0;
    while i < document.diagnostics.len()
        invariant
            ds == diags_model(document.diagnostics@),
            0 <= i <= ds.len(),
            out@ == human_lines(ds.take(i as int)),
        decreases document.diagnostics.len() - i,
    {
        let d = &document.diagnostics[i];
        let ghost before = out@;
        push_str(&mut out, "line ");
        push_decimal(&mut out, d.line as u64);
        push_str(&mut out, ": ");
        push_str(&mut out, d.severity.as_string().as_str());
        push_str(&mut out, ": ");
        push_str(&mut out, d.message.as_str());
        push_str(&mut out, "\n");
        proof {
            assert(ds.take(i + 1).drop_last() =~= ds.take(i as int));
            assert(ds.take(i + 1).last() == d@);
            assert(out@ =~= before + human_line(d@));
        }
        i = i + 1;
    }
    proof {
        assert(ds.take(ds.len() as int) =~= ds);
    }
    out
}

/// A JSON object with the diagnostics and the parsed value.
pub fn render_json(document: &Document) -> (out: String)
    ensures
        out@ == json_text(document.value@, diags_model(document.diagnostics@)),
{
    let ghost ds = diags_model(document.diagnostics@);
    let mut out = String::new();
    push_str(&mut out, "{\"diagnostics\":[");
    let ghost head = out@;
    let mut i: usize = 0;
    while i < document.diagnostics.len()
        invariant
            ds == diags_model(document.diagnostics@),
            0 <= i <= ds.len(),
            head == "{\"diagnostics\":["@,
            out@ == head + diags_json(ds, i as int),
        decreases document.diagnostics.len() - i,
    {
        let d = &document.diagnostics[i];
        let ghost before = out@;
        if i > 0 {
            push_char(&mut out, ',');
        }
        let ghost mid = out@;
        push_str(&mut out, "{\"line\":");
        push_decimal(&mut out, d.line as u64);
        push_str(&mut out, ",\"severity\":\"");
        let severity = match d.severity {
            Severity::Error => "error",
            Severity::Warning => "warning",
        };
        push_str(&mut out, severity);
        push_str(&mut out, "\",\"message\":");
        push_str(&mut out, json_string(d.message.as_str()).as_str());
        push_str(&mut out, "}");
        proof {
            assert(ds[i as int] == d@);
            assert(out@ =~= mid + diag_json(d@));
            if i == 0 {
                assert(out@ =~= head + diags_json(ds, 1));
            } else {
                assert(out@ =~= head + diags_json(ds, i + 1));
            }
        }
        i = i + 1;
    }
    push_str(&mut out, "],\"value\":");
    push_str(&mut out, json_value(&document.value).as_str());
    push_str(&mut out, "}");
    proof {
        assert(out@ =~= json_text(document.value@, ds));
    }
    out
}

fn push_hex_digit(out: &mut String, d: u32)
    requires
        d < 16,
    ensures
        final(out)@ == old(out)@.push(hex_digit(d as nat)),
{
    if d < 10 {
        push_char(out, ((d + 48) as u8) as char);
    } else {
        push_char(out, ((d + 87) as u8) as char);
    }
}

/// `s` as a JSON string literal, with quotes, backslashes and control
/// characters escaped.
pub fn json_string(s: &str) -> (out: String)
    ensures
        out@ == json_string_of(s@),
{
    let cs = crate::text::chars_of(s);
    let mut out = String::new();
    push_char(&mut out, '"');
    let mut i: usize = 0;
    while i < cs.len()
        invariant
            cs@ == s@,
            0 <= i <= cs@.len(),
            out@ == seq!['"'] + json_escaped(cs@.take(i as int)),
        decreases cs.len() - i,
    {
        let c = cs[i];
        let ghost before = out@;
        if c == '"' {
            push_char(&mut out, '\\');
            push_char(&mut out, '"');
        } else if c == '\\' {
            push_char(&mut out, '\\');
            push_char(&mut out, '\\');
        } else if c == '\n' {
            push_char(&mut out, '\\');
            push_char(&mut out, 'n');
        } else if c == '\t' {
            push_char(&mut out, '\\');
            push_char(&mut out, 't');
        } else if c == '\r' {
            push_char(&mut out, '\\');
            push_char(&mut out, 'r');
        } else if (c as u32) < 0x20 {
            push_char(&mut out, '\\');
            push_char(&mut out, 'u');
            push_char(&mut out, '0');
            push_char(&mut out, '0');
            push_hex_digit(&mut out, (c as u32) / 16);
            push_hex_digit(&mut out, (c as u32) % 16);
        } else {
            push_char(&mut out, c);
        }
        proof {
            assert(cs@.take(i + 1).drop_last() =~= cs@.take(i as int));
            assert(cs@.take(i + 1).last() == c);
            assert(out@ =~= before + json_char(c));
        }
        i = i + 1;
    }
    push_char(&mut out, '"');
    proof {
        assert(cs@.take(cs@.len() as int) =~= cs@);
    }
    out
}

/// `value` as JSON; a float is written as the text it was parsed from.
pub fn json_value(value: &Value) -> (out: String)
    ensures
        out@ == json_value_of(value@),
    decreases value,
{
    match value {
        Value::Null => String::from_str("null"),
        Value::Bool(b) => {
            if *b {
                String::from_str("true")
            } else {
                String::from_str("false")
            }
        },
        Value::Int(i) => {
            let mut out = String::new();
            push_signed_decimal(&mut out, *i);
            proof {
                assert(out@ =~= signed_decimal(*i as int));
            }
            out
        },
        Value::Float(t) => json_float_text(t.as_str()),
        Value::String(s) => json_string(s.as_str()),
        Value::Sequence(items) => {
            proof {
                lemma_sequence_model(*items);
            }
            let ghost m = items_model(items@);
            let mut out = String::new();
            push_char(&mut out, '[');
            let mut i: usize = 0;
            #[verifier::loop_isolation(false)]
            while i < items.len()
                invariant
                    m == items_model(items@),
                    0 <= i <= items@.len(),
                    out@ == seq!['['] + json_items(m, i as int),
                decreases items.len() - i,
            {
                let ghost before = out@;
                if i > 0 {
                    push_char(&mut out, ',');
                }
                proof {
                    vstd::std_specs::vec::axiom_vec_index_decreases(*items, i as int);
                }
                let part = json_value(&items[i]);
                push_str(&mut out, part.as_str());
                proof {
                    assert(m[i as int] == items@[i as int]@);
                    if i == 0 {
                        assert(out@ =~= seq!['['] + json_items(m, 1));
                    } else {
                        assert(out@ =~= seq!['['] + json_items(m, i + 1));
                    }
                }
                i = i + 1;
            }
            push_char(&mut out, ']');
            proof {
                assert(out@ =~= json_value_of(value@));
            }
            out
        },
        Value::Mapping(entries) => {
            proof {
                lemma_mapping_model(*entries);
            }
            let ghost m = entries_model(entries@);
            let mut out = String::new();
            push_char(&mut out, '{');
            let mut i: usize = 0;
            #[verifier::loop_isolation(false)]
            while i < entries.len()
                invariant
                    m == entries_model(entries@),
                    0 <= i <= entries@.len(),
                    out@ == seq!['{'] + json_entries(m, i as int),
                decreases entries.len() - i,
            {
                let ghost before = out@;
                if i > 0 {
                    push_char(&mut out, ',');
                }
                proof {
                    vstd::std_specs::vec::axiom_vec_index_decreases(*entries, i as int);
                }
                let key = json_string(entries[i].0.as_str());
                push_str(&mut out, key.as_str());
                push_char(&mut out, ':');
                let part = json_value(&entries[i].1);
                push_str(&mut out, part.as_str());
                proof {
                    assert(m[i as int] == (entries@[i as int].0@, entries@[i as int].1@));
                    if i == 0 {
                        assert(out@ =~= seq!['{'] + json_entries(m, 1));
                    } else {
                        assert(out@ =~= seq!['{'] + json_entries(m, i + 1));
                    }
                }
                i = i + 1;
            }
            push_char(&mut out, '}');
            proof {
                assert(out@ =~= json_value_of(value@));
            }
            out
        },
    }
}

/// The code of `c`.
pub open spec fn code_of(c: char) -> int {
    c as int
}

/// The character whose code is `n`.
pub open spec fn char_with_code(n: int) -> char {
    choose|c: char| #[trigger] code_of(c) == n
}

/// The value of a lowercase hexadecimal digit.
pub open spec fn hex_value(c: char) -> int {
    if (c as u32) <= 57 {
        c as u32 - 48
    } else {
        c as u32 - 87
    }
}

/// Reads back the body of a string literal as [`json_string`] writes it,
/// from `t` up to its closing quote: the text it stands for and what
/// follows the quote, or `None` when no closing quote comes. It reads the
/// escapes `json_string` writes (`\u` with lowercase hex digits among
/// them) and takes any other escaped character as itself; it is not a
/// reader of JSON strings in general.
pub open spec fn read_json_body(t: Seq<char>) -> Option<(Seq<char>, Seq<char>)>
    decreases t.len(),
{
    if t.len() == 0 {
        None
    } else if t[0] == '"' {
        Some((seq![], t.subrange(1, t.len() as int)))
    } else if t[0] == '\\' && t.len() >= 2 {
        if t[1] == 'u' && t.len() >= 6 {
            let code = 4096 * hex_value(t[2]) + 256 * hex_value(t[3]) + 16 * hex_value(t[4])
                + hex_value(t[5]);
            match read_json_body(t.subrange(6, t.len() as int)) {
                Some((b, r)) => Some((seq![char_with_code(code)] + b, r)),
                None => None,
            }
        } else {
            let c = if t[1] == 'n' {
                '\n'
            } else if t[1] == 't' {
                '\t'
            } else if t[1] == 'r' {
                '\r'
            } else {
                t[1]
            };
            match read_json_body(t.subrange(2, t.len() as int)) {
                Some((b, r)) => Some((seq![c] + b, r)),
                None => None,
            }
        }
    } else {
        match read_json_body(t.subrange(1, t.len() as int)) {
            Some((b, r)) => Some((seq![t[0]] + b, r)),
            None => None,
        }
    }
}

proof fn lemma_hex_round_trip(n: nat)
    requires
        n < 16,
    ensures
        hex_value(hex_digit(n)) == n,
{
}

proof fn lemma_read_json_char(c: char, t: Seq<char>)
    ensures
        read_json_body(json_char(c) + t) == match read_json_body(t) {
            Some((b, r)) => Some((seq![c] + b, r)),
            None => None,
        },
{
    let u = json_char(c) + t;
    let n = json_char(c).len() as int;
    assert(u.subrange(n, u.len() as int) =~= t);
    if c != '"' && c != '\\' && c != '\n' && c != '\t' && c != '\r' && (c as u32) < 0x20 {
        let hi = (c as u32 / 16) as nat;
        let lo = (c as u32 % 16) as nat;
        lemma_hex_round_trip(hi);
        lemma_hex_round_trip(lo);
        assert(hex_value(u[2]) == 0);
        assert(hex_value(u[3]) == 0);
        let code = 4096 * hex_value(u[2]) + 256 * hex_value(u[3]) + 16 * hex_value(u[4])
            + hex_value(u[5]);
        assert(code == code_of(c));
        assert(char_with_code(code) == c);
    }
}

proof fn lemma_json_escaped_front(s: Seq<char>)
    requires
        s.len() > 0,
    ensures
        json_escaped(s) == json_char(s[0]) + json_escaped(s.subrange(1, s.len() as int)),
    decreases s.len(),
{
    let rest = s.subrange(1, s.len() as int);
    if s.len() == 1 {
        assert(s.drop_last() =~= Seq::<char>::empty());
        assert(rest =~= Seq::<char>::empty());
        assert(json_escaped(s.drop_last()) =~= Seq::<char>::empty());
        assert(json_escaped(rest) =~= Seq::<char>::empty());
        assert(s.last() == s[0]);
        assert(json_escaped(s) =~= json_char(s[0]));
    } else {
        lemma_json_escaped_front(s.drop_last());
        assert(s.drop_last().subrange(1, s.len() - 1) =~= rest.drop_last());
        assert(rest.last() == s.last());
        assert(json_escaped(s) =~= json_char(s[0]) + json_escaped(rest));
    }
}

/// A JSON string literal reads back as the text it was written from, and
/// ends exactly at its closing quote, whatever follows it.
pub proof fn law_json_string_round_trip(s: Seq<char>, rest: Seq<char>)
    ensures
        json_string_of(s)[0] == '"',
        read_json_body(json_string_of(s).subrange(1, json_string_of(s).len() as int) + rest)
            == Some((s, rest)),
    decreases s.len(),
{
    let lit = json_string_of(s);
    assert(lit.subrange(1, lit.len() as int) =~= json_escaped(s) + seq!['"']);
    if s.len() == 0 {
        assert(json_escaped(s) + seq!['"'] + rest =~= seq!['"'] + rest);
        assert((seq!['"'] + rest).subrange(1, rest.len() + 1 as int) =~= rest);
    } else {
        let tail = s.subrange(1, s.len() as int);
        law_json_string_round_trip(tail, rest);
        let lit2 = json_string_of(tail);
        assert(lit2.subrange(1, lit2.len() as int) =~= json_escaped(tail) + seq!['"']);
        lemma_json_escaped_front(s);
        assert(json_escaped(s) + seq!['"'] + rest =~= json_char(s[0]) + (json_escaped(tail)
            + seq!['"'] + rest));
        lemma_read_json_char(s[0], json_escaped(tail) + seq!['"'] + rest);
        assert(seq![s[0]] + tail =~= s);
    }
}

/// Writes a float's text as JSON: [`json_float`].
pub fn json_float_text(text: &str) -> (out: String)
    ensures
        out@ == json_float(text@),
{
    let t = chars_of(text);
    let n = t.len();
    let b: usize = if n > 0 && (t[0] == '+' || t[0] == '-') {
        1
    } else {
        0
    };
    if !is_decimal_number(t.as_slice(), b, n) {
        return String::from_str("null");
    }
    let mut out = String::new();
    if b == 1 && t[0] == '-' {
        push_char(&mut out, '-');
    }
    let a = digit_run_exec(t.as_slice(), b, n);
    if a == b {
        push_char(&mut out, '0');
        proof {
            assert(t@.subrange(b as int, a as int) =~= Seq::<char>::empty());
        }
    } else {
        let mut z = b;
        while z + 1 < a && t[z] == '0'
            invariant
                b <= z < a <= n == t@.len(),
                int_digits(t@.subrange(b as int, a as int)) == int_digits(
                    t@.subrange(z as int, a as int),
                ),
            decreases a - z,
        {
            assert(t@.subrange(z as int, a as int).drop_first() =~= t@.subrange(z + 1, a as int));
            z = z + 1;
        }
        push_range(&mut out, t.as_slice(), z, a);
    }
    let f = if a < n && t[a] == '.' {
        digit_run_exec(t.as_slice(), a + 1, n)
    } else {
        a
    };
    if f > a && f - a > 1 {
        push_range(&mut out, t.as_slice(), a, f);
    }
    push_range(&mut out, t.as_slice(), f, n);
    proof {
        let sign = if b == 1 && t@[0] == '-' {
            seq!['-']
        } else {
            seq![]
        };
        let frac = if f > a + 1 {
            t@.subrange(a as int, f as int)
        } else {
            seq![]
        };
        assert(out@ =~= sign + int_digits(t@.subrange(b as int, a as int)) + frac + t@.subrange(
            f as int,
            n as int,
        ));
    }
    out
}

/// JSON's number grammar: an optional `-`; `0` or a nonzero digit
/// followed by digits; optionally `.` and one or more digits; optionally
/// `e` or `E`, an optional sign and one or more digits.
pub open spec fn json_number(x: Seq<char>) -> bool {
    let n = x.len() as int;
    let b: int = if n > 0 && x[0] == '-' {
        1
    } else {
        0
    };
    let a = digit_run(x, b, n);
    &&& a > b
    &&& x[b] == '0' ==> a == b + 1
    &&& if a < n && x[a] == '.' {
        let f = digit_run(x, a + 1, n);
        f > a + 1 && exponent_ok(x, f, n)
    } else {
        exponent_ok(x, a, n)
    }
}

proof fn lemma_digit_run_facts(s: Seq<char>, i: int, hi: int)
    requires
        0 <= i <= hi <= s.len(),
    ensures
        i <= digit_run(s, i, hi) <= hi,
        forall|k: int| i <= k < digit_run(s, i, hi) ==> is_digit(#[trigger] s[k]),
        digit_run(s, i, hi) < hi ==> !is_digit(s[digit_run(s, i, hi)]),
    decreases hi - i,
{
    if i < hi && is_digit(s[i]) {
        lemma_digit_run_facts(s, i + 1, hi);
    }
}

proof fn lemma_digit_run_stop(s: Seq<char>, i: int, e: int, hi: int)
    requires
        0 <= i <= e <= hi <= s.len(),
        forall|k: int| i <= k < e ==> is_digit(#[trigger] s[k]),
        e < hi ==> !is_digit(s[e]),
    ensures
        digit_run(s, i, hi) == e,
    decreases e - i,
{
    if i < e {
        lemma_digit_run_stop(s, i + 1, e, hi);
    }
}

proof fn lemma_digit_run_shift(x: Seq<char>, i: int, hx: int, y: Seq<char>, j: int, hy: int)
    requires
        0 <= i <= hx <= x.len(),
        0 <= j <= hy <= y.len(),
        x.subrange(i, hx) == y.subrange(j, hy),
    ensures
        digit_run(x, i, hx) - i == digit_run(y, j, hy) - j,
    decreases hx - i,
{
    assert(x.subrange(i, hx).len() == hx - i);
    assert(y.subrange(j, hy).len() == hy - j);
    if i < hx {
        assert(x[i] == x.subrange(i, hx)[0]);
        assert(y[j] == y.subrange(j, hy)[0]);
        if is_digit(x[i]) {
            assert(x.subrange(i + 1, hx) =~= x.subrange(i, hx).subrange(1, hx - i));
            assert(y.subrange(j + 1, hy) =~= y.subrange(j, hy).subrange(1, hy - j));
            lemma_digit_run_shift(x, i + 1, hx, y, j + 1, hy);
        }
    }
}

proof fn lemma_exponent_shift(x: Seq<char>, i: int, hx: int, y: Seq<char>, j: int, hy: int)
    requires
        0 <= i <= hx <= x.len(),
        0 <= j <= hy <= y.len(),
        x.subrange(i, hx) == y.subrange(j, hy),
    ensures
        exponent_ok(x, i, hx) == exponent_ok(y, j, hy),
{
    let u = x.subrange(i, hx);
    assert(u.len() == hx - i && y.subrange(j, hy).len() == hy - j);
    if i < hx {
        assert(x[i] == u[0] && y[j] == u[0]);
        if i + 1 < hx {
            assert(x[i + 1] == u[1] && y[j + 1] == u[1]);
        }
        let gx = if i + 1 < hx && (x[i + 1] == '+' || x[i + 1] == '-') {
            i + 2
        } else {
            i + 1
        };
        let gy = if j + 1 < hy && (y[j + 1] == '+' || y[j + 1] == '-') {
            j + 2
        } else {
            j + 1
        };
        assert(gx - i == gy - j);
        assert(x.subrange(gx, hx) =~= u.subrange(gx - i, hx - i));
        assert(y.subrange(gy, hy) =~= u.subrange(gy - j, hy - j));
        lemma_digit_run_shift(x, gx, hx, y, gy, hy);
    }
}

proof fn lemma_int_digits(x: Seq<char>)
    requires
        forall|k: int| 0 <= k < x.len() ==> is_digit(#[trigger] x[k]),
    ensures
        int_digits(x).len() >= 1,
        forall|k: int| 0 <= k < int_digits(x).len() ==> is_digit(#[trigger] int_digits(x)[k]),
        int_digits(x)[0] == '0' ==> int_digits(x).len() == 1,
    decreases x.len(),
{
    if x.len() > 1 && x[0] == '0' {
        let r = x.drop_first();
        assert forall|k: int| 0 <= k < r.len() implies is_digit(#[trigger] r[k]) by {
            assert(r[k] == x[k + 1]);
        }
        lemma_int_digits(r);
    } else if x.len() == 0 {
        assert(int_digits(x) == seq!['0']);
    }
}

/// Every float is written as a JSON value: a number by JSON's grammar, or
/// `null`.
pub proof fn law_json_float_is_json(t: Seq<char>)
    ensures
        json_float(t) == "null"@ || json_number(json_float(t)),
{
    let n = t.len() as int;
    let b: int = if n > 0 && (t[0] == '+' || t[0] == '-') {
        1
    } else {
        0
    };
    if decimal_number(t, b, n) {
        let sign: Seq<char> = if b == 1 && t[0] == '-' {
            seq!['-']
        } else {
            seq![]
        };
        lemma_digit_run_facts(t, b, n);
        let a = digit_run(t, b, n);
        let f = if a < n && t[a] == '.' {
            digit_run(t, a + 1, n)
        } else {
            a
        };
        if a < n && t[a] == '.' {
            lemma_digit_run_facts(t, a + 1, n);
        }
        let frac = if f > a + 1 {
            t.subrange(a, f)
        } else {
            seq![]
        };
        let ip = t.subrange(b, a);
        assert forall|k: int| 0 <= k < ip.len() implies is_digit(#[trigger] ip[k]) by {
            assert(ip[k] == t[b + k]);
        }
        lemma_int_digits(ip);
        let d = int_digits(ip);
        let e = t.subrange(f, n);
        let y = sign + d + frac + e;
        assert(json_float(t) == y);
        // the exponent part is empty or starts with `e`/`E`
        assert(exponent_ok(t, f, n));
        assert(e.len() > 0 ==> e[0] == t[f]);
        let sb = sign.len() as int;
        assert(sb == 0 ==> y[0] == d[0]);
        let ya = sb + d.len();
        assert forall|k: int| sb <= k < ya implies is_digit(#[trigger] y[k]) by {
            assert(y[k] == d[k - sb]);
        }
        if ya < y.len() {
            if frac.len() > 0 {
                assert(y[ya] == frac[0]);
                assert(frac[0] == t[a]);
            } else {
                assert(y[ya] == e[0]);
            }
        }
        lemma_digit_run_stop(y, sb, ya, y.len() as int);
        assert(y[sb] == d[0]);
        let fe = ya + frac.len();
        assert(y.subrange(fe, y.len() as int) =~= e);
        lemma_exponent_shift(y, fe, y.len() as int, t, f, n);
        if frac.len() > 0 {
            assert(y[ya] == '.');
            assert forall|k: int| ya + 1 <= k < fe implies is_digit(#[trigger] y[k]) by {
                assert(y[k] == frac[k - ya]);
                assert(frac[k - ya] == t[a + (k - ya)]);
            }
            if fe < y.len() {
                assert(y[fe] == e[0]);
            }
            lemma_digit_run_stop(y, ya + 1, fe, y.len() as int);
        }
    }
}

/// How a diagnostic's severity is written in a report.
pub open spec fn severity_word(s: Severity) -> Seq<char> {
    if s == Severity::Warning {
        "warning"@
    } else {
        "error"@
    }
}

/// The human report lists one line `line N: severity: message` per
/// diagnostic, in order: an empty list reads `no issues found`, one
/// diagnostic reads as its line, and one more diagnostic adds its line at
/// the end.
pub proof fn law_human_report_lines(ds: Seq<DiagnosticModel>, x: DiagnosticModel)
    ensures
        human_text(seq![]) == "no issues found\n"@,
        human_text(seq![x]) == "line "@ + decimal(x.line as nat) + ": "@ + severity_word(x.severity)
            + ": "@ + x.message + "\n"@,
        ds.len() > 0 ==> human_text(ds.push(x)) == human_text(ds) + "line "@ + decimal(
            x.line as nat,
        ) + ": "@ + severity_word(x.severity) + ": "@ + x.message + "\n"@,
{
    let one = seq![x];
    assert(one.drop_last() =~= Seq::<DiagnosticModel>::empty());
    assert(human_lines(one.drop_last()) =~= Seq::<char>::empty());
    assert(severity_word(x.severity) == severity_name(x.severity));
    assert(human_text(one) =~= "line "@ + decimal(x.line as nat) + ": "@ + severity_word(
        x.severity,
    ) + ": "@ + x.message + "\n"@);
    if ds.len() > 0 {
        assert(ds.push(x).drop_last() =~= ds);
        assert(human_text(ds.push(x)) =~= human_text(ds) + "line "@ + decimal(x.line as nat)
            + ": "@ + severity_word(x.severity) + ": "@ + x.message + "\n"@);
    }
}

/// A diagnostic as the JSON report writes it.
pub open spec fn diagnostic_object(x: DiagnosticModel) -> Seq<char> {
    "{\"line\":"@ + decimal(x.line as nat) + ",\"severity\":\""@ + severity_word(x.severity)
        + "\",\"message\":"@ + json_string_of(x.message) + "}"@
}

/// What follows the diagnostics in the JSON report of the value `v`.
pub open spec fn report_tail(v: ValueModel) -> Seq<char> {
    "],\"value\":"@ + json_value_of(v) + "}"@
}

/// The JSON report holds its diagnostics as an array of objects separated
/// by commas, followed by the value: with no diagnostic the array is
/// empty, with one it holds that object, and one more diagnostic adds a
/// comma and its object at the end of the array.
pub proof fn law_json_report_diagnostics(v: ValueModel, ds: Seq<DiagnosticModel>, x: DiagnosticModel)
    ensures
        json_text(v, seq![]) == "{\"diagnostics\":["@ + report_tail(v),
        json_text(v, seq![x]) == "{\"diagnostics\":["@ + diagnostic_object(x) + report_tail(v),
        json_text(v, ds).len() >= report_tail(v).len(),
        json_text(v, ds).subrange(
            json_text(v, ds).len() - report_tail(v).len(),
            json_text(v, ds).len() as int,
        ) == report_tail(v),
        ds.len() > 0 ==> json_text(v, ds.push(x)) == json_text(v, ds).subrange(
            0,
            json_text(v, ds).len() - report_tail(v).len(),
        ) + ","@ + diagnostic_object(x) + report_tail(v),
{
    let head = "{\"diagnostics\":["@;
    let tail = report_tail(v);
    assert(severity_word(x.severity) == severity_name(x.severity));
    assert(diagnostic_object(x) == diag_json(x));
    assert(json_text(v, seq![]) =~= head + tail);
    assert(json_text(v, seq![x]) =~= head + diagnostic_object(x) + tail);
    let body = diags_json(ds, ds.len() as int);
    let whole = json_text(v, ds);
    assert(whole =~= head + body + tail);
    assert(whole.subrange(whole.len() - tail.len(), whole.len() as int) =~= tail);
    if ds.len() > 0 {
        let e = ds.push(x);
        assert(e[ds.len() as int] == x);
        assert forall|k: int| 0 <= k <= ds.len() implies diags_json(e, k) == diags_json(ds, k) by {
            lemma_diags_json_prefix(ds, x, k);
        }
        assert(diags_json(e, e.len() as int) == diags_json(ds, ds.len() as int) + ","@ + diag_json(x))
            by {
            assert(","@ =~= seq![',']) by {
                reveal_strlit(",");
            }
        }
        assert(whole.subrange(0, whole.len() - tail.len()) =~= head + body);
        assert(json_text(v, e) =~= head + body + ","@ + diagnostic_object(x) + tail);
    }
}

proof fn lemma_diags_json_prefix(ds: Seq<DiagnosticModel>, x: DiagnosticModel, k: int)
    requires
        0 <= k <= ds.len(),
    ensures
        diags_json(ds.push(x), k) == diags_json(ds, k),
    decreases k,
{
    if k > 0 {
        lemma_diags_json_prefix(ds, x, k - 1);
        assert(ds.push(x)[k - 1] == ds[k - 1]);
        assert(ds.push(x)[0] == ds[0]);
    }
}

proof fn lemma_json_items_prefix(items: Seq<ValueModel>, x: ValueModel, k: int)
    requires
        0 <= k <= items.len(),
    ensures
        json_items(items.push(x), k) == json_items(items, k),
    decreases k,
{
    if k > 0 {
        lemma_json_items_prefix(items, x, k - 1);
        assert(items.push(x)[k - 1] == items[k - 1]);
        assert(items.push(x)[0] == items[0]);
    }
}

proof fn lemma_json_entries_prefix(
    entries: Seq<(Seq<char>, ValueModel)>,
    x: (Seq<char>, ValueModel),
    k: int,
)
    requires
        0 <= k <= entries.len(),
    ensures
        json_entries(entries.push(x), k) == json_entries(entries, k),
    decreases k,
{
    if k > 0 {
        lemma_json_entries_prefix(entries, x, k - 1);
        assert(entries.push(x)[k - 1] == entries[k - 1]);
        assert(entries.push(x)[0] == entries[0]);
    }
}

/// A sequence is written as `[` and its items separated by commas and
/// `]`, and a mapping as `{` and its `"key":value` members separated by
/// commas and `}`: empty ones are `[]` and `{}`, one element is written
/// alone, and one more element adds a comma and itself before the closing
/// bracket.
pub proof fn law_json_collections(
    items: Seq<ValueModel>,
    x: ValueModel,
    entries: Seq<(Seq<char>, ValueModel)>,
    key: Seq<char>,
)
    ensures
        json_value_of(ValueModel::Sequence(seq![])) == "[]"@,
        json_value_of(ValueModel::Sequence(seq![x])) == "["@ + json_value_of(x) + "]"@,
        items.len() > 0 ==> json_value_of(ValueModel::Sequence(items.push(x))) == json_value_of(
            ValueModel::Sequence(items),
        ).drop_last() + ","@ + json_value_of(x) + "]"@,
        json_value_of(ValueModel::Mapping(seq![])) == "{}"@,
        json_value_of(ValueModel::Mapping(seq![(key, x)])) == "{"@ + json_string_of(key) + ":"@
            + json_value_of(x) + "}"@,
        entries.len() > 0 ==> json_value_of(ValueModel::Mapping(entries.push((key, x))))
            == json_value_of(ValueModel::Mapping(entries)).drop_last() + ","@ + json_string_of(key)
            + ":"@ + json_value_of(x) + "}"@,
{
    reveal_strlit("[]");
    reveal_strlit("[");
    reveal_strlit("]");
    reveal_strlit("{}");
    reveal_strlit("{");
    reveal_strlit("}");
    reveal_strlit(",");
    reveal_strlit(":");
    let one = seq![x];
    assert(one[0] == x);
    assert(json_value_of(ValueModel::Sequence(seq![])) =~= "[]"@);
    assert(json_value_of(ValueModel::Sequence(one)) =~= "["@ + json_value_of(x) + "]"@);
    if items.len() > 0 {
        let e = items.push(x);
        lemma_json_items_prefix(items, x, items.len() as int);
        assert(e[items.len() as int] == x);
        let old = json_value_of(ValueModel::Sequence(items));
        assert(old =~= seq!['['] + json_items(items, items.len() as int) + seq![']']);
        assert(old.drop_last() =~= seq!['['] + json_items(items, items.len() as int));
        assert(json_value_of(ValueModel::Sequence(e)) =~= old.drop_last() + ","@ + json_value_of(
            x,
        ) + "]"@);
    }
    let pair = seq![(key, x)];
    assert(pair[0] == (key, x));
    assert(json_value_of(ValueModel::Mapping(seq![])) =~= "{}"@);
    assert(json_value_of(ValueModel::Mapping(pair)) =~= "{"@ + json_string_of(key) + ":"@
        + json_value_of(x) + "}"@);
    if entries.len() > 0 {
        let e = entries.push((key, x));
        lemma_json_entries_prefix(entries, (key, x), entries.len() as int);
        assert(e[entries.len() as int] == (key, x));
        let old = json_value_of(ValueModel::Mapping(entries));
        assert(old =~= seq!['{'] + json_entries(entries, entries.len() as int) + seq!['}']);
        assert(old.drop_last() =~= seq!['{'] + json_entries(entries, entries.len() as int));
        assert(json_value_of(ValueModel::Mapping(e)) =~= old.drop_last() + ","@ + json_string_of(
            key,
        ) + ":"@ + json_value_of(x) + "}"@);
    }
}

} // verus!
