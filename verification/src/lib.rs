//! A dependency-free library for parsing and linting YAML configuration
//! files.
//!
//! [`load`] parses a practical subset of YAML (mappings, sequences, flow
//! collections, scalars, comments) into a [`Value`] tree and runs a small
//! set of lint checks (duplicate keys, tabs, trailing whitespace, long
//! lines) over the source text. The result is a [`Document`] that can be
//! rendered either for a human or as JSON via [`report::render`].
//!
//! [`schema::validate`] separately checks a parsed [`Value`] against a
//! [`Schema`] describing the shape a config is expected to have (required
//! fields, field types), for callers that want more than "it parsed".
use vstd::prelude::*;

pub mod dups;
pub mod flow;
pub mod lint;
pub mod mapping;
pub mod parser;
pub mod report;
pub mod scalar;
pub mod schema;
pub mod sort;
pub mod text;

pub use lint::LintConfig;
pub use parser::Diagnostic;
pub use parser::Document;
pub use parser::ParseError;
pub use parser::Severity;
pub use parser::Value;
pub use report::OutputFormat;
pub use schema::validate;
pub use schema::Field;
pub use schema::Schema;
pub use schema::ValidationError;

use dups::dup_keys;
use dups::law_duplicate_key_warnings;
use dups::reported;
use lint::at_least;
use lint::law_scan_lines;
use lint::law_scan_min_severity;
use parser::rank;
use lint::scan_spec;
use parser::diags_model;
use parser::law_parse_lines;
use parser::parse_spec;
use parser::DiagnosticModel;
use parser::ParseErrorModel;
use parser::ValueModel;
use text::lines_of;
use sort::law_sort_by_line;
use sort::lemma_sort_line_bounds;
use sort::on_line;
use sort::sort_by_line;
use sort::sorted_by_line;

verus! {

/// What loading `s` with the lint settings `c` gives: the parse result,
/// with the parser's diagnostics and the lint diagnostics, those below the
/// configured minimum severity dropped, merged and stably sorted by line
/// number.
pub open spec fn load_spec(s: Seq<char>, c: LintConfig) -> Result<
    (ValueModel, Seq<DiagnosticModel>),
    ParseErrorModel,
> {
    match parse_spec(s) {
        Err(e) => Err(e),
        Ok((v, d)) => Ok((v, sort_by_line(d.filter(at_least(c.min_severity)) + scan_spec(s, c)))),
    }
}

/// Parses `input` and merges the parser's own diagnostics (duplicate keys)
/// with the text-level lint diagnostics from [`lint::scan`] (using default
/// lint settings), sorted by line number. Use [`load_with_lint_config`] to
/// tune or disable individual lint rules.
pub fn load(input: &str) -> (r: Result<Document, ParseError>)
    ensures
        match load_spec(input@, lint::default_config()) {
            Ok((v, d)) => r matches Ok(doc) && doc.value@ == v && diags_model(doc.diagnostics@) == d,
            Err(e) => r matches Err(pe) && pe@ == e,
        },
{
    let config = LintConfig::default();
    load_with_lint_config(input, &config)
}

/// Like [`load`], but runs the text-level lint checks with a caller-supplied
/// [`LintConfig`] instead of the defaults.
pub fn load_with_lint_config(input: &str, lint_config: &LintConfig) -> (r: Result<
    Document,
    ParseError,
>)
    ensures
        match load_spec(input@, *lint_config) {
            Ok((v, d)) => r matches Ok(doc) && doc.value@ == v && diags_model(doc.diagnostics@) == d,
            Err(e) => r matches Err(pe) && pe@ == e,
        },
{
    let mut doc = match parser::parse(input) {
        Ok(doc) => doc,
        Err(e) => {
            return Err(e);
        },
    };
    let mut kept = lint::keep_at_least(&doc.diagnostics, &lint_config.min_severity);
    let mut extra = lint::scan(input, lint_config);
    let ghost d1 = kept@;
    let ghost d2 = extra@;
    kept.append(&mut extra);
    proof {
        assert(diags_model(kept@) =~= diags_model(d1) + diags_model(d2));
    }
    let sorted = sort::sort_diagnostics_by_line(kept);
    Ok(Document { value: doc.value, diagnostics: sorted })
}


/// Loading keeps every diagnostic of the parser and of the linter at or
/// above the configured minimum severity, and orders them by line: on each
/// line, the parser's diagnostics for that line come first, then the
/// linter's, each in their own order. The value is the parser's.
pub proof fn law_load_merges_diagnostics(s: Seq<char>, c: LintConfig)
    ensures
        match (load_spec(s, c), parse_spec(s)) {
            (Ok((v, d)), Ok((pv, pd))) => {
                &&& v == pv
                &&& sorted_by_line(d)
                &&& forall|l: int| #[trigger]
                    d.filter(on_line(l)) == pd.filter(at_least(c.min_severity)).filter(on_line(l))
                        + scan_spec(s, c).filter(on_line(l))
            },
            (Err(e), Err(pe)) => e == pe,
            _ => false,
        },
{
    if let Ok((pv, pd)) = parse_spec(s) {
        let kept = pd.filter(at_least(c.min_severity));
        let all = kept + scan_spec(s, c);
        law_sort_by_line(all);
        assert forall|l: int| #[trigger]
            sort_by_line(all).filter(on_line(l)) == kept.filter(on_line(l)) + scan_spec(
                s,
                c,
            ).filter(on_line(l)) by {
            Seq::filter_distributes_over_add(kept, scan_spec(s, c), on_line(l));
        }
    }
}

/// Every diagnostic that loading reports, and the line of a parse error,
/// names one of the input's lines.
pub proof fn law_load_lines(s: Seq<char>, c: LintConfig)
    requires
        s.len() <= usize::MAX,
    ensures
        match load_spec(s, c) {
            Ok((_, d)) => forall|k: int|
                0 <= k < d.len() ==> 1 <= (#[trigger] d[k]).line <= lines_of(s).len(),
            Err(e) => 1 <= e.line <= lines_of(s).len(),
        },
{
    law_parse_lines(s);
    law_scan_lines(s, c);
    if let Ok((_, pd)) = parse_spec(s) {
        let n = lines_of(s).len() as int;
        let kept = pd.filter(at_least(c.min_severity));
        let all = kept + scan_spec(s, c);
        assert forall|k: int| 0 <= k < all.len() implies 1 <= (#[trigger] all[k]).line <= n by {
            if k < kept.len() {
                assert(all[k] == kept[k]);
                assert(kept.contains(kept[k]));
                pd.lemma_filter_contains_rev(at_least(c.min_severity), kept[k]);
            } else {
                assert(all[k] == scan_spec(s, c)[k - kept.len()]);
            }
        }
        lemma_sort_line_bounds(all, 1, n);
    }
}

/// Loading with warnings kept reports every key that occurs twice in one
/// mapping of the loaded tree, whatever the lint checks.
pub proof fn law_load_reports_duplicates(s: Seq<char>, c: LintConfig)
    requires
        c.min_severity == Severity::Warning,
    ensures
        load_spec(s, c) matches Ok((v, d)) ==> forall|key: Seq<char>|
            #[trigger] dup_keys(v).contains(key) ==> reported(key, d),
{
    law_duplicate_key_warnings(s);
    if let Ok((v, pd)) = parse_spec(s) {
        let f = at_least(c.min_severity);
        let kept = pd.filter(f);
        let all = kept + scan_spec(s, c);
        let d = sort_by_line(all);
        law_sort_by_line(all);
        assert forall|key: Seq<char>| #[trigger] dup_keys(v).contains(key) implies reported(
            key,
            d,
        ) by {
            let k = choose|k: int|
                0 <= k < pd.len() && (#[trigger] pd[k]).severity == Severity::Warning
                    && pd[k].message == "duplicate key '"@ + key + "'"@;
            let x = pd[k];
            pd.lemma_filter_contains(f, k);
            let i = choose|i: int| 0 <= i < kept.len() && kept[i] == x;
            assert(all[i] == x);
            all.lemma_filter_contains(on_line(x.line), i);
            assert(d.filter(on_line(x.line)).contains(x));
            d.lemma_filter_contains_rev(on_line(x.line), x);
            let j = choose|j: int| 0 <= j < d.len() && d[j] == x;
            assert(d[j].severity == Severity::Warning);
        }
    }
}

/// Every diagnostic that loading reports, the parser's included, is at
/// least as severe as the configured minimum.
pub proof fn law_load_min_severity(s: Seq<char>, c: LintConfig)
    ensures
        load_spec(s, c) matches Ok((_, d)) ==> forall|k: int|
            0 <= k < d.len() ==> rank((#[trigger] d[k]).severity) >= rank(c.min_severity),
{
    law_scan_min_severity(s, c);
    if let Ok((v, pd)) = parse_spec(s) {
        let f = at_least(c.min_severity);
        let kept = pd.filter(f);
        let all = kept + scan_spec(s, c);
        let d = sort_by_line(all);
        law_sort_by_line(all);
        assert forall|k: int| 0 <= k < d.len() implies rank((#[trigger] d[k]).severity) >= rank(
            c.min_severity,
        ) by {
            let x = d[k];
            d.lemma_filter_contains(on_line(x.line), k);
            assert(all.filter(on_line(x.line)).contains(x));
            all.lemma_filter_contains_rev(on_line(x.line), x);
            let i = choose|i: int| 0 <= i < all.len() && all[i] == x;
            if i < kept.len() {
                assert(all[i] == kept[i]);
                pd.lemma_filter_pred(f, i);
            } else {
                assert(all[i] == scan_spec(s, c)[i - kept.len()]);
            }
        }
    }
}

} // verus!
