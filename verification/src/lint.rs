//! Text-level lint checks: tabs, trailing whitespace and long lines.
use vstd::prelude::*;

use crate::parser::diags_model;
use crate::parser::lemma_diags_model_push;
use crate::parser::rank;
use crate::parser::Diagnostic;
use crate::parser::DiagnosticModel;
use crate::parser::Severity;
use crate::sort::lemma_filter_none;
use crate::sort::on_line;
use crate::sort::sorted_by_line;
use crate::text::chars_of;
use crate::text::decimal;
use crate::text::lines_of;
use crate::text::push_decimal;
use crate::text::push_str;
use crate::text::split_lines;

verus! {

const DEFAULT_MAX_LINE_LENGTH: usize = 120;

/// Controls which text-level lint checks run and how strict they are. A
/// caller with its own house style (longer lines, tabs on purpose, or a CI
/// job that only wants to fail on errors) builds one of these instead of
/// forking the rule set.
#[derive(Debug, Clone, Copy)]
pub struct LintConfig {
    pub check_tabs: bool,
    pub check_trailing_whitespace: bool,
    pub check_line_length: bool,
    pub max_line_length: usize,
    /// Diagnostics below this severity are dropped: by `scan`, and by
    /// `load_with_lint_config` from the parser's diagnostics too.
    pub min_severity: Severity,
}

/// The default lint settings: every check on, lines up to 120 characters,
/// and warnings kept.
pub open spec fn default_config() -> LintConfig {
    LintConfig {
        check_tabs: true,
        check_trailing_whitespace: true,
        check_line_length: true,
        max_line_length: 120,
        min_severity: Severity::Warning,
    }
}

impl Default for LintConfig {
    fn default() -> (c: Self)
        ensures
            c == default_config(),
    {
        LintConfig {
            check_tabs: true,
            check_trailing_whitespace: true,
            check_line_length: true,
            max_line_length: DEFAULT_MAX_LINE_LENGTH,
            min_severity: Severity::Warning,
        }
    }
}

/// The line `s[a..b]` holds a tab.
pub open spec fn has_tab(s: Seq<char>, a: int, b: int) -> bool {
    exists|k: int| a <= k < b && #[trigger] s[k] == '\t'
}

/// The line `s[a..b]` ends with a space or a tab.
pub open spec fn has_trailing_ws(s: Seq<char>, a: int, b: int) -> bool {
    b > a && (s[b - 1] == ' ' || s[b - 1] == '\t')
}

/// The message for a line of `len` characters over the limit `max`.
pub open spec fn length_message(max: nat, len: nat) -> Seq<char> {
    "line exceeds "@ + decimal(max) + " characters ("@ + decimal(len) + ")"@
}

/// The diagnostics the enabled checks raise for the line `s[a..b]`
/// numbered `number`, in the order tab, trailing whitespace, length.
#[verifier::opaque]
pub open spec fn line_lints(s: Seq<char>, a: int, b: int, number: int, c: LintConfig) -> Seq<
    DiagnosticModel,
> {
    (if c.check_tabs && has_tab(s, a, b) {
        seq![
            DiagnosticModel {
                line: number,
                severity: Severity::Error,
                message: "tab character found; YAML indentation must use spaces"@,
            },
        ]
    } else {
        seq![]
    }) + (if c.check_trailing_whitespace && has_trailing_ws(s, a, b) {
        seq![
            DiagnosticModel {
                line: number,
                severity: Severity::Warning,
                message: "trailing whitespace"@,
            },
        ]
    } else {
        seq![]
    }) + (if c.check_line_length && b - a > c.max_line_length {
        seq![
            DiagnosticModel {
                line: number,
                severity: Severity::Warning,
                message: length_message(c.max_line_length as nat, (b - a) as nat),
            },
        ]
    } else {
        seq![]
    })
}

/// The diagnostics for the lines `spans[i..]` of `s` (numbered from
/// `i + 1`), before the severity filter.
pub open spec fn lints_from(s: Seq<char>, spans: Seq<(int, int)>, i: int, c: LintConfig) -> Seq<
    DiagnosticModel,
>
    decreases spans.len() - i,
{
    if i < 0 || i >= spans.len() {
        seq![]
    } else {
        line_lints(s, spans[i].0, spans[i].1, i + 1, c) + lints_from(s, spans, i + 1, c)
    }
}

/// Keeps the diagnostics at or above `min`.
pub open spec fn at_least(min: Severity) -> spec_fn(DiagnosticModel) -> bool {
    |d: DiagnosticModel| rank(d.severity) >= rank(min)
}

/// What `scan` returns for the input `s`: the diagnostics of every line
/// in order, without those below the configured minimum severity.
pub open spec fn scan_spec(s: Seq<char>, c: LintConfig) -> Seq<DiagnosticModel> {
    lints_from(s, lines_of(s), 0, c).filter(at_least(c.min_severity))
}

fn push_diag(diags: &mut Vec<Diagnostic>, d: Diagnostic)
    ensures
        diags_model(final(diags)@) == diags_model(old(diags)@).push(d@),
{
    proof {
        lemma_diags_model_push(diags@, d);
    }
    diags.push(d);
}

/// Text-level checks that do not require a successful parse, so they still
/// run (and still help) on files that fail to parse outright.
pub fn scan(input: &str, config: &LintConfig) -> (diags: Vec<Diagnostic>)
    ensures
        diags_model(diags@) == scan_spec(input@, *config),
{
    let s = chars_of(input);
    let spans = split_lines(s.as_slice());
    let ghost all = lines_of(s@);
    let mut found: Vec<Diagnostic> = Vec::new();
    proof {
        assert(diags_model(found@) =~= Seq::<DiagnosticModel>::empty());
    }
    let mut i: usize = 0;
    while i < spans.len()
        invariant
            s@ == input@,
            all == lines_of(s@),
            spans@.len() == all.len(),
            forall|k: int|
                0 <= k < spans@.len() ==> (#[trigger] spans@[k]).0 as int == all[k].0
                    && spans@[k].1 as int == all[k].1,
            forall|k: int| 0 <= k < spans@.len() ==> (#[trigger] spans@[k]).0 <= spans@[k].1 <= s@.len(),
            spans@.len() <= s@.len(),
            0 <= i <= spans@.len(),
            diags_model(found@) + lints_from(s@, all, i as int, *config) == lints_from(
                s@,
                all,
                0,
                *config,
            ),
        decreases spans.len() - i,
    {
        let (a, b) = spans[i];
        let number = i + 1;
        let ghost before = diags_model(found@);
        let ghost sp = spans@[i as int];
        if config.check_tabs {
            let mut k = a;
            let mut tab = false;
            while k < b
                invariant
                    a <= k <= b <= s@.len(),
                    tab == (exists|j: int| a <= j < k && #[trigger] s@[j] == '\t'),
                decreases b - k,
            {
                if s[k] == '\t' {
                    tab = true;
                }
                k = k + 1;
            }
            if tab {
                push_diag(
                    &mut found,
                    Diagnostic {
                        line: number,
                        severity: Severity::Error,
                        message: String::from_str(
                            "tab character found; YAML indentation must use spaces",
                        ),
                    },
                );
            }
        }
        let ghost after_tab = diags_model(found@);
        if config.check_trailing_whitespace && b > a && (s[b - 1] == ' ' || s[b - 1] == '\t') {
            push_diag(
                &mut found,
                Diagnostic {
                    line: number,
                    severity: Severity::Warning,
                    message: String::from_str("trailing whitespace"),
                },
            );
        }
        let ghost after_trailing = diags_model(found@);
        if config.check_line_length {
            let len = b - a;
            if len > config.max_line_length {
                let mut message = String::from_str("line exceeds ");
                push_decimal(&mut message, config.max_line_length as u64);
                push_str(&mut message, " characters (");
                push_decimal(&mut message, len as u64);
                push_str(&mut message, ")");
                push_diag(
                    &mut found,
                    Diagnostic { line: number, severity: Severity::Warning, message },
                );
            }
        }
        proof {
            reveal(line_lints);
            assert(diags_model(found@) =~= before + line_lints(s@, a as int, b as int, number as int, *config));
            assert(lints_from(s@, all, i as int, *config) == line_lints(
                s@,
                all[i as int].0,
                all[i as int].1,
                i + 1,
                *config,
            ) + lints_from(s@, all, i + 1, *config));
            assert(diags_model(found@) + lints_from(s@, all, i + 1, *config) =~= before
                + lints_from(s@, all, i as int, *config));
        }
        i = i + 1;
    }
    proof {
        assert(diags_model(found@) =~= lints_from(s@, all, 0, *config));
    }
    keep_at_least(&found, &config.min_severity)
}

/// The diagnostics of `found` at or above `min`, in order.
pub fn keep_at_least(found: &Vec<Diagnostic>, min: &Severity) -> (kept: Vec<Diagnostic>)
    ensures
        diags_model(kept@) == diags_model(found@).filter(at_least(*min)),
{
    let ghost everything = diags_model(found@);
    let mut kept: Vec<Diagnostic> = Vec::new();
    proof {
        reveal_with_fuel(Seq::filter, 1);
        assert(diags_model(kept@) =~= everything.take(0).filter(at_least(*min)));
    }
    let mut k: usize = 0;
    while k < found.len()
        invariant
            everything == diags_model(found@),
            0 <= k <= found@.len(),
            diags_model(kept@) == everything.take(k as int).filter(at_least(*min)),
        decreases found.len() - k,
    {
        let d = &found[k];
        proof {
            reveal_with_fuel(Seq::filter, 1);
            assert(everything.take(k + 1).drop_last() =~= everything.take(k as int));
            assert(everything.take(k + 1).last() == d@);
        }
        if d.severity.at_least(min) {
            let copy = Diagnostic { line: d.line, severity: d.severity, message: d.message.clone() };
            push_diag(&mut kept, copy);
        }
        k = k + 1;
    }
    proof {
        assert(everything.take(found@.len() as int) =~= everything);
    }
    kept
}


/// Every diagnostic `scan` returns is at least as severe as the
/// configured minimum.
pub proof fn law_scan_min_severity(s: Seq<char>, c: LintConfig)
    ensures
        forall|k: int|
            0 <= k < scan_spec(s, c).len() ==> rank((#[trigger] scan_spec(s, c)[k]).severity)
                >= rank(c.min_severity),
{
    assert forall|k: int| 0 <= k < scan_spec(s, c).len() implies rank(
        (#[trigger] scan_spec(s, c)[k]).severity,
    ) >= rank(c.min_severity) by {
        lints_from(s, lines_of(s), 0, c).lemma_filter_pred(at_least(c.min_severity), k);
    }
}

/// What a diagnostic of the enabled checks can be: only the tab check
/// raises errors, and the other two raise warnings.
pub open spec fn allowed_by(d: DiagnosticModel, c: LintConfig) -> bool {
    &&& d.severity == Severity::Error ==> c.check_tabs
    &&& d.severity == Severity::Warning ==> (c.check_trailing_whitespace || c.check_line_length)
}

proof fn lemma_lints_allowed(s: Seq<char>, spans: Seq<(int, int)>, i: int, c: LintConfig)
    ensures
        forall|k: int|
            0 <= k < lints_from(s, spans, i, c).len() ==> allowed_by(
                #[trigger] lints_from(s, spans, i, c)[k],
                c,
            ),
    decreases spans.len() - i,
{
    if 0 <= i < spans.len() {
        lemma_lints_allowed(s, spans, i + 1, c);
        reveal(line_lints);
        let here = line_lints(s, spans[i].0, spans[i].1, i + 1, c);
        let rest = lints_from(s, spans, i + 1, c);
        assert forall|k: int| 0 <= k < here.len() implies allowed_by(#[trigger] here[k], c) by {}
        assert forall|k: int| 0 <= k < (here + rest).len() implies allowed_by(
            #[trigger] (here + rest)[k],
            c,
        ) by {
            if k < here.len() {
                assert((here + rest)[k] == here[k]);
            } else {
                assert((here + rest)[k] == rest[k - here.len()]);
            }
        }
    }
}

/// A check that is turned off contributes nothing: without the tab check
/// `scan` reports no errors, without the trailing-whitespace and length
/// checks it reports no warnings, and with all three off it reports
/// nothing.
pub proof fn law_scan_disabled_checks(s: Seq<char>, c: LintConfig)
    ensures
        !c.check_tabs ==> forall|k: int|
            0 <= k < scan_spec(s, c).len() ==> (#[trigger] scan_spec(s, c)[k]).severity
                == Severity::Warning,
        !c.check_trailing_whitespace && !c.check_line_length ==> forall|k: int|
            0 <= k < scan_spec(s, c).len() ==> (#[trigger] scan_spec(s, c)[k]).severity
                == Severity::Error,
        !c.check_tabs && !c.check_trailing_whitespace && !c.check_line_length ==> scan_spec(
            s,
            c,
        ).len() == 0,
{
    let all = lints_from(s, lines_of(s), 0, c);
    let f = at_least(c.min_severity);
    lemma_lints_allowed(s, lines_of(s), 0, c);
    #[allow(deprecated)]
    all.filter_lemma(f);
    assert forall|k: int| 0 <= k < all.filter(f).len() implies allowed_by(
        #[trigger] all.filter(f)[k],
        c,
    ) by {
        assert(all.filter(f).contains(all.filter(f)[k]));
        all.lemma_filter_contains_rev(f, all.filter(f)[k]);
    }
    if !c.check_tabs && !c.check_trailing_whitespace && !c.check_line_length && all.filter(f).len()
        > 0 {
        let d = all.filter(f)[0];
        assert(allowed_by(d, c));
        match d.severity {
            Severity::Error => {},
            Severity::Warning => {},
        }
    }
}

proof fn lemma_lints_lines(s: Seq<char>, spans: Seq<(int, int)>, i: int, c: LintConfig)
    requires
        0 <= i,
    ensures
        forall|k: int|
            0 <= k < lints_from(s, spans, i, c).len() ==> 1 <= (#[trigger] lints_from(
                s,
                spans,
                i,
                c,
            )[k]).line <= spans.len(),
    decreases spans.len() - i,
{
    if i < spans.len() {
        lemma_lints_lines(s, spans, i + 1, c);
        lemma_line_lints_line(s, spans[i].0, spans[i].1, i + 1, c);
        let here = line_lints(s, spans[i].0, spans[i].1, i + 1, c);
        let rest = lints_from(s, spans, i + 1, c);
        assert forall|k: int| 0 <= k < (here + rest).len() implies 1 <= (#[trigger] (here
            + rest)[k]).line <= spans.len() by {
            if k < here.len() {
                assert((here + rest)[k] == here[k]);
            } else {
                assert((here + rest)[k] == rest[k - here.len()]);
            }
        }
    }
}

/// Every diagnostic that `scan` reports names one of the input's lines.
pub proof fn law_scan_lines(s: Seq<char>, c: LintConfig)
    ensures
        forall|k: int|
            0 <= k < scan_spec(s, c).len() ==> 1 <= (#[trigger] scan_spec(s, c)[k]).line
                <= lines_of(s).len(),
{
    let all = lints_from(s, lines_of(s), 0, c);
    let f = at_least(c.min_severity);
    lemma_lints_lines(s, lines_of(s), 0, c);
    #[allow(deprecated)]
    all.filter_lemma(f);
    assert forall|k: int| 0 <= k < all.filter(f).len() implies 1 <= (
    #[trigger] all.filter(f)[k]).line <= lines_of(s).len() by {
        assert(all.filter(f).contains(all.filter(f)[k]));
        all.lemma_filter_contains_rev(f, all.filter(f)[k]);
    }
}

proof fn lemma_filter_all(q: Seq<DiagnosticModel>, l: int)
    requires
        forall|k: int| 0 <= k < q.len() ==> (#[trigger] q[k]).line == l,
    ensures
        q.filter(on_line(l)) == q,
    decreases q.len(),
{
    if q.len() > 0 {
        let r = q.drop_last();
        assert forall|k: int| 0 <= k < r.len() implies (#[trigger] r[k]).line == l by {
            assert(r[k] == q[k]);
        }
        lemma_filter_all(r, l);
        r.lemma_filter_push(q.last(), on_line(l));
        assert(r.push(q.last()) =~= q);
    } else {
        reveal_with_fuel(Seq::filter, 1);
        assert(q.filter(on_line(l)) =~= q);
    }
}

proof fn lemma_filter_commute(
    x: Seq<DiagnosticModel>,
    f: spec_fn(DiagnosticModel) -> bool,
    g: spec_fn(DiagnosticModel) -> bool,
)
    ensures
        x.filter(f).filter(g) == x.filter(g).filter(f),
    decreases x.len(),
{
    if x.len() > 0 {
        let r = x.drop_last();
        let e = x.last();
        assert(r.push(e) =~= x);
        lemma_filter_commute(r, f, g);
        r.lemma_filter_push(e, f);
        r.lemma_filter_push(e, g);
        r.filter(f).lemma_filter_push(e, g);
        r.filter(g).lemma_filter_push(e, f);
    } else {
        reveal_with_fuel(Seq::filter, 1);
        assert(x.filter(f) =~= x);
        assert(x.filter(g) =~= x);
        assert(x.filter(f).filter(g) =~= x);
        assert(x.filter(g).filter(f) =~= x);
    }
}

proof fn lemma_filter_sorted(x: Seq<DiagnosticModel>, f: spec_fn(DiagnosticModel) -> bool)
    requires
        sorted_by_line(x),
    ensures
        sorted_by_line(x.filter(f)),
    decreases x.len(),
{
    if x.len() > 0 {
        let r = x.drop_last();
        let e = x.last();
        assert(r.push(e) =~= x);
        assert(sorted_by_line(r)) by {
            assert forall|i: int, j: int| 0 <= i <= j < r.len() implies r[i].line <= r[j].line by {
                assert(r[i] == x[i] && r[j] == x[j]);
            }
        }
        lemma_filter_sorted(r, f);
        r.lemma_filter_push(e, f);
        let q = r.filter(f);
        if f(e) {
            assert forall|i: int, j: int| 0 <= i <= j < q.push(e).len() implies q.push(e)[i].line
                <= q.push(e)[j].line by {
                if j == q.len() {
                    if i < q.len() {
                        assert(q.contains(q[i]));
                        r.lemma_filter_contains_rev(f, q[i]);
                        let m = choose|m: int| 0 <= m < r.len() && r[m] == q[i];
                        assert(x[m] == r[m]);
                        assert(x[x.len() - 1] == e);
                    }
                } else {
                    assert(q.push(e)[i] == q[i] && q.push(e)[j] == q[j]);
                }
            }
        }
    } else {
        reveal_with_fuel(Seq::filter, 1);
        assert(x.filter(f) =~= x);
    }
}

#[verifier::spinoff_prover]
proof fn lemma_lints_sorted(s: Seq<char>, spans: Seq<(int, int)>, i: int, c: LintConfig)
    requires
        0 <= i,
    ensures
        sorted_by_line(lints_from(s, spans, i, c)),
        forall|k: int|
            0 <= k < lints_from(s, spans, i, c).len() ==> (#[trigger] lints_from(
                s,
                spans,
                i,
                c,
            )[k]).line >= i + 1,
    decreases spans.len() - i,
{
    if i < spans.len() {
        lemma_lints_sorted(s, spans, i + 1, c);
        let here = line_lints(s, spans[i].0, spans[i].1, i + 1, c);
        let rest = lints_from(s, spans, i + 1, c);
        let all = here + rest;
        lemma_line_lints_line(s, spans[i].0, spans[i].1, i + 1, c);
        assert forall|k: int| 0 <= k < all.len() implies (#[trigger] all[k]).line >= i + 1 by {
            if k < here.len() {
                assert(all[k] == here[k]);
            } else {
                assert(all[k] == rest[k - here.len()]);
            }
        }
        assert forall|a: int, b: int| 0 <= a <= b < all.len() implies all[a].line
            <= all[b].line by {
            if b < here.len() {
                assert(all[a] == here[a] && all[b] == here[b]);
            } else if a < here.len() {
                assert(all[a] == here[a] && all[b] == rest[b - here.len()]);
            } else {
                assert(all[a] == rest[a - here.len()] && all[b] == rest[b - here.len()]);
            }
        }
    }
}

proof fn lemma_line_lints_line(s: Seq<char>, a: int, b: int, number: int, c: LintConfig)
    ensures
        forall|k: int|
            0 <= k < line_lints(s, a, b, number, c).len() ==> (#[trigger] line_lints(
                s,
                a,
                b,
                number,
                c,
            )[k]).line == number,
{
    reveal(line_lints);
}

#[verifier::spinoff_prover]
proof fn lemma_lints_on_line(s: Seq<char>, spans: Seq<(int, int)>, i: int, c: LintConfig, n: int)
    requires
        0 <= i,
    ensures
        lints_from(s, spans, i, c).filter(on_line(n)) == if i < n <= spans.len() {
            line_lints(s, spans[n - 1].0, spans[n - 1].1, n, c)
        } else {
            seq![]
        },
    decreases spans.len() - i,
{
    if i < spans.len() {
        lemma_lints_on_line(s, spans, i + 1, c, n);
        let here = line_lints(s, spans[i].0, spans[i].1, i + 1, c);
        let rest = lints_from(s, spans, i + 1, c);
        Seq::filter_distributes_over_add(here, rest, on_line(n));
        lemma_line_lints_line(s, spans[i].0, spans[i].1, i + 1, c);
        if n == i + 1 {
            lemma_filter_all(here, n);
            assert(here + Seq::<DiagnosticModel>::empty() =~= here);
        } else {
            lemma_filter_none(here, n);
            assert(Seq::<DiagnosticModel>::empty() + rest.filter(on_line(n)) =~= rest.filter(
                on_line(n),
            ));
        }
    } else {
        reveal_with_fuel(Seq::filter, 1);
        assert(lints_from(s, spans, i, c).filter(on_line(n)) =~= Seq::<DiagnosticModel>::empty());
    }
}

/// `scan` reports in line order, and what it reports for line `n` is
/// exactly, in this order, a tab error when the tab check is on and the
/// line holds a tab, a trailing-whitespace warning when that check is on
/// and the line ends with a space or tab, and a length warning when that
/// check is on and the line has more characters than allowed, of which
/// those at or above the minimum severity are kept.
pub proof fn law_scan_per_line(s: Seq<char>, c: LintConfig, n: int)
    ensures
        sorted_by_line(scan_spec(s, c)),
        scan_spec(s, c).filter(on_line(n)) == if 1 <= n <= lines_of(s).len() {
            line_lints(s, lines_of(s)[n - 1].0, lines_of(s)[n - 1].1, n, c).filter(
                at_least(c.min_severity),
            )
        } else {
            seq![]
        },
{
    let all = lints_from(s, lines_of(s), 0, c);
    lemma_lints_sorted(s, lines_of(s), 0, c);
    lemma_filter_sorted(all, at_least(c.min_severity));
    lemma_filter_commute(all, at_least(c.min_severity), on_line(n));
    lemma_lints_on_line(s, lines_of(s), 0, c, n);
    if !(1 <= n <= lines_of(s).len()) {
        reveal_with_fuel(Seq::filter, 1);
        assert(Seq::<DiagnosticModel>::empty().filter(at_least(c.min_severity)) =~= Seq::<
            DiagnosticModel,
        >::empty());
    }
}

/// The tab error on line `n`.
pub open spec fn tab_error(n: int) -> DiagnosticModel {
    DiagnosticModel {
        line: n,
        severity: Severity::Error,
        message: "tab character found; YAML indentation must use spaces"@,
    }
}

/// The trailing-whitespace warning on line `n`.
pub open spec fn trailing_warning(n: int) -> DiagnosticModel {
    DiagnosticModel { line: n, severity: Severity::Warning, message: "trailing whitespace"@ }
}

/// The warning that line `n`, `len` characters long, is longer than `max`.
pub open spec fn length_warning(n: int, max: nat, len: nat) -> DiagnosticModel {
    DiagnosticModel {
        line: n,
        severity: Severity::Warning,
        message: "line exceeds "@ + decimal(max) + " characters ("@ + decimal(len) + ")"@,
    }
}

proof fn lemma_line_lints_contains(
    s: Seq<char>,
    a: int,
    b: int,
    n: int,
    c: LintConfig,
    x: DiagnosticModel,
)
    ensures
        line_lints(s, a, b, n, c).contains(x) <==> {
            ||| (x == tab_error(n) && c.check_tabs && exists|j: int| a <= j < b && s[j] == '\t')
            ||| (x == trailing_warning(n) && c.check_trailing_whitespace && b > a && (s[b - 1]
                == ' ' || s[b - 1] == '\t'))
            ||| (x == length_warning(n, c.max_line_length as nat, (b - a) as nat)
                && c.check_line_length && b - a > c.max_line_length)
        },
{
    reveal(line_lints);
    let p1: Seq<DiagnosticModel> = if c.check_tabs && has_tab(s, a, b) {
        seq![tab_error(n)]
    } else {
        seq![]
    };
    let p2: Seq<DiagnosticModel> = if c.check_trailing_whitespace && has_trailing_ws(s, a, b) {
        seq![trailing_warning(n)]
    } else {
        seq![]
    };
    let p3: Seq<DiagnosticModel> = if c.check_line_length && b - a > c.max_line_length {
        seq![length_warning(n, c.max_line_length as nat, (b - a) as nat)]
    } else {
        seq![]
    };
    assert(length_message(c.max_line_length as nat, (b - a) as nat) == length_warning(
        n,
        c.max_line_length as nat,
        (b - a) as nat,
    ).message);
    let ll = line_lints(s, a, b, n, c);
    assert(ll =~= p1 + p2 + p3);
    if ll.contains(x) {
        let i = choose|i: int| 0 <= i < ll.len() && ll[i] == x;
        if i < p1.len() {
            assert(x == p1[i]);
        } else if i < p1.len() + p2.len() {
            assert(x == p2[i - p1.len()]);
        } else {
            assert(x == p3[i - p1.len() - p2.len()]);
        }
    }
    if x == tab_error(n) && c.check_tabs && exists|j: int| a <= j < b && s[j] == '\t' {
        assert(ll[0] == x);
    }
    if x == trailing_warning(n) && c.check_trailing_whitespace && b > a && (s[b - 1] == ' ' || s[b
        - 1] == '\t') {
        assert(ll[p1.len() as int] == x);
    }
    if x == length_warning(n, c.max_line_length as nat, (b - a) as nat) && c.check_line_length && b
        - a > c.max_line_length {
        assert(ll[(p1.len() + p2.len()) as int] == x);
    }
}

proof fn lemma_scan_has(s: Seq<char>, c: LintConfig, n: int, x: DiagnosticModel)
    requires
        1 <= n <= lines_of(s).len(),
        x.line == n,
    ensures
        scan_spec(s, c).contains(x) <==> (line_lints(
            s,
            lines_of(s)[n - 1].0,
            lines_of(s)[n - 1].1,
            n,
            c,
        ).contains(x) && rank(x.severity) >= rank(c.min_severity)),
{
    let sc = scan_spec(s, c);
    let ll = line_lints(s, lines_of(s)[n - 1].0, lines_of(s)[n - 1].1, n, c);
    let f = at_least(c.min_severity);
    law_scan_per_line(s, c, n);
    if sc.contains(x) {
        let k = choose|k: int| 0 <= k < sc.len() && sc[k] == x;
        sc.lemma_filter_contains(on_line(n), k);
        ll.lemma_filter_contains_rev(f, x);
        let i = choose|i: int| 0 <= i < ll.filter(f).len() && ll.filter(f)[i] == x;
        ll.lemma_filter_pred(f, i);
    }
    if ll.contains(x) && rank(x.severity) >= rank(c.min_severity) {
        let i = choose|i: int| 0 <= i < ll.len() && ll[i] == x;
        ll.lemma_filter_contains(f, i);
        sc.lemma_filter_contains_rev(on_line(n), x);
    }
}

/// What `scan` reports for line `n` (its characters `s[a..b]`, as
/// `str::lines` cuts them): a tab error exactly when the tab check is on
/// and the line holds a tab; a trailing-whitespace warning exactly when
/// that check is on, warnings are kept and the line ends with a space or
/// a tab; a warning that the line exceeds the maximum, with its length in
/// characters, exactly when that check is on, warnings are kept and the
/// whole line has more characters than the maximum; and nothing else.
pub proof fn law_scan_checks(s: Seq<char>, c: LintConfig, n: int)
    requires
        1 <= n <= lines_of(s).len(),
    ensures
        ({
            let a = lines_of(s)[n - 1].0;
            let b = lines_of(s)[n - 1].1;
            let sc = scan_spec(s, c);
            let warnings = c.min_severity == Severity::Warning;
            &&& sc.contains(tab_error(n)) <==> c.check_tabs && exists|j: int|
                a <= j < b && s[j] == '\t'
            &&& sc.contains(trailing_warning(n)) <==> c.check_trailing_whitespace && warnings && b
                > a && (s[b - 1] == ' ' || s[b - 1] == '\t')
            &&& sc.contains(length_warning(n, c.max_line_length as nat, (b - a) as nat))
                <==> c.check_line_length && warnings && b - a > c.max_line_length
            &&& forall|k: int|
                0 <= k < sc.len() && (#[trigger] sc[k]).line == n ==> sc[k] == tab_error(n) || sc[k]
                    == trailing_warning(n) || sc[k] == length_warning(
                    n,
                    c.max_line_length as nat,
                    (b - a) as nat,
                )
        }),
{
    let a = lines_of(s)[n - 1].0;
    let b = lines_of(s)[n - 1].1;
    let sc = scan_spec(s, c);
    let ml = c.max_line_length as nat;
    reveal_strlit("trailing whitespace");
    reveal_strlit("line exceeds ");
    assert(trailing_warning(n).message[0] == 't');
    assert(length_warning(n, ml, (b - a) as nat).message[0] == 'l');
    assert(trailing_warning(n) != length_warning(n, ml, (b - a) as nat));
    lemma_scan_has(s, c, n, tab_error(n));
    lemma_line_lints_contains(s, a, b, n, c, tab_error(n));
    lemma_scan_has(s, c, n, trailing_warning(n));
    lemma_line_lints_contains(s, a, b, n, c, trailing_warning(n));
    lemma_scan_has(s, c, n, length_warning(n, ml, (b - a) as nat));
    lemma_line_lints_contains(s, a, b, n, c, length_warning(n, ml, (b - a) as nat));
    assert(rank(Severity::Error) >= rank(c.min_severity));
    assert forall|k: int| 0 <= k < sc.len() && (#[trigger] sc[k]).line == n implies sc[k]
        == tab_error(n) || sc[k] == trailing_warning(n) || sc[k] == length_warning(
        n,
        ml,
        (b - a) as nat,
    ) by {
        assert(sc.contains(sc[k]));
        lemma_scan_has(s, c, n, sc[k]);
        lemma_line_lints_contains(s, a, b, n, c, sc[k]);
    }
}

} // verus!
