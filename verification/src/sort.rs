//! Stable ordering of diagnostics by line number.
use vstd::prelude::*;

use crate::parser::diags_model;
use crate::parser::Diagnostic;
use crate::parser::DiagnosticModel;

verus! {

/// Where a diagnostic on line `line` goes among the first `j` elements of
/// the sorted `s`: after every element whose line is not greater.
pub open spec fn insert_pos(s: Seq<DiagnosticModel>, line: int, j: int) -> int
    decreases j,
{
    if j > 0 && s[j - 1].line > line {
        insert_pos(s, line, j - 1)
    } else {
        j
    }
}

/// `d` inserted into the sorted `s` after every element on a line not
/// greater than its own.
pub open spec fn insert_by_line(s: Seq<DiagnosticModel>, d: DiagnosticModel) -> Seq<
    DiagnosticModel,
> {
    s.insert(insert_pos(s, d.line, s.len() as int), d)
}

/// The stable sort of `x` by line number (insertion sort).
pub open spec fn sort_by_line(x: Seq<DiagnosticModel>) -> Seq<DiagnosticModel>
    decreases x.len(),
{
    if x.len() == 0 {
        x
    } else {
        insert_by_line(sort_by_line(x.drop_last()), x.last())
    }
}

pub proof fn lemma_insert_pos_bounds(s: Seq<DiagnosticModel>, line: int, j: int)
    requires
        0 <= j <= s.len(),
    ensures
        0 <= insert_pos(s, line, j) <= j,
    decreases j,
{
    if j > 0 && s[j - 1].line > line {
        lemma_insert_pos_bounds(s, line, j - 1);
    }
}

pub proof fn lemma_sort_len(x: Seq<DiagnosticModel>)
    ensures
        sort_by_line(x).len() == x.len(),
    decreases x.len(),
{
    if x.len() > 0 {
        lemma_sort_len(x.drop_last());
        let s = sort_by_line(x.drop_last());
        lemma_insert_pos_bounds(s, x.last().line, s.len() as int);
    }
}

/// Sorts diagnostics by line number, keeping the order of those on the
/// same line.
pub fn sort_diagnostics_by_line(v: Vec<Diagnostic>) -> (out: Vec<Diagnostic>)
    ensures
        diags_model(out@) == sort_by_line(diags_model(v@)),
{
    let ghost x = diags_model(v@);
    let mut sorted: Vec<Diagnostic> = Vec::new();
    let mut rest = v;
    proof {
        assert(diags_model(rest@) =~= x.skip(0));
        assert(x.take(0) =~= Seq::<DiagnosticModel>::empty());
        assert(diags_model(sorted@) =~= sort_by_line(x.take(0)));
    }
    let n = rest.len();
    let mut k: usize = 0;
    while k < n
        invariant
            0 <= k <= n,
            x.len() == n,
            diags_model(rest@) == x.skip(k as int),
            diags_model(sorted@) == sort_by_line(x.take(k as int)),
        decreases n - k,
    {
        let ghost before = rest@;
        proof {
            assert(diags_model(before).len() == x.skip(k as int).len());
        }
        let d = rest.remove(0);
        proof {
            assert(diags_model(before)[0] == x.skip(k as int)[0]);
            assert(d@ == x[k as int]);
            assert forall|i: int| 0 <= i < rest@.len() implies diags_model(rest@)[i] == x.skip(
                k + 1,
            )[i] by {
                assert(rest@[i] == before[i + 1]);
                assert(diags_model(before)[i + 1] == x.skip(k as int)[i + 1]);
            }
            assert(diags_model(rest@) =~= x.skip(k + 1));
        }
        let ghost s = diags_model(sorted@);
        proof {
            lemma_sort_len(x.take(k as int));
            lemma_insert_pos_bounds(s, d.line as int, s.len() as int);
        }
        let mut j = sorted.len();
        while j > 0 && sorted[j - 1].line > d.line
            invariant
                0 <= j <= sorted@.len(),
                s == diags_model(sorted@),
                insert_pos(s, d.line as int, j as int) == insert_pos(
                    s,
                    d.line as int,
                    s.len() as int,
                ),
            decreases j,
        {
            j = j - 1;
        }
        let ghost dm = d@;
        sorted.insert(j, d);
        proof {
            assert(diags_model(sorted@) =~= s.insert(j as int, dm));
            assert(x.take(k + 1).drop_last() =~= x.take(k as int));
            assert(x.take(k + 1).last() == dm);
        }
        k = k + 1;
    }
    proof {
        assert(x.take(n as int) =~= x);
    }
    sorted
}


/// Line numbers never decrease along `s`.
pub open spec fn sorted_by_line(s: Seq<DiagnosticModel>) -> bool {
    forall|i: int, j: int| 0 <= i <= j < s.len() ==> s[i].line <= s[j].line
}

/// Selects the diagnostics on line `l`.
pub open spec fn on_line(l: int) -> spec_fn(DiagnosticModel) -> bool {
    |d: DiagnosticModel| d.line == l
}

pub proof fn lemma_filter_none(q: Seq<DiagnosticModel>, l: int)
    requires
        forall|k: int| 0 <= k < q.len() ==> (#[trigger] q[k]).line != l,
    ensures
        q.filter(on_line(l)) == Seq::<DiagnosticModel>::empty(),
    decreases q.len(),
{
    reveal_with_fuel(Seq::filter, 1);
    if q.len() > 0 {
        lemma_filter_none(q.drop_last(), l);
        assert(q.drop_last().filter(on_line(l)) =~= Seq::<DiagnosticModel>::empty());
    } else {
        assert(q.filter(on_line(l)) =~= Seq::<DiagnosticModel>::empty());
    }
}

proof fn lemma_insert_pos_facts(s: Seq<DiagnosticModel>, line: int, j: int)
    requires
        0 <= j <= s.len(),
    ensures
        forall|k: int| insert_pos(s, line, j) <= k < j ==> (#[trigger] s[k]).line > line,
        insert_pos(s, line, j) > 0 ==> s[insert_pos(s, line, j) - 1].line <= line,
        0 <= insert_pos(s, line, j) <= j,
    decreases j,
{
    if j > 0 && s[j - 1].line > line {
        lemma_insert_pos_facts(s, line, j - 1);
    }
}

proof fn lemma_push_filter(a: Seq<DiagnosticModel>, d: DiagnosticModel, f: spec_fn(DiagnosticModel) -> bool)
    ensures
        a.push(d).filter(f) == if f(d) {
            a.filter(f).push(d)
        } else {
            a.filter(f)
        },
{
    reveal_with_fuel(Seq::filter, 1);
    assert(a.push(d).drop_last() =~= a);
}

/// Sorting by line is stable: the result is ordered by line number, and
/// the diagnostics on any one line come out in the order they went in.
pub proof fn law_sort_by_line(x: Seq<DiagnosticModel>)
    ensures
        sorted_by_line(sort_by_line(x)),
        sort_by_line(x).len() == x.len(),
        forall|l: int| #[trigger] sort_by_line(x).filter(on_line(l)) == x.filter(on_line(l)),
    decreases x.len(),
{
    lemma_sort_len(x);
    if x.len() > 0 {
        let d = x.last();
        let rest = x.drop_last();
        law_sort_by_line(rest);
        let s = sort_by_line(rest);
        let n = s.len() as int;
        lemma_insert_pos_facts(s, d.line, n);
        let p = insert_pos(s, d.line, n);
        let a = s.subrange(0, p);
        let b = s.subrange(p, n);
        let r = sort_by_line(x);
        assert(r == a.push(d) + b);
        assert(s == a + b) by {
            assert(s =~= a + b);
        }
        assert forall|i: int, j: int| 0 <= i <= j < r.len() implies r[i].line <= r[j].line by {
            if j < p {
                assert(r[i] == s[i] && r[j] == s[j]);
            } else if j == p {
                if i < p {
                    assert(r[i] == s[i]);
                    assert(s[i].line <= s[p - 1].line);
                }
            } else {
                assert(r[j] == s[j - 1]);
                assert(s[j - 1].line > d.line);
                if i < p {
                    assert(r[i] == s[i]);
                } else if i > p {
                    assert(r[i] == s[i - 1]);
                }
            }
        }
        assert forall|l: int| #[trigger] r.filter(on_line(l)) == x.filter(on_line(l)) by {
            let f = on_line(l);
            lemma_push_filter(a, d, f);
            lemma_push_filter(rest, d, f);
            assert(rest.push(d) =~= x);
            Seq::filter_distributes_over_add(a.push(d), b, f);
            Seq::filter_distributes_over_add(a, b, f);
            assert(rest.filter(f) == s.filter(f));
            if d.line == l {
                assert forall|k: int| 0 <= k < b.len() implies (#[trigger] b[k]).line != l by {
                    assert(b[k] == s[p + k]);
                }
                lemma_filter_none(b, l);
                assert(a.filter(f) + b.filter(f) =~= a.filter(f));
                assert(a.filter(f).push(d) + b.filter(f) =~= a.filter(f).push(d));
            }
        }
    }
}

/// Sorting keeps every line number within bounds that held before.
pub proof fn lemma_sort_line_bounds(x: Seq<DiagnosticModel>, lo: int, hi: int)
    requires
        forall|k: int| 0 <= k < x.len() ==> lo <= (#[trigger] x[k]).line <= hi,
    ensures
        forall|k: int|
            0 <= k < sort_by_line(x).len() ==> lo <= (#[trigger] sort_by_line(x)[k]).line <= hi,
    decreases x.len(),
{
    lemma_sort_len(x);
    if x.len() > 0 {
        let rest = x.drop_last();
        assert forall|k: int| 0 <= k < rest.len() implies lo <= (#[trigger] rest[k]).line <= hi by {
            assert(rest[k] == x[k]);
        }
        lemma_sort_line_bounds(rest, lo, hi);
        let s = sort_by_line(rest);
        lemma_sort_len(rest);
        lemma_insert_pos_bounds(s, x.last().line, s.len() as int);
        let p = insert_pos(s, x.last().line, s.len() as int);
        let r = s.insert(p, x.last());
        assert(sort_by_line(x) == r);
        assert forall|k: int| 0 <= k < r.len() implies lo <= (#[trigger] r[k]).line <= hi by {
            if k < p {
                assert(r[k] == s[k]);
            } else if k == p {
                assert(r[k] == x[x.len() - 1]);
            } else {
                assert(r[k] == s[k - 1]);
            }
        }
    }
}

} // verus!
