//! Block mappings entry by entry: each entry is the key and value of one
//! line at the mapping's indentation, in line order, and the mapping's own
//! diagnostics are one duplicate-key warning per repeated key.
use vstd::prelude::*;

use crate::dups::all_justified;
use crate::dups::dup_keys;
use crate::dups::extends;
use crate::dups::justified_by;
use crate::dups::lemma_block_dups;
use crate::dups::lemma_extends_trans;
use crate::dups::lemma_scalar_value_dups;
use crate::flow::duplicate_diag;
use crate::flow::has_key;
use crate::parser::block_spec;
use crate::parser::count_at;
use crate::parser::error_at;
use crate::parser::law_block_mapping_shape;
use crate::parser::lemma_nested_end_bounds;
use crate::parser::map_entries;
use crate::parser::nested_end;
use crate::parser::scalar_value;
use crate::parser::DiagnosticModel;
use crate::parser::ItemResult;
use crate::parser::Line;
use crate::parser::ValueModel;
use crate::scalar::colon_split;
use crate::scalar::is_item;
use crate::scalar::is_unsupported;
use crate::scalar::unquoted;

verus! {

/// Every diagnostic in `d` is a duplicate-key warning, as the parser's own
/// diagnostics are.
pub open spec fn duplicate_warnings_only(d: Seq<DiagnosticModel>) -> bool {
    all_justified(d, Set::full())
}

/// The key of the entry on line `l` of a block mapping: what comes before
/// the separator, unquoted. `None` when the line is no `key: value` entry
/// or its key opens with an unsupported indicator.
pub open spec fn entry_key(s: Seq<char>, l: Line) -> Option<Seq<char>> {
    match colon_split(s, l.start as int, l.end as int) {
        Some(((ka, kb), _)) => if is_unsupported(s, ka, kb) {
            None
        } else {
            Some(
                match unquoted(s, ka, kb) {
                    Some(u) => u,
                    None => s.subrange(ka, kb),
                },
            )
        },
        None => None,
    }
}

/// The value of the entry `key` on line `i` of a block mapping at
/// `indent`, with the diagnostics `d1` so far: the scalar or flow
/// collection after its separator, else the block of lines nested under
/// it, else null.
pub open spec fn entry_value(
    s: Seq<char>,
    ls: Seq<Line>,
    indent: int,
    i: int,
    key: Seq<char>,
    d1: Seq<DiagnosticModel>,
) -> ItemResult {
    match colon_split(s, ls[i].start as int, ls[i].end as int) {
        Some(((ka, kb), (va, vb))) => {
            let number = ls[i].number as int;
            let j = nested_end(ls, i + 1, indent);
            let nested = ls.subrange(i + 1, j);
            if va < vb {
                if nested.len() > 0 && !is_unsupported(s, va, vb) {
                    Err(
                        error_at(
                            nested[0].number as int,
                            "unexpected indentation after '"@ + key + "'"@,
                        ),
                    )
                } else {
                    scalar_value(s, va, vb, number, d1)
                }
            } else if nested.len() == 0 {
                Ok((ValueModel::Null, d1))
            } else {
                match block_spec(s, nested, d1) {
                    Err(e) => Err(e),
                    Ok((v, consumed, d2)) => {
                        if consumed != nested.len() {
                            Err(
                                error_at(
                                    nested[consumed].number as int,
                                    "unexpected indentation"@,
                                ),
                            )
                        } else {
                            Ok((v, d2))
                        }
                    },
                }
            }
        },
        None => Err(error_at(ls[i].number as int, seq![])),
    }
}

/// Entry `m` of `es`, read from line `js[m]` of a block mapping at
/// `indent`: its key is that line's key and its value that line's value;
/// the diagnostics `d2` hold, from mark `ps[m]`, a duplicate-key warning on
/// that line exactly when an earlier entry has the same key, then the
/// value's own diagnostics up to mark `ps[m + 1]`.
pub open spec fn entry_read(
    s: Seq<char>,
    ls: Seq<Line>,
    indent: int,
    es: Seq<(Seq<char>, ValueModel)>,
    d2: Seq<DiagnosticModel>,
    js: Seq<int>,
    ps: Seq<int>,
    m: int,
) -> bool {
    let j = js[m];
    let dup = has_key(es.take(m), es[m].0);
    let q = if dup {
        ps[m] + 1
    } else {
        ps[m]
    };
    let read: ItemResult = Ok((es[m].1, d2.take(ps[m + 1])));
    &&& 0 <= j < ls.len()
    &&& ls[j].indent == indent
    &&& entry_key(s, ls[j]) == Some(es[m].0)
    &&& 0 <= ps[m] <= q <= ps[m + 1] <= d2.len()
    &&& dup ==> d2[ps[m]] == duplicate_diag(ls[j].number as int, es[m].0)
    &&& entry_value(s, ls, indent, j, es[m].0, d2.take(q)) == read
}

/// The entries `es` of a block mapping at `indent`, read from the lines
/// `js` (in increasing order) with the diagnostics growing from `d` to
/// `d2`, each as [`entry_read`] says.
pub open spec fn mapping_read(
    s: Seq<char>,
    ls: Seq<Line>,
    indent: int,
    es: Seq<(Seq<char>, ValueModel)>,
    d: Seq<DiagnosticModel>,
    d2: Seq<DiagnosticModel>,
    js: Seq<int>,
    ps: Seq<int>,
) -> bool {
    &&& js.len() == es.len()
    &&& ps.len() == es.len() + 1
    &&& ps[0] == d.len()
    &&& ps[es.len() as int] == d2.len()
    &&& extends(d, d2)
    &&& forall|m: int| 0 <= m < es.len() ==> #[trigger] entry_read(s, ls, indent, es, d2, js, ps, m)
    &&& forall|a: int, b: int| 0 <= a < b < js.len() ==> js[a] < js[b]
}

proof fn lemma_entry_read_grows(
    s: Seq<char>,
    ls: Seq<Line>,
    indent: int,
    es: Seq<(Seq<char>, ValueModel)>,
    x: (Seq<char>, ValueModel),
    d: Seq<DiagnosticModel>,
    d2: Seq<DiagnosticModel>,
    js: Seq<int>,
    ps: Seq<int>,
    i: int,
    m: int,
)
    requires
        js.len() == es.len(),
        ps.len() == es.len() + 1,
        ps[es.len() as int] == d.len(),
        extends(d, d2),
        0 <= m < es.len(),
        entry_read(s, ls, indent, es, d, js, ps, m),
    ensures
        entry_read(s, ls, indent, es.push(x), d2, js.push(i), ps.push(d2.len() as int), m),
{
    let es2 = es.push(x);
    let ps2 = ps.push(d2.len() as int);
    assert(es2.take(m) =~= es.take(m));
    assert(es2[m] == es[m]);
    assert(js.push(i)[m] == js[m]);
    assert(ps2[m] == ps[m] && ps2[m + 1] == ps[m + 1]);
    let dup = has_key(es.take(m), es[m].0);
    let q = if dup {
        ps[m] + 1
    } else {
        ps[m]
    };
    assert(ps[m + 1] <= d.len());
    assert(d2.take(q) =~= d.take(q));
    assert(d2.take(ps[m + 1]) =~= d.take(ps[m + 1]));
    if dup {
        assert(d2[ps[m]] == d[ps[m]]);
    }
}

#[verifier::spinoff_prover]
#[verifier::rlimit(40)]
proof fn lemma_map_read(
    s: Seq<char>,
    ls: Seq<Line>,
    indent: int,
    i: int,
    entries: Seq<(Seq<char>, ValueModel)>,
    d0: Seq<DiagnosticModel>,
    d: Seq<DiagnosticModel>,
    js: Seq<int>,
    ps: Seq<int>,
) -> (r: (Seq<int>, Seq<int>))
    requires
        0 <= i <= ls.len(),
        duplicate_warnings_only(d),
        mapping_read(s, ls, indent, entries, d0, d, js, ps),
        forall|m: int| 0 <= m < js.len() ==> js[m] < i,
    ensures
        map_entries(s, ls, indent, i, entries, d) matches Ok((v, c, d2)) ==> {
            &&& v matches ValueModel::Mapping(es) && mapping_read(s, ls, indent, es, d0, d2, r.0, r.1)
            &&& forall|m: int| 0 <= m < r.0.len() ==> r.0[m] < c
        },
    decreases ls.len() - i,
{
    if !(0 <= i < ls.len() && ls[i].indent == indent) || is_item(
        s,
        ls[i].start as int,
        ls[i].end as int,
    ) {
        return (js, ps);
    }
    let l = ls[i];
    let number = l.number as int;
    if let Some(((ka, kb), (va, vb))) = colon_split(s, l.start as int, l.end as int) {
        if !is_unsupported(s, ka, kb) {
            let key = match unquoted(s, ka, kb) {
                Some(u) => u,
                None => s.subrange(ka, kb),
            };
            let dup = has_key(entries, key);
            let d1 = if dup {
                d.push(duplicate_diag(number, key))
            } else {
                d
            };
            let full = Set::<Seq<char>>::full();
            assert(extends(d, d1));
            assert(duplicate_warnings_only(d1)) by {
                if dup {
                    assert(full.contains(key));
                    assert(justified_by(duplicate_diag(number, key), full));
                    assert forall|k: int| 0 <= k < d1.len() implies #[trigger] justified_by(
                        d1[k],
                        full,
                    ) by {
                        if k < d.len() {
                            assert(d1[k] == d[k]);
                        }
                    }
                }
            }
            lemma_nested_end_bounds(ls, i + 1, indent);
            let next = nested_end(ls, i + 1, indent);
            let nested = ls.subrange(i + 1, next);
            if va < vb {
                lemma_scalar_value_dups(s, va, vb, number, d1, full);
            } else if nested.len() > 0 {
                lemma_block_dups(s, nested, d1, full);
            }
            let value_r = entry_value(s, ls, indent, i, key, d1);
            if let Ok((v, d2)) = value_r {
                if va < vb || nested.len() > 0 {
                    assert(full + dup_keys(v) =~= full);
                } else {
                    assert(d2 == d1);
                }
                let es2 = entries.push((key, v));
                let js2 = js.push(i);
                let ps2 = ps.push(d2.len() as int);
                lemma_extends_trans(d, d1, d2);
                lemma_extends_trans(d0, d, d2);
                let n = entries.len() as int;
                assert forall|m: int| 0 <= m < es2.len() implies #[trigger] entry_read(
                    s,
                    ls,
                    indent,
                    es2,
                    d2,
                    js2,
                    ps2,
                    m,
                ) by {
                    if m < n {
                        assert(entry_read(s, ls, indent, entries, d, js, ps, m));
                        lemma_entry_read_grows(s, ls, indent, entries, (key, v), d, d2, js, ps, i, m);
                    } else {
                        assert(es2.take(m) =~= entries);
                        assert(es2[m] == (key, v));
                        assert(js2[m] == i);
                        assert(ps2[m] == d.len());
                        assert(d2.take(d1.len() as int) =~= d1);
                        assert(d2.take(d2.len() as int) =~= d2);
                        if dup {
                            assert(d1[d.len() as int] == duplicate_diag(number, key));
                            assert(d2[d.len() as int] == d1[d.len() as int]);
                        }
                    }
                }
                assert forall|a: int, b: int| 0 <= a < b < js2.len() implies js2[a] < js2[b] by {
                    if b == n {
                        assert(js2[a] == js[a]);
                    } else {
                        assert(js2[a] == js[a] && js2[b] == js[b]);
                    }
                }
                assert forall|m: int| 0 <= m < js2.len() implies js2[m] < next by {
                    if m < n {
                        assert(js2[m] == js[m]);
                    }
                }
                return lemma_map_read(s, ls, indent, next, es2, d0, d2, js2, ps2);
            }
        }
    }
    (js, ps)
}

/// A block mapping read from the lines `ls` (the first of them an entry,
/// not a `- ` item), with only duplicate-key warnings so far: entry `m` is
/// the key and value of the `m`-th line at the first line's indentation,
/// in line order and with repeated keys kept, and the mapping adds to the
/// diagnostics, for each entry in turn, one duplicate-key warning on the
/// entry's line exactly when an earlier entry has the same key, followed by
/// the diagnostics of the entry's value.
pub proof fn law_block_mapping_entries(s: Seq<char>, ls: Seq<Line>, d: Seq<DiagnosticModel>)
    requires
        ls.len() > 0,
        !is_item(s, ls[0].start as int, ls[0].end as int),
        duplicate_warnings_only(d),
    ensures
        block_spec(s, ls, d) matches Ok((v, c, d2)) ==> {
            &&& v matches ValueModel::Mapping(es)
            &&& es.len() == count_at(ls, ls[0].indent as int, c)
            &&& exists|js: Seq<int>, ps: Seq<int>|
                {
                    &&& mapping_read(s, ls, ls[0].indent as int, es, d, d2, js, ps)
                    &&& forall|m: int| 0 <= m < js.len() ==> js[m] < c
                }
        },
{
    law_block_mapping_shape(s, ls, d);
    let indent = ls[0].indent as int;
    let ps0 = seq![d.len() as int];
    assert(extends(d, d));
    assert(mapping_read(s, ls, indent, seq![], d, d, seq![], ps0));
    let r = lemma_map_read(s, ls, indent, 0, seq![], d, d, seq![], ps0);
    if let Ok((v, c, d2)) = block_spec(s, ls, d) {
        assert(block_spec(s, ls, d) == map_entries(s, ls, indent, 0, seq![], d));
        assert(mapping_read(s, ls, indent, v->Mapping_0, d, d2, r.0, r.1));
    }
}

} // verus!
