//! Duplicate keys: the parser warns of exactly the keys that occur twice
//! in one mapping of the tree it returns, block or flow, at any depth.
use vstd::prelude::*;

use crate::flow::duplicate_diag;
use crate::flow::flow_entries;
use crate::flow::flow_items;
use crate::flow::flow_mapping;
use crate::flow::flow_sequence;
use crate::flow::flow_top;
use crate::flow::flow_value;
use crate::flow::has_key;
use crate::flow::lemma_quoted_from_bounds;
use crate::flow::lemma_token_end_bounds;
use crate::flow::quoted;
use crate::flow::token_span;
use crate::flow::QuotedResult;
use crate::parser::block_spec;
use crate::parser::error_at;
use crate::parser::first_len;
use crate::parser::lemma_nested_end_bounds;
use crate::parser::map_entries;
use crate::parser::nested_end;
use crate::parser::parse_spec;
use crate::parser::scalar_value;
use crate::parser::seq_items;
use crate::parser::significant_lines;
use crate::parser::DiagnosticModel;
use crate::parser::ItemResult;
use crate::parser::Line;
use crate::scalar::colon_split;
use crate::scalar::is_flow;
use crate::scalar::is_item;
use crate::scalar::is_unsupported;
use crate::scalar::unsupported_message;
use crate::scalar::unquoted;
use crate::text::lemma_skip_ws_bounds;
use crate::text::skip_ws;
use crate::text::trim_end_at;
use crate::text::utf8_len;
use crate::parser::Severity;
use crate::parser::ValueModel;

verus! {

/// The keys that occur twice in one mapping somewhere in the tree `v`.
pub open spec fn dup_keys(v: ValueModel) -> Set<Seq<char>>
    decreases v, 1int,
{
    match v {
        ValueModel::Mapping(es) => entries_dups(es),
        ValueModel::Sequence(items) => items_dups(items),
        _ => Set::empty(),
    }
}

/// The keys repeated among `es`, or in a mapping inside one of their
/// values.
pub open spec fn entries_dups(es: Seq<(Seq<char>, ValueModel)>) -> Set<Seq<char>>
    decreases es, 0int,
{
    if es.len() == 0 {
        Set::empty()
    } else {
        let front = es.drop_last();
        let last = es.last();
        proof {
            vstd::seq::axiom_seq_index_decreases(es, es.len() - 1);
        }
        let here = if has_key(front, last.0) {
            set![last.0]
        } else {
            Set::empty()
        };
        entries_dups(front) + dup_keys(last.1) + here
    }
}

/// The keys repeated in a mapping inside one of `items`.
pub open spec fn items_dups(items: Seq<ValueModel>) -> Set<Seq<char>>
    decreases items, 0int,
{
    if items.len() == 0 {
        Set::empty()
    } else {
        proof {
            vstd::seq::axiom_seq_index_decreases(items, items.len() - 1);
        }
        items_dups(items.drop_last()) + dup_keys(items.last())
    }
}

/// Whether `d` holds a duplicate-key warning for `key`.
pub open spec fn reported(key: Seq<char>, d: Seq<DiagnosticModel>) -> bool {
    exists|k: int|
        0 <= k < d.len() && (#[trigger] d[k]).severity == Severity::Warning && d[k].message
            == "duplicate key '"@ + key + "'"@
}

/// Every key duplicated somewhere in `v` is reported in `d`.
pub open spec fn dups_reported(v: ValueModel, d: Seq<DiagnosticModel>) -> bool {
    forall|key: Seq<char>| #[trigger] dup_keys(v).contains(key) ==> reported(key, d)
}

/// `d2` is `d` with diagnostics appended.
pub open spec fn extends(d: Seq<DiagnosticModel>, d2: Seq<DiagnosticModel>) -> bool {
    &&& d.len() <= d2.len()
    &&& forall|k: int| 0 <= k < d.len() ==> #[trigger] d2[k] == d[k]
}

/// `key` as a repeated key, when it is already among `es`.
pub open spec fn repeated(es: Seq<(Seq<char>, ValueModel)>, key: Seq<char>) -> Set<Seq<char>> {
    if has_key(es, key) {
        set![key]
    } else {
        Set::empty()
    }
}

/// Whether `x` warns of one of `keys` as a duplicate.
pub open spec fn justified_by(x: DiagnosticModel, keys: Set<Seq<char>>) -> bool {
    exists|key: Seq<char>| #[trigger] keys.contains(key) && x.message == "duplicate key '"@ + key
        + "'"@
}

/// Every diagnostic in `d` warns of one of `keys` as a duplicate.
pub open spec fn all_justified(d: Seq<DiagnosticModel>, keys: Set<Seq<char>>) -> bool {
    forall|k: int| 0 <= k < d.len() ==> #[trigger] justified_by(d[k], keys)
}

proof fn lemma_justified_mono(d: Seq<DiagnosticModel>, a: Set<Seq<char>>, b: Set<Seq<char>>)
    requires
        all_justified(d, a),
        a.subset_of(b),
    ensures
        all_justified(d, b),
{
    assert forall|k: int| 0 <= k < d.len() implies #[trigger] justified_by(d[k], b) by {
        assert(justified_by(d[k], a));
        let key = choose|key: Seq<char>| #[trigger] a.contains(key) && d[k].message
            == "duplicate key '"@ + key + "'"@;
        assert(b.contains(key));
    }
}

/// The repeated keys of a mapping with one more entry.
proof fn lemma_dup_keys_push_entry(es: Seq<(Seq<char>, ValueModel)>, key: Seq<char>, x: ValueModel)
    ensures
        dup_keys(ValueModel::Mapping(es.push((key, x)))) == dup_keys(ValueModel::Mapping(es))
            + dup_keys(x) + repeated(es, key),
{
    let e2 = es.push((key, x));
    assert(e2.drop_last() =~= es);
    assert(e2.last() == (key, x));
}

/// The repeated keys of a sequence with one more item.
proof fn lemma_dup_keys_push_item(items: Seq<ValueModel>, x: ValueModel)
    ensures
        dup_keys(ValueModel::Sequence(items.push(x))) == dup_keys(ValueModel::Sequence(items))
            + dup_keys(x),
{
    let i2 = items.push(x);
    assert(i2.drop_last() =~= items);
    assert(i2.last() == x);
}

pub proof fn lemma_extends_trans(a: Seq<DiagnosticModel>, b: Seq<DiagnosticModel>, c: Seq<DiagnosticModel>)
    requires
        extends(a, b),
        extends(b, c),
    ensures
        extends(a, c),
{
    assert forall|k: int| 0 <= k < a.len() implies #[trigger] c[k] == a[k] by {
        assert(b[k] == a[k]);
    }
}

proof fn lemma_dups_grow(v: ValueModel, d: Seq<DiagnosticModel>, d2: Seq<DiagnosticModel>)
    requires
        dups_reported(v, d),
        extends(d, d2),
    ensures
        dups_reported(v, d2),
{
    assert forall|key: Seq<char>| #[trigger] dup_keys(v).contains(key) implies reported(key, d2) by {
        let k = choose|k: int|
            0 <= k < d.len() && (#[trigger] d[k]).severity == Severity::Warning && d[k].message
                == "duplicate key '"@ + key + "'"@;
        assert(d2[k] == d[k]);
    }
}

/// Adding a warning for `key` to `d`, if `key` is already among
/// `entries`, keeps the mapping reported.
proof fn lemma_warn(
    entries: Seq<(Seq<char>, ValueModel)>,
    key: Seq<char>,
    d: Seq<DiagnosticModel>,
    line: int,
    a: Set<Seq<char>>,
) -> (d1: Seq<DiagnosticModel>)
    requires
        dups_reported(ValueModel::Mapping(entries), d),
        all_justified(d, a),
    ensures
        all_justified(d1, a + repeated(entries, key)),
        d1 == (if has_key(entries, key) {
            d.push(duplicate_diag(line, key))
        } else {
            d
        }),
        extends(d, d1),
        dups_reported(ValueModel::Mapping(entries), d1),
        has_key(entries, key) ==> reported(key, d1),
{
    let d1 = if has_key(entries, key) {
        d.push(duplicate_diag(line, key))
    } else {
        d
    };
    assert forall|k: int| 0 <= k < d.len() implies #[trigger] d1[k] == d[k] by {}
    lemma_dups_grow(ValueModel::Mapping(entries), d, d1);
    lemma_justified_mono(d, a, a + repeated(entries, key));
    if has_key(entries, key) {
        assert(d1[d.len() as int] == duplicate_diag(line, key));
        let b = a + repeated(entries, key);
        assert(b.contains(key));
        assert(justified_by(duplicate_diag(line, key), b));
        assert forall|k: int| 0 <= k < d1.len() implies #[trigger] justified_by(d1[k], b) by {
            if k < d.len() {
                assert(d1[k] == d[k]);
            }
        }
    }
    d1
}

/// A mapping with one more entry stays reported when the new value is and
/// a repeated key is.
proof fn lemma_push_entry(
    es: Seq<(Seq<char>, ValueModel)>,
    key: Seq<char>,
    x: ValueModel,
    d: Seq<DiagnosticModel>,
)
    requires
        dups_reported(ValueModel::Mapping(es), d),
        dups_reported(x, d),
        has_key(es, key) ==> reported(key, d),
    ensures
        dups_reported(ValueModel::Mapping(es.push((key, x))), d),
{
    let e2 = es.push((key, x));
    let here = repeated(es, key);
    lemma_dup_keys_push_entry(es, key, x);
    assert forall|k: Seq<char>| #[trigger] dup_keys(ValueModel::Mapping(e2)).contains(
        k,
    ) implies reported(k, d) by {
        if dup_keys(ValueModel::Mapping(es)).contains(k) {
        } else if dup_keys(x).contains(k) {
        } else {
            assert(here.contains(k));
        }
    }
}

/// A sequence with one more item stays reported when the item is.
proof fn lemma_push_item(items: Seq<ValueModel>, x: ValueModel, d: Seq<DiagnosticModel>)
    requires
        dups_reported(ValueModel::Sequence(items), d),
        dups_reported(x, d),
    ensures
        dups_reported(ValueModel::Sequence(items.push(x)), d),
{
    let i2 = items.push(x);
    lemma_dup_keys_push_item(items, x);
    assert forall|k: Seq<char>| #[trigger] dup_keys(ValueModel::Sequence(i2)).contains(
        k,
    ) implies reported(k, d) by {
        if dup_keys(ValueModel::Sequence(items)).contains(k) {
        }
    }
}

/// A flow value reports every key it repeats, and only appends to `d`.
proof fn lemma_flow_value_dups(
    s: Seq<char>,
    p: int,
    line: int,
    d: Seq<DiagnosticModel>,
    j: Set<Seq<char>>,
)
    requires
        all_justified(d, j),
    ensures
        flow_value(s, p, line, d) matches Ok((v, _, d2)) ==> extends(d, d2) && dups_reported(
            v,
            d2,
        ) && all_justified(d2, j + dup_keys(v)),
    decreases s.len() - p, 3int,
{
    if 0 <= p <= s.len() {
        lemma_skip_ws_bounds(s, p, s.len() as int);
        let q = skip_ws(s, p, s.len() as int);
        if q < s.len() {
            if s[q] == '{' {
                lemma_flow_mapping_dups(s, q, line, d, j);
            } else if s[q] == '[' {
                lemma_flow_sequence_dups(s, q, line, d, j);
            } else if let Ok((v, _, d2)) = flow_value(s, p, line, d) {
                assert(j + dup_keys(v) =~= j);
            }
        }
    }
}

proof fn lemma_flow_mapping_dups(
    s: Seq<char>,
    p: int,
    line: int,
    d: Seq<DiagnosticModel>,
    j: Set<Seq<char>>,
)
    requires
        all_justified(d, j),
    ensures
        flow_mapping(s, p, line, d) matches Ok((v, _, d2)) ==> extends(d, d2) && dups_reported(
            v,
            d2,
        ) && all_justified(d2, j + dup_keys(v)),
    decreases s.len() - p, 2int,
{
    if 0 <= p < s.len() {
        lemma_skip_ws_bounds(s, p + 1, s.len() as int);
        let q = skip_ws(s, p + 1, s.len() as int);
        assert(dup_keys(ValueModel::Mapping(seq![])) =~= Set::empty());
        assert(j + dup_keys(ValueModel::Mapping(seq![])) =~= j);
        if !(q < s.len() && s[q] == '}') {
            lemma_flow_entries_dups(s, q, line, seq![], d, j);
        }
    }
}

proof fn lemma_flow_entries_dups(
    s: Seq<char>,
    i: int,
    line: int,
    entries: Seq<(Seq<char>, ValueModel)>,
    d: Seq<DiagnosticModel>,
    j: Set<Seq<char>>,
)
    requires
        dups_reported(ValueModel::Mapping(entries), d),
        all_justified(d, j + dup_keys(ValueModel::Mapping(entries))),
    ensures
        flow_entries(s, i, line, entries, d) matches Ok((v, _, d2)) ==> extends(d, d2)
            && dups_reported(v, d2) && all_justified(d2, j + dup_keys(v)),
    decreases s.len() - i, 1int,
{
    if 0 <= i <= s.len() {
        lemma_skip_ws_bounds(s, i, s.len() as int);
        let k0 = skip_ws(s, i, s.len() as int);
        lemma_token_end_bounds(s, k0);
        if k0 < s.len() {
            lemma_quoted_from_bounds(s, s[k0], k0 + 1);
        }
        let key_r: QuotedResult = if k0 < s.len() && (s[k0] == '"' || s[k0] == '\'') {
            quoted(s, k0)
        } else {
            let (a, b, e) = token_span(s, k0);
            if is_unsupported(s, a, b) {
                Err(unsupported_message())
            } else {
                Ok((s.subrange(a, b), e))
            }
        };
        if let Ok((key, k1)) = key_r {
            if key.len() != 0 {
                lemma_skip_ws_bounds(s, k1, s.len() as int);
                let c = skip_ws(s, k1, s.len() as int);
                if c < s.len() && s[c] == ':' {
                    let j1 = j + dup_keys(ValueModel::Mapping(entries));
                    lemma_flow_value_dups(s, c + 1, line, d, j1);
                    if let Ok((v, e, d2)) = flow_value(s, c + 1, line, d) {
                        if !(e < c + 1 || e > s.len()) {
                            lemma_dups_grow(ValueModel::Mapping(entries), d, d2);
                            let d3 = lemma_warn(entries, key, d2, line, j1 + dup_keys(v));
                            lemma_dup_keys_push_entry(entries, key, v);
                            assert(j1 + dup_keys(v) + repeated(entries, key) =~= j + dup_keys(
                                ValueModel::Mapping(entries.push((key, v))),
                            ));
                            lemma_extends_trans(d, d2, d3);
                            lemma_dups_grow(v, d2, d3);
                            lemma_push_entry(entries, key, v, d3);
                            lemma_skip_ws_bounds(s, e, s.len() as int);
                            let t = skip_ws(s, e, s.len() as int);
                            if t < s.len() && s[t] == ',' {
                                lemma_flow_entries_dups(
                                    s,
                                    t + 1,
                                    line,
                                    entries.push((key, v)),
                                    d3,
                                    j,
                                );
                                if let Ok((w, _, d4)) = flow_entries(
                                    s,
                                    t + 1,
                                    line,
                                    entries.push((key, v)),
                                    d3,
                                ) {
                                    lemma_extends_trans(d, d3, d4);
                                }
                            }
                        }
                    }
                }
            }
        }
    }
}

proof fn lemma_flow_sequence_dups(
    s: Seq<char>,
    p: int,
    line: int,
    d: Seq<DiagnosticModel>,
    j: Set<Seq<char>>,
)
    requires
        all_justified(d, j),
    ensures
        flow_sequence(s, p, line, d) matches Ok((v, _, d2)) ==> extends(d, d2) && dups_reported(
            v,
            d2,
        ) && all_justified(d2, j + dup_keys(v)),
    decreases s.len() - p, 2int,
{
    if 0 <= p < s.len() {
        lemma_skip_ws_bounds(s, p + 1, s.len() as int);
        let q = skip_ws(s, p + 1, s.len() as int);
        assert(dup_keys(ValueModel::Sequence(seq![])) =~= Set::empty());
        assert(j + dup_keys(ValueModel::Sequence(seq![])) =~= j);
        if !(q < s.len() && s[q] == ']') {
            lemma_flow_items_dups(s, q, line, seq![], d, j);
        }
    }
}

proof fn lemma_flow_items_dups(
    s: Seq<char>,
    i: int,
    line: int,
    items: Seq<ValueModel>,
    d: Seq<DiagnosticModel>,
    j: Set<Seq<char>>,
)
    requires
        dups_reported(ValueModel::Sequence(items), d),
        all_justified(d, j + dup_keys(ValueModel::Sequence(items))),
    ensures
        flow_items(s, i, line, items, d) matches Ok((v, _, d2)) ==> extends(d, d2)
            && dups_reported(v, d2) && all_justified(d2, j + dup_keys(v)),
    decreases s.len() - i, 4int,
{
    if 0 <= i <= s.len() {
        let j1 = j + dup_keys(ValueModel::Sequence(items));
        lemma_flow_value_dups(s, i, line, d, j1);
        if let Ok((v, e, d2)) = flow_value(s, i, line, d) {
            if !(e < i || e > s.len()) {
                lemma_dups_grow(ValueModel::Sequence(items), d, d2);
                lemma_push_item(items, v, d2);
                lemma_dup_keys_push_item(items, v);
                assert(j1 + dup_keys(v) =~= j + dup_keys(ValueModel::Sequence(items.push(v))));
                lemma_skip_ws_bounds(s, e, s.len() as int);
                let t = skip_ws(s, e, s.len() as int);
                if t < s.len() && s[t] == ',' {
                    lemma_flow_items_dups(s, t + 1, line, items.push(v), d2, j);
                    if let Ok((w, _, d4)) = flow_items(s, t + 1, line, items.push(v), d2) {
                        lemma_extends_trans(d, d2, d4);
                    }
                }
            }
        }
    }
}

/// A whole flow collection reports every key it repeats.
pub proof fn lemma_flow_top_dups(
    s: Seq<char>,
    p: int,
    line: int,
    d: Seq<DiagnosticModel>,
    j: Set<Seq<char>>,
)
    requires
        all_justified(d, j),
    ensures
        flow_top(s, p, line, d) matches Ok((v, d2)) ==> extends(d, d2) && dups_reported(v, d2)
            && all_justified(d2, j + dup_keys(v)),
{
    lemma_flow_value_dups(s, p, line, d, j);
}

pub proof fn lemma_scalar_value_dups(
    s: Seq<char>,
    lo: int,
    hi: int,
    line: int,
    d: Seq<DiagnosticModel>,
    j: Set<Seq<char>>,
)
    requires
        all_justified(d, j),
    ensures
        scalar_value(s, lo, hi, line, d) matches Ok((v, d2)) ==> extends(d, d2) && dups_reported(
            v,
            d2,
        ) && all_justified(d2, j + dup_keys(v)),
{
    let a = skip_ws(s, lo, hi);
    let b = trim_end_at(s, a, hi);
    if is_flow(s, a, b) {
        lemma_flow_top_dups(s.subrange(a, b), 0, line, d, j);
    } else if let Ok((v, d2)) = scalar_value(s, lo, hi, line, d) {
        assert(j + dup_keys(v) =~= j);
    }
}

/// A block reports every key it repeats, and only appends to `d`.
pub proof fn lemma_block_dups(s: Seq<char>, ls: Seq<Line>, d: Seq<DiagnosticModel>, j: Set<Seq<char>>)
    requires
        all_justified(d, j),
    ensures
        block_spec(s, ls, d) matches Ok((v, _, d2)) ==> extends(d, d2) && dups_reported(v, d2)
            && all_justified(d2, j + dup_keys(v)),
    decreases ls.len(), first_len(ls), 2int, 0int,
{
    if ls.len() > 0 {
        if is_item(s, ls[0].start as int, ls[0].end as int) {
            assert(dup_keys(ValueModel::Sequence(seq![])) =~= Set::empty());
            assert(j + dup_keys(ValueModel::Sequence(seq![])) =~= j);
            lemma_seq_items_dups(s, ls, ls[0].indent as int, 0, seq![], d, j);
        } else {
            assert(dup_keys(ValueModel::Mapping(seq![])) =~= Set::empty());
            assert(j + dup_keys(ValueModel::Mapping(seq![])) =~= j);
            lemma_map_entries_dups(s, ls, ls[0].indent as int, 0, seq![], d, j);
        }
    } else {
        assert(j + dup_keys(ValueModel::Null) =~= j);
    }
}

proof fn lemma_map_entries_dups(
    s: Seq<char>,
    ls: Seq<Line>,
    indent: int,
    i: int,
    entries: Seq<(Seq<char>, ValueModel)>,
    d: Seq<DiagnosticModel>,
    j: Set<Seq<char>>,
)
    requires
        dups_reported(ValueModel::Mapping(entries), d),
        all_justified(d, j + dup_keys(ValueModel::Mapping(entries))),
        0 <= i <= ls.len(),
    ensures
        map_entries(s, ls, indent, i, entries, d) matches Ok((v, _, d2)) ==> extends(d, d2)
            && dups_reported(v, d2) && all_justified(d2, j + dup_keys(v)),
    decreases ls.len(), first_len(ls), 1int, ls.len() - i,
{
    if !(!(0 <= i < ls.len() && ls[i].indent == indent) || is_item(
        s,
        ls[i].start as int,
        ls[i].end as int,
    )) {
        let l = ls[i];
        let number = l.number as int;
        if let Some(((ka, kb), (va, vb))) = colon_split(s, l.start as int, l.end as int) {
            let key = match unquoted(s, ka, kb) {
                Some(u) => u,
                None => s.subrange(ka, kb),
            };
            let j1 = j + dup_keys(ValueModel::Mapping(entries)) + repeated(entries, key);
            let d1 = lemma_warn(entries, key, d, number, j + dup_keys(ValueModel::Mapping(entries)));
            lemma_nested_end_bounds(ls, i + 1, indent);
            let next = nested_end(ls, i + 1, indent);
            let nested = ls.subrange(i + 1, next);
            if va < vb {
                lemma_scalar_value_dups(s, va, vb, number, d1, j1);
            } else if nested.len() > 0 {
                lemma_block_dups(s, nested, d1, j1);
            } else {
                assert(j1 + dup_keys(ValueModel::Null) =~= j1);
            }
            let value_r: ItemResult = if va < vb {
                if nested.len() > 0 && !is_unsupported(s, va, vb) {
                    Err(
                        error_at(
                            nested[0].number as int,
                            "unexpected indentation after '"@ + key + "'"@,
                        ),
                    )
                } else {
                    scalar_value(s, va, vb, number, d1)
                }
            } else if nested.len() == 0 {
                Ok((ValueModel::Null, d1))
            } else {
                match block_spec(s, nested, d1) {
                    Err(e) => Err(e),
                    Ok((v, consumed, d2)) => {
                        if consumed != nested.len() {
                            Err(
                                error_at(
                                    nested[consumed].number as int,
                                    "unexpected indentation"@,
                                ),
                            )
                        } else {
                            Ok((v, d2))
                        }
                    },
                }
            };
            if let Ok((v, d2)) = value_r {
                lemma_extends_trans(d, d1, d2);
                lemma_dups_grow(ValueModel::Mapping(entries), d1, d2);
                if has_key(entries, key) {
                    let w = choose|k: int|
                        0 <= k < d1.len() && (#[trigger] d1[k]).severity == Severity::Warning
                            && d1[k].message == "duplicate key '"@ + key + "'"@;
                    assert(d2[w] == d1[w]);
                }
                lemma_push_entry(entries, key, v, d2);
                lemma_dup_keys_push_entry(entries, key, v);
                assert(j1 + dup_keys(v) =~= j + dup_keys(
                    ValueModel::Mapping(entries.push((key, v))),
                ));
                lemma_map_entries_dups(s, ls, indent, next, entries.push((key, v)), d2, j);
                if let Ok((w, _, d4)) = map_entries(s, ls, indent, next, entries.push((key, v)), d2) {
                    lemma_extends_trans(d, d2, d4);
                }
            }
        }
    }
}

proof fn lemma_seq_items_dups(
    s: Seq<char>,
    ls: Seq<Line>,
    indent: int,
    i: int,
    items: Seq<ValueModel>,
    d: Seq<DiagnosticModel>,
    j: Set<Seq<char>>,
)
    requires
        dups_reported(ValueModel::Sequence(items), d),
        all_justified(d, j + dup_keys(ValueModel::Sequence(items))),
        0 <= i <= ls.len(),
    ensures
        seq_items(s, ls, indent, i, items, d) matches Ok((v, _, d2)) ==> extends(d, d2)
            && dups_reported(v, d2) && all_justified(d2, j + dup_keys(v)),
    decreases ls.len(), first_len(ls), 1int, ls.len() - i,
{
    if 0 <= i < ls.len() && ls[i].indent == indent && is_item(
        s,
        ls[i].start as int,
        ls[i].end as int,
    ) {
        let l = ls[i];
        let number = l.number as int;
        let r = skip_ws(s, l.start + 1, l.end as int);
        let j1 = j + dup_keys(ValueModel::Sequence(items));
        lemma_skip_ws_bounds(s, l.start + 1, l.end as int);
        lemma_nested_end_bounds(ls, i + 1, indent);
        let synthetic_indent = indent + utf8_len(s.subrange(l.start + 1, r)) + 1;
        let next = nested_end(ls, i + 1, indent);
        let nested = ls.subrange(i + 1, next);
        let synthetic = Line {
            indent: synthetic_indent as usize,
            start: r as usize,
            end: l.end,
            number: l.number,
        };
        let combined = seq![synthetic] + nested;
        if r == l.end {
            if nested.len() > 0 {
                lemma_block_dups(s, nested, d, j1);
            } else {
                assert(j1 + dup_keys(ValueModel::Null) =~= j1);
            }
        } else if is_flow(s, r, l.end as int) {
            lemma_scalar_value_dups(s, r, l.end as int, number, d, j1);
        } else if is_item(s, r, l.end as int) || colon_split(s, r, l.end as int) is Some {
            lemma_block_dups(s, combined, d, j1);
        } else {
            lemma_scalar_value_dups(s, r, l.end as int, number, d, j1);
        }
        let item_r: ItemResult = if r == l.end {
            if nested.len() == 0 {
                Ok((ValueModel::Null, d))
            } else {
                match block_spec(s, nested, d) {
                    Err(e) => Err(e),
                    Ok((v, consumed, d2)) => {
                        if consumed != nested.len() {
                            Err(error_at(nested[consumed].number as int, "unexpected indentation"@))
                        } else {
                            Ok((v, d2))
                        }
                    },
                }
            }
        } else if is_flow(s, r, l.end as int) {
            if nested.len() > 0 {
                Err(
                    error_at(
                        nested[0].number as int,
                        "unexpected indentation after flow collection"@,
                    ),
                )
            } else {
                scalar_value(s, r, l.end as int, number, d)
            }
        } else if is_item(s, r, l.end as int) || colon_split(s, r, l.end as int) is Some {
            match block_spec(s, combined, d) {
                Err(e) => Err(e),
                Ok((v, consumed, d2)) => {
                    if consumed != combined.len() {
                        Err(error_at(combined[consumed].number as int, "unexpected indentation"@))
                    } else {
                        Ok((v, d2))
                    }
                },
            }
        } else {
            if nested.len() > 0 && !is_unsupported(s, r, l.end as int) {
                Err(
                    error_at(
                        nested[0].number as int,
                        "unexpected indentation after scalar sequence item"@,
                    ),
                )
            } else {
                scalar_value(s, r, l.end as int, number, d)
            }
        };
        if let Ok((v, d2)) = item_r {
            lemma_dups_grow(ValueModel::Sequence(items), d, d2);
            lemma_push_item(items, v, d2);
            lemma_dup_keys_push_item(items, v);
            assert(j1 + dup_keys(v) =~= j + dup_keys(ValueModel::Sequence(items.push(v))));
            lemma_seq_items_dups(s, ls, indent, next, items.push(v), d2, j);
            if let Ok((w, _, d4)) = seq_items(s, ls, indent, next, items.push(v), d2) {
                lemma_extends_trans(d, d2, d4);
            }
        }
    }
}

/// The parser's duplicate-key warnings match the tree it returns: every
/// key that occurs twice in one mapping, at any depth and in block or flow
/// style, is warned about, and every warning names such a key.
pub proof fn law_duplicate_key_warnings(s: Seq<char>)
    ensures
        parse_spec(s) matches Ok((v, d)) ==> {
            &&& forall|key: Seq<char>| #[trigger] dup_keys(v).contains(key) ==> reported(key, d)
            &&& forall|k: int| 0 <= k < d.len() ==> #[trigger] justified_by(d[k], dup_keys(v))
        },
{
    let ls = significant_lines(s);
    if ls.len() > 0 {
        lemma_block_dups(s, ls, seq![], Set::empty());
        if let Ok((v, _, d)) = block_spec(s, ls, seq![]) {
            assert(Set::<Seq<char>>::empty() + dup_keys(v) =~= dup_keys(v));
        }
    }
}

} // verus!
