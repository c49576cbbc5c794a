//! Checking a parsed [`Value`] against the shape a config should have.
use vstd::prelude::*;

use crate::parser::entries_model;
use crate::parser::items_model;
use crate::parser::lemma_mapping_model;
use crate::parser::lemma_sequence_model;
use crate::parser::lookup;
use crate::parser::lookup_from;
use crate::parser::Value;
use crate::parser::ValueModel;
use crate::text::decimal;
use crate::text::push_char;
use crate::text::push_decimal;
use crate::text::push_str;

verus! {

/// Describes the expected shape of a `Value` tree. This lets a caller check
/// structure (required fields, field types, item types) in one pass instead
/// of scattering `.get()` and `matches!` calls through their own code.
#[derive(Debug)]
pub enum Schema {
    Any,
    Null,
    Bool,
    Int,
    /// Accepts both `Value::Float` and `Value::Int`, since a plain scalar
    /// like `3` is a perfectly good value wherever a float is expected.
    Float,
    String,
    Sequence(Box<Schema>),
    Mapping(Vec<Field>),
    /// Valid if the value matches at least one of the given schemas.
    OneOf(Vec<Schema>),
}

/// One expected entry in a `Schema::Mapping`.
#[derive(Debug)]
pub struct Field {
    pub key: String,
    pub schema: Schema,
    pub required: bool,
}

impl Field {
    /// A field that must be present.
    pub fn required(key: &str, schema: Schema) -> (f: Field)
        ensures
            f.key@ == key@,
            f.schema == schema,
            f.required,
    {
        Field { key: String::from_str(key), schema, required: true }
    }

    /// A field that may be absent.
    pub fn optional(key: &str, schema: Schema) -> (f: Field)
        ensures
            f.key@ == key@,
            f.schema == schema,
            !f.required,
    {
        Field { key: String::from_str(key), schema, required: false }
    }
}

/// Whether `a` and `b` describe the same shape: the same variants, field
/// keys, requiredness and nested schemas, in the same order.
pub open spec fn same_schema(a: Schema, b: Schema) -> bool
    decreases a, 1int,
{
    match (a, b) {
        (Schema::Any, Schema::Any) => true,
        (Schema::Null, Schema::Null) => true,
        (Schema::Bool, Schema::Bool) => true,
        (Schema::Int, Schema::Int) => true,
        (Schema::Float, Schema::Float) => true,
        (Schema::String, Schema::String) => true,
        (Schema::Sequence(x), Schema::Sequence(y)) => same_schema(*x, *y),
        (Schema::Mapping(fa), Schema::Mapping(fb)) => same_fields(fa@, fb@),
        (Schema::OneOf(xa), Schema::OneOf(xb)) => same_schemas(xa@, xb@),
        _ => false,
    }
}

/// Whether the fields `fa` and `fb` agree one by one.
pub open spec fn same_fields(fa: Seq<Field>, fb: Seq<Field>) -> bool
    decreases fa, 0int,
{
    if fa.len() != fb.len() {
        false
    } else if fa.len() == 0 {
        true
    } else {
        proof {
            vstd::seq::axiom_seq_index_decreases(fa, fa.len() - 1);
        }
        &&& same_fields(fa.drop_last(), fb.drop_last())
        &&& fa.last().key@ == fb.last().key@
        &&& fa.last().required == fb.last().required
        &&& same_schema(fa.last().schema, fb.last().schema)
    }
}

/// Whether the schemas `xa` and `xb` agree one by one.
pub open spec fn same_schemas(xa: Seq<Schema>, xb: Seq<Schema>) -> bool
    decreases xa, 0int,
{
    if xa.len() != xb.len() {
        false
    } else if xa.len() == 0 {
        true
    } else {
        proof {
            vstd::seq::axiom_seq_index_decreases(xa, xa.len() - 1);
        }
        same_schemas(xa.drop_last(), xb.drop_last()) && same_schema(xa.last(), xb.last())
    }
}

impl Schema {
    /// A copy of this schema, of the same shape.
    pub fn copy_schema(&self) -> (r: Schema)
        ensures
            same_schema(r, *self),
        decreases self,
    {
        match self {
            Schema::Any => Schema::Any,
            Schema::Null => Schema::Null,
            Schema::Bool => Schema::Bool,
            Schema::Int => Schema::Int,
            Schema::Float => Schema::Float,
            Schema::String => Schema::String,
            Schema::Sequence(item) => Schema::Sequence(Box::new((**item).copy_schema())),
            Schema::Mapping(fields) => {
                let mut out: Vec<Field> = Vec::new();
                let mut i: usize = 0;
                #[verifier::loop_isolation(false)]
                while i < fields.len()
                    invariant
                        0 <= i <= fields@.len(),
                        same_fields(out@, fields@.take(i as int)),
                    decreases fields.len() - i,
                {
                    proof {
                        vstd::std_specs::vec::axiom_vec_index_decreases(*fields, i as int);
                    }
                    let f = &fields[i];
                    let copy = Field {
                        key: f.key.clone(),
                        schema: f.schema.copy_schema(),
                        required: f.required,
                    };
                    let ghost before = out@;
                    out.push(copy);
                    proof {
                        assert(out@.drop_last() =~= before);
                        assert(fields@.take(i + 1).drop_last() =~= fields@.take(i as int));
                        assert(fields@.take(i + 1).last() == fields@[i as int]);
                    }
                    i = i + 1;
                }
                proof {
                    assert(fields@.take(fields@.len() as int) =~= fields@);
                }
                Schema::Mapping(out)
            },
            Schema::OneOf(alternatives) => {
                let mut out: Vec<Schema> = Vec::new();
                let mut i: usize = 0;
                #[verifier::loop_isolation(false)]
                while i < alternatives.len()
                    invariant
                        0 <= i <= alternatives@.len(),
                        same_schemas(out@, alternatives@.take(i as int)),
                    decreases alternatives.len() - i,
                {
                    proof {
                        vstd::std_specs::vec::axiom_vec_index_decreases(*alternatives, i as int);
                    }
                    let copy = alternatives[i].copy_schema();
                    let ghost before = out@;
                    out.push(copy);
                    proof {
                        assert(out@.drop_last() =~= before);
                        assert(alternatives@.take(i + 1).drop_last() =~= alternatives@.take(
                            i as int,
                        ));
                        assert(alternatives@.take(i + 1).last() == alternatives@[i as int]);
                    }
                    i = i + 1;
                }
                proof {
                    assert(alternatives@.take(alternatives@.len() as int) =~= alternatives@);
                }
                Schema::OneOf(out)
            },
        }
    }
}

impl Clone for Schema {
    fn clone(&self) -> (r: Self)
        ensures
            same_schema(r, *self),
    {
        self.copy_schema()
    }
}

impl Clone for Field {
    fn clone(&self) -> (r: Self)
        ensures
            r.key@ == self.key@,
            r.required == self.required,
            same_schema(r.schema, self.schema),
    {
        Field { key: self.key.clone(), schema: self.schema.copy_schema(), required: self.required }
    }
}

/// A single schema violation, located with a `$`-rooted path like
/// `$.servers[1].port` so it can be pointed at directly in an error message.
#[derive(Debug, Clone, PartialEq, Eq)]
pub struct ValidationError {
    pub path: String,
    pub message: String,
}

/// The model of a [`ValidationError`].
pub struct ValidationErrorModel {
    pub path: Seq<char>,
    pub message: Seq<char>,
}

impl View for ValidationError {
    type V = ValidationErrorModel;

    open spec fn view(&self) -> ValidationErrorModel {
        ValidationErrorModel { path: self.path@, message: self.message@ }
    }
}

/// The models of a sequence of validation errors.
pub open spec fn errors_model(v: Seq<ValidationError>) -> Seq<ValidationErrorModel> {
    Seq::new(v.len(), |i: int| v[i]@)
}

/// The name of a value's type, as messages use it.
pub open spec fn type_name_of(v: ValueModel) -> Seq<char> {
    match v {
        ValueModel::Null => "null"@,
        ValueModel::Bool(_) => "bool"@,
        ValueModel::Int(_) => "int"@,
        ValueModel::Float(_) => "float"@,
        ValueModel::Str(_) => "string"@,
        ValueModel::Sequence(_) => "sequence"@,
        ValueModel::Mapping(_) => "mapping"@,
    }
}

/// A type mismatch at `path`.
pub open spec fn mismatch_of(path: Seq<char>, expected: Seq<char>, v: ValueModel) -> ValidationErrorModel {
    ValidationErrorModel {
        path,
        message: "expected "@ + expected + ", found "@ + type_name_of(v),
    }
}

/// Every violation of `schema` by `v`, with paths rooted at `path`, in the
/// order they are met.
pub open spec fn check_spec(v: ValueModel, schema: Schema, path: Seq<char>) -> Seq<ValidationErrorModel>
    decreases schema, 0int,
{
    match schema {
        Schema::Any => seq![],
        Schema::Null => if v is Null {
            seq![]
        } else {
            seq![mismatch_of(path, "null"@, v)]
        },
        Schema::Bool => if v is Bool {
            seq![]
        } else {
            seq![mismatch_of(path, "bool"@, v)]
        },
        Schema::Int => if v is Int {
            seq![]
        } else {
            seq![mismatch_of(path, "int"@, v)]
        },
        Schema::Float => if v is Float || v is Int {
            seq![]
        } else {
            seq![mismatch_of(path, "float"@, v)]
        },
        Schema::String => if v is Str {
            seq![]
        } else {
            seq![mismatch_of(path, "string"@, v)]
        },
        Schema::Sequence(item) => match v {
            ValueModel::Sequence(items) => check_items(items, *item, path, items.len() as int),
            _ => seq![mismatch_of(path, "sequence"@, v)],
        },
        Schema::Mapping(fields) => match v {
            ValueModel::Mapping(entries) => check_fields(
                entries,
                fields@,
                path,
                fields@.len() as int,
            ),
            _ => seq![mismatch_of(path, "mapping"@, v)],
        },
        Schema::OneOf(alternatives) => if any_alternative(v, alternatives@, alternatives@.len() as int) {
            seq![]
        } else {
            seq![
                ValidationErrorModel {
                    path,
                    message: type_name_of(v) + " does not match any allowed schema"@,
                },
            ]
        },
    }
}

/// The path of item `i` under `path`: `path[i]`.
pub open spec fn item_path(path: Seq<char>, i: int) -> Seq<char> {
    path + seq!['['] + decimal(i as nat) + seq![']']
}

/// The path of field `key` under `path`: `path.key`.
pub open spec fn field_path(path: Seq<char>, key: Seq<char>) -> Seq<char> {
    path + seq!['.'] + key
}

/// The violations of the first `k` items against `item`.
pub open spec fn check_items(items: Seq<ValueModel>, item: Schema, path: Seq<char>, k: int) -> Seq<
    ValidationErrorModel,
>
    decreases item, k,
{
    if k <= 0 || k > items.len() {
        seq![]
    } else {
        check_items(items, item, path, k - 1) + check_spec(items[k - 1], item, item_path(path, k - 1))
    }
}

/// The violations of the first `k` fields by the mapping `entries`.
pub open spec fn check_fields(
    entries: Seq<(Seq<char>, ValueModel)>,
    fields: Seq<Field>,
    path: Seq<char>,
    k: int,
) -> Seq<ValidationErrorModel>
    decreases fields, k,
{
    if k <= 0 || k > fields.len() {
        seq![]
    } else {
        let f = fields[k - 1];
        check_fields(entries, fields, path, k - 1) + match lookup(entries, f.key@) {
            Some(v) => check_spec(v, f.schema, field_path(path, f.key@)),
            None => if f.required {
                seq![
                    ValidationErrorModel {
                        path,
                        message: "missing required field '"@ + f.key@ + "'"@,
                    },
                ]
            } else {
                seq![]
            },
        }
    }
}

/// Whether `v` meets one of the first `k` alternatives without violation.
pub open spec fn any_alternative(v: ValueModel, alternatives: Seq<Schema>, k: int) -> bool
    decreases alternatives, k,
{
    if k <= 0 || k > alternatives.len() {
        false
    } else {
        any_alternative(v, alternatives, k - 1) || check_spec(v, alternatives[k - 1], "$"@).len()
            == 0
    }
}


proof fn lemma_errors_model_push(v: Seq<ValidationError>, e: ValidationError)
    ensures
        errors_model(v.push(e)) == errors_model(v).push(e@),
{
    assert(errors_model(v.push(e)) =~= errors_model(v).push(e@));
}

/// The name of a value's type, as messages use it.
pub fn value_type_name(value: &Value) -> (name: &'static str)
    ensures
        name@ == type_name_of(value@),
{
    match value {
        Value::Null => "null",
        Value::Bool(_) => "bool",
        Value::Int(_) => "int",
        Value::Float(_) => "float",
        Value::String(_) => "string",
        Value::Sequence(items) => {
            proof {
                lemma_sequence_model(*items);
            }
            "sequence"
        },
        Value::Mapping(entries) => {
            proof {
                lemma_mapping_model(*entries);
            }
            "mapping"
        },
    }
}

/// A type mismatch at `path`: `expected <expected>, found <type>`.
pub fn mismatch(path: &str, expected: &str, value: &Value) -> (e: ValidationError)
    ensures
        e@ == mismatch_of(path@, expected@, value@),
{
    let mut message = String::from_str("expected ");
    push_str(&mut message, expected);
    push_str(&mut message, ", found ");
    push_str(&mut message, value_type_name(value));
    ValidationError { path: String::from_str(path), message }
}

fn push_error(errors: &mut Vec<ValidationError>, e: ValidationError)
    ensures
        errors_model(final(errors)@) == errors_model(old(errors)@).push(e@),
{
    proof {
        lemma_errors_model_push(errors@, e);
    }
    errors.push(e);
}

/// Checks `value` against `schema` and returns every violation found. An
/// empty vector means the value matches. Unlike parsing, validation never
/// stops at the first problem, so a caller can report everything wrong with
/// a config in one shot.
pub fn validate(value: &Value, schema: &Schema) -> (errors: Vec<ValidationError>)
    ensures
        errors_model(errors@) == check_spec(value@, *schema, "$"@),
    decreases schema, 1int,
{
    let mut errors: Vec<ValidationError> = Vec::new();
    proof {
        assert(errors_model(errors@) =~= Seq::<ValidationErrorModel>::empty());
    }
    let root = String::from_str("$");
    check(value, schema, &root, &mut errors);
    proof {
        assert(errors_model(errors@) =~= check_spec(value@, *schema, "$"@));
    }
    errors
}

/// Appends every violation of `schema` by `value` to `errors`, with paths
/// rooted at `path`.
pub fn check(value: &Value, schema: &Schema, path: &String, errors: &mut Vec<ValidationError>)
    ensures
        errors_model(final(errors)@) == errors_model(old(errors)@) + check_spec(
            value@,
            *schema,
            path@,
        ),
    decreases schema, 0int,
{
    let ghost before = errors_model(errors@);
    match schema {
        Schema::Any => {
            assert(errors_model(errors@) =~= before + Seq::<ValidationErrorModel>::empty());
        },
        Schema::Null => {
            if !matches!(value, Value::Null) {
                push_error(errors, mismatch(path.as_str(), "null", value));
            } else {
                assert(errors_model(errors@) =~= before + Seq::<ValidationErrorModel>::empty());
            }
        },
        Schema::Bool => {
            if !matches!(value, Value::Bool(_)) {
                push_error(errors, mismatch(path.as_str(), "bool", value));
            } else {
                assert(errors_model(errors@) =~= before + Seq::<ValidationErrorModel>::empty());
            }
        },
        Schema::Int => {
            if !matches!(value, Value::Int(_)) {
                push_error(errors, mismatch(path.as_str(), "int", value));
            } else {
                assert(errors_model(errors@) =~= before + Seq::<ValidationErrorModel>::empty());
            }
        },
        Schema::Float => {
            if !matches!(value, Value::Float(_) | Value::Int(_)) {
                push_error(errors, mismatch(path.as_str(), "float", value));
            } else {
                assert(errors_model(errors@) =~= before + Seq::<ValidationErrorModel>::empty());
            }
        },
        Schema::String => {
            if !matches!(value, Value::String(_)) {
                push_error(errors, mismatch(path.as_str(), "string", value));
            } else {
                assert(errors_model(errors@) =~= before + Seq::<ValidationErrorModel>::empty());
            }
        },
        Schema::Sequence(item_schema) => match value {
            Value::Sequence(items) => {
                proof {
                    lemma_sequence_model(*items);
                }
                let ghost m = items_model(items@);
                let mut i: usize = 0;
                assert(errors_model(errors@) =~= before + check_items(m, **item_schema, path@, 0));
                #[verifier::loop_isolation(false)]
                while i < items.len()
                    invariant
                        0 <= i <= items@.len(),
                        m == items_model(items@),
                        errors_model(errors@) == before + check_items(
                            m,
                            **item_schema,
                            path@,
                            i as int,
                        ),
                    decreases items.len() - i,
                {
                    let mut sub_path = path.clone();
                    push_char(&mut sub_path, '[');
                    push_decimal(&mut sub_path, i as u64);
                    push_char(&mut sub_path, ']');
                    let ghost mid = errors_model(errors@);
                    check(&items[i], item_schema, &sub_path, errors);
                    proof {
                        assert(m[i as int] == items@[i as int]@);
                        assert(sub_path@ =~= item_path(path@, i as int));
                        assert(errors_model(errors@) =~= before + check_items(
                            m,
                            **item_schema,
                            path@,
                            i + 1,
                        ));
                    }
                    i = i + 1;
                }
            },
            _ => {
                push_error(errors, mismatch(path.as_str(), "sequence", value));
            },
        },
        Schema::Mapping(fields) => match value {
            Value::Mapping(entries) => {
                proof {
                    lemma_mapping_model(*entries);
                }
                let ghost m = entries_model(entries@);
                let mut i: usize = 0;
                assert(errors_model(errors@) =~= before + check_fields(m, fields@, path@, 0));
                #[verifier::loop_isolation(false)]
                while i < fields.len()
                    invariant
                        0 <= i <= fields@.len(),
                        m == entries_model(entries@),
                        errors_model(errors@) == before + check_fields(m, fields@, path@, i as int),
                    decreases fields.len() - i,
                {
                    let field = &fields[i];
                    proof {
                        vstd::std_specs::vec::axiom_vec_index_decreases(*fields, i as int);
                    }
                    let ghost mid = errors_model(errors@);
                    let mut j: usize = 0;
                    let mut found: Option<usize> = None;
                    while j < entries.len()
                        invariant_except_break
                            found is None,
                        invariant
                            0 <= j <= entries@.len(),
                            m == entries_model(entries@),
                            lookup(m, field.key@) == lookup_from(m, field.key@, j as int),
                        ensures
                            match found {
                                Some(k) => k < entries@.len() && lookup(m, field.key@) == Some(
                                    m[k as int].1,
                                ),
                                None => lookup(m, field.key@) is None,
                            },
                        decreases entries.len() - j,
                    {
                        if entries[j].0 == field.key {
                            found = Some(j);
                            break;
                        }
                        j = j + 1;
                    }
                    match found {
                        Some(k) => {
                            let mut sub_path = path.clone();
                            push_char(&mut sub_path, '.');
                            push_str(&mut sub_path, field.key.as_str());
                            check(&entries[k].1, &field.schema, &sub_path, errors);
                            proof {
                                assert(sub_path@ =~= field_path(path@, field.key@));
                            }
                        },
                        None => {
                            if field.required {
                                let mut message = String::from_str("missing required field '");
                                push_str(&mut message, field.key.as_str());
                                push_str(&mut message, "'");
                                push_error(errors, ValidationError { path: path.clone(), message });
                            } else {
                                assert(errors_model(errors@) =~= mid + Seq::<
                                    ValidationErrorModel,
                                >::empty());
                            }
                        },
                    }
                    proof {
                        assert(fields@[i as int] == *field);
                        assert(errors_model(errors@) =~= before + check_fields(
                            m,
                            fields@,
                            path@,
                            i + 1,
                        ));
                    }
                    i = i + 1;
                }
            },
            _ => {
                push_error(errors, mismatch(path.as_str(), "mapping", value));
            },
        },
        Schema::OneOf(alternatives) => {
            let mut matched = false;
            let mut i: usize = 0;
            #[verifier::loop_isolation(false)]
            while i < alternatives.len()
                invariant
                    0 <= i <= alternatives@.len(),
                    matched == any_alternative(value@, alternatives@, i as int),
                decreases alternatives.len() - i,
            {
                proof {
                    vstd::std_specs::vec::axiom_vec_index_decreases(*alternatives, i as int);
                }
                if !matched {
                    let errs = validate(value, &alternatives[i]);
                    if errs.len() == 0 {
                        matched = true;
                    }
                    proof {
                        assert(errors_model(errs@).len() == errs@.len());
                    }
                }
                i = i + 1;
            }
            if !matched {
                let mut message = String::from_str(value_type_name(value));
                push_str(&mut message, " does not match any allowed schema");
                push_error(errors, ValidationError { path: path.clone(), message });
            } else {
                assert(errors_model(errors@) =~= before + Seq::<ValidationErrorModel>::empty());
            }
        },
    }
}

/// Every error in `errs` has a path that begins with `p`.
pub open spec fn all_under(errs: Seq<ValidationErrorModel>, p: Seq<char>) -> bool {
    forall|k: int|
        0 <= k < errs.len() ==> (#[trigger] errs[k]).path.len() >= p.len() && errs[k].path.subrange(
            0,
            p.len() as int,
        ) == p
}

proof fn lemma_all_under_concat(a: Seq<ValidationErrorModel>, b: Seq<ValidationErrorModel>, p: Seq<char>)
    requires
        all_under(a, p),
        all_under(b, p),
    ensures
        all_under(a + b, p),
{
    assert forall|k: int| 0 <= k < (a + b).len() implies (#[trigger] (a + b)[k]).path.len()
        >= p.len() && (a + b)[k].path.subrange(0, p.len() as int) == p by {
        if k < a.len() {
            assert((a + b)[k] == a[k]);
        } else {
            assert((a + b)[k] == b[k - a.len()]);
        }
    }
}

proof fn lemma_all_under_widen(errs: Seq<ValidationErrorModel>, p: Seq<char>, q: Seq<char>)
    requires
        all_under(errs, q),
        q.len() >= p.len(),
        q.subrange(0, p.len() as int) == p,
    ensures
        all_under(errs, p),
{
    assert forall|k: int| 0 <= k < errs.len() implies (#[trigger] errs[k]).path.len() >= p.len()
        && errs[k].path.subrange(0, p.len() as int) == p by {
        let e = errs[k].path;
        assert(e.subrange(0, q.len() as int) == q);
        assert(e.subrange(0, p.len() as int) =~= q.subrange(0, p.len() as int));
    }
}

/// What holds of the violations at any path: they lie under that path,
/// and how many there are does not depend on it.
proof fn lemma_check_paths(v: ValueModel, schema: Schema, p: Seq<char>, q: Seq<char>)
    ensures
        all_under(check_spec(v, schema, p), p),
        check_spec(v, schema, p).len() == check_spec(v, schema, q).len(),
    decreases schema, 0int,
{
    assert(p.subrange(0, p.len() as int) =~= p);
    match schema {
        Schema::Sequence(item) => {
            if let ValueModel::Sequence(items) = v {
                lemma_items_paths(items, *item, p, q, items.len() as int);
            }
        },
        Schema::Mapping(fields) => {
            if let ValueModel::Mapping(entries) = v {
                lemma_fields_paths(entries, fields@, p, q, fields@.len() as int);
            }
        },
        _ => {},
    }
}

proof fn lemma_items_paths(items: Seq<ValueModel>, item: Schema, p: Seq<char>, q: Seq<char>, k: int)
    ensures
        all_under(check_items(items, item, p, k), p),
        check_items(items, item, p, k).len() == check_items(items, item, q, k).len(),
    decreases item, k,
{
    if 0 < k <= items.len() {
        lemma_items_paths(items, item, p, q, k - 1);
        lemma_check_paths(items[k - 1], item, item_path(p, k - 1), item_path(q, k - 1));
        let ip = item_path(p, k - 1);
        assert(ip.subrange(0, p.len() as int) =~= p);
        lemma_all_under_widen(check_spec(items[k - 1], item, ip), p, ip);
        lemma_all_under_concat(
            check_items(items, item, p, k - 1),
            check_spec(items[k - 1], item, ip),
            p,
        );
    }
}

proof fn lemma_fields_paths(
    entries: Seq<(Seq<char>, ValueModel)>,
    fields: Seq<Field>,
    p: Seq<char>,
    q: Seq<char>,
    k: int,
)
    ensures
        all_under(check_fields(entries, fields, p, k), p),
        check_fields(entries, fields, p, k).len() == check_fields(entries, fields, q, k).len(),
    decreases fields, k,
{
    if 0 < k <= fields.len() {
        lemma_fields_paths(entries, fields, p, q, k - 1);
        let f = fields[k - 1];
        let here = match lookup(entries, f.key@) {
            Some(v) => check_spec(v, f.schema, field_path(p, f.key@)),
            None => if f.required {
                seq![
                    ValidationErrorModel {
                        path: p,
                        message: "missing required field '"@ + f.key@ + "'"@,
                    },
                ]
            } else {
                seq![]
            },
        };
        if let Some(v) = lookup(entries, f.key@) {
            let fp = field_path(p, f.key@);
            lemma_check_paths(v, f.schema, fp, field_path(q, f.key@));
            assert(fp.subrange(0, p.len() as int) =~= p);
            lemma_all_under_widen(here, p, fp);
        } else {
            assert(p.subrange(0, p.len() as int) =~= p);
        }
        lemma_all_under_concat(check_fields(entries, fields, p, k - 1), here, p);
    }
}

proof fn lemma_any_alternative(v: ValueModel, alternatives: Seq<Schema>, k: int, p: Seq<char>)
    requires
        0 <= k <= alternatives.len(),
    ensures
        any_alternative(v, alternatives, k) <==> exists|i: int|
            0 <= i < k && (#[trigger] check_spec(v, alternatives[i], p)).len() == 0,
    decreases k,
{
    if k > 0 {
        lemma_any_alternative(v, alternatives, k - 1, p);
        lemma_check_paths(v, alternatives[k - 1], "$"@, p);
        if exists|i: int| 0 <= i < k && (#[trigger] check_spec(v, alternatives[i], p)).len() == 0 {
            let i = choose|i: int|
                0 <= i < k && (#[trigger] check_spec(v, alternatives[i], p)).len() == 0;
            if i < k - 1 {
                assert(exists|j: int|
                    0 <= j < k - 1 && (#[trigger] check_spec(v, alternatives[j], p)).len() == 0);
            }
        }
    }
}

/// Every violation that `validate` reports lies under the `$` root, and in
/// general every violation found at a path lies under that path.
pub proof fn law_error_paths_rooted(v: ValueModel, schema: Schema, path: Seq<char>)
    ensures
        forall|k: int|
            0 <= k < check_spec(v, schema, path).len() ==> path.is_prefix_of(
                #[trigger] check_spec(v, schema, path)[k].path,
            ),
{
    lemma_check_paths(v, schema, path, path);
    let errs = check_spec(v, schema, path);
    assert forall|k: int| 0 <= k < errs.len() implies path.is_prefix_of(
        #[trigger] errs[k].path,
    ) by {
        assert(errs[k].path.subrange(0, path.len() as int) == path);
    }
}

/// `OneOf` accepts a value exactly when one of its alternatives accepts it.
pub proof fn law_one_of(v: ValueModel, alternatives: Vec<Schema>, path: Seq<char>)
    ensures
        check_spec(v, Schema::OneOf(alternatives), path).len() == 0 <==> exists|i: int|
            0 <= i < alternatives@.len() && (#[trigger] check_spec(v, alternatives@[i], path)).len()
                == 0,
{
    lemma_any_alternative(v, alternatives@, alternatives@.len() as int, path);
}

/// `Any` accepts every value, and `Float` accepts every integer as well as
/// every float.
pub proof fn law_any_and_float(v: ValueModel, path: Seq<char>)
    ensures
        check_spec(v, Schema::Any, path).len() == 0,
        v is Int || v is Float ==> check_spec(v, Schema::Float, path).len() == 0,
{
}

/// Whether `v` has the shape `schema` describes: `Any` takes anything,
/// the scalar schemas take their own variant (`Float` an integer too), a
/// sequence schema a sequence whose items all match, a mapping schema a
/// mapping whose first entry for each field matches the field's schema,
/// with absent fields optional, and `OneOf` a value one alternative takes.
pub open spec fn matches(v: ValueModel, schema: Schema) -> bool
    decreases schema, 0int,
{
    match schema {
        Schema::Any => true,
        Schema::Null => v is Null,
        Schema::Bool => v is Bool,
        Schema::Int => v is Int,
        Schema::Float => v is Float || v is Int,
        Schema::String => v is Str,
        Schema::Sequence(item) => match v {
            ValueModel::Sequence(items) => items_match(items, *item, items.len() as int),
            _ => false,
        },
        Schema::Mapping(fields) => match v {
            ValueModel::Mapping(entries) => fields_match(entries, fields@, fields@.len() as int),
            _ => false,
        },
        Schema::OneOf(alternatives) => some_alternative_matches(
            v,
            alternatives@,
            alternatives@.len() as int,
        ),
    }
}

/// Whether the first `k` items all match `item`.
pub open spec fn items_match(items: Seq<ValueModel>, item: Schema, k: int) -> bool
    decreases item, k,
{
    if k <= 0 || k > items.len() {
        true
    } else {
        items_match(items, item, k - 1) && matches(items[k - 1], item)
    }
}

/// Whether the mapping `entries` meets the first `k` fields.
pub open spec fn fields_match(entries: Seq<(Seq<char>, ValueModel)>, fields: Seq<Field>, k: int) -> bool
    decreases fields, k,
{
    if k <= 0 || k > fields.len() {
        true
    } else {
        let f = fields[k - 1];
        fields_match(entries, fields, k - 1) && match lookup(entries, f.key@) {
            Some(x) => matches(x, f.schema),
            None => !f.required,
        }
    }
}

/// Whether `v` matches one of the first `k` alternatives.
pub open spec fn some_alternative_matches(v: ValueModel, alternatives: Seq<Schema>, k: int) -> bool
    decreases alternatives, k,
{
    if k <= 0 || k > alternatives.len() {
        false
    } else {
        some_alternative_matches(v, alternatives, k - 1) || matches(v, alternatives[k - 1])
    }
}

/// Validation finds no violation exactly when the value matches.
proof fn lemma_check_matches(v: ValueModel, schema: Schema, p: Seq<char>)
    ensures
        check_spec(v, schema, p).len() == 0 <==> matches(v, schema),
    decreases schema, 0int,
{
    match schema {
        Schema::Sequence(item) => {
            if let ValueModel::Sequence(items) = v {
                lemma_items_matches(items, *item, p, items.len() as int);
            }
        },
        Schema::Mapping(fields) => {
            if let ValueModel::Mapping(entries) = v {
                lemma_fields_matches(entries, fields@, p, fields@.len() as int);
            }
        },
        Schema::OneOf(alternatives) => {
            lemma_alternatives_match(v, alternatives@, alternatives@.len() as int);
        },
        _ => {},
    }
}

proof fn lemma_items_matches(items: Seq<ValueModel>, item: Schema, p: Seq<char>, k: int)
    ensures
        check_items(items, item, p, k).len() == 0 <==> items_match(items, item, k),
    decreases item, k,
{
    if 0 < k <= items.len() {
        lemma_items_matches(items, item, p, k - 1);
        lemma_check_matches(items[k - 1], item, item_path(p, k - 1));
    }
}

proof fn lemma_fields_matches(
    entries: Seq<(Seq<char>, ValueModel)>,
    fields: Seq<Field>,
    p: Seq<char>,
    k: int,
)
    ensures
        check_fields(entries, fields, p, k).len() == 0 <==> fields_match(entries, fields, k),
    decreases fields, k,
{
    if 0 < k <= fields.len() {
        lemma_fields_matches(entries, fields, p, k - 1);
        let f = fields[k - 1];
        if let Some(x) = lookup(entries, f.key@) {
            lemma_check_matches(x, f.schema, field_path(p, f.key@));
        }
    }
}

proof fn lemma_alternatives_match(v: ValueModel, alternatives: Seq<Schema>, k: int)
    ensures
        any_alternative(v, alternatives, k) <==> some_alternative_matches(v, alternatives, k),
    decreases alternatives, k,
{
    if 0 < k <= alternatives.len() {
        lemma_alternatives_match(v, alternatives, k - 1);
        lemma_check_matches(v, alternatives[k - 1], "$"@);
    }
}

/// `validate` returns no violation exactly when the value has the shape
/// the schema describes ([`matches`]).
pub proof fn law_validate_empty_iff_matches(v: ValueModel, schema: Schema)
    ensures
        check_spec(v, schema, "$"@).len() == 0 <==> matches(v, schema),
{
    lemma_check_matches(v, schema, "$"@);
}

/// The violations of each of the first `k` fields checked on its own, one
/// field after another.
pub open spec fn each_field(
    entries: Seq<(Seq<char>, ValueModel)>,
    fields: Seq<Field>,
    p: Seq<char>,
    k: int,
) -> Seq<ValidationErrorModel>
    decreases k,
{
    if k <= 0 || k > fields.len() {
        seq![]
    } else {
        each_field(entries, fields, p, k - 1) + check_fields(entries, seq![fields[k - 1]], p, 1)
    }
}

proof fn lemma_each_field(
    entries: Seq<(Seq<char>, ValueModel)>,
    fields: Seq<Field>,
    p: Seq<char>,
    k: int,
)
    ensures
        check_fields(entries, fields, p, k) == each_field(entries, fields, p, k),
    decreases k,
{
    if 0 < k <= fields.len() {
        lemma_each_field(entries, fields, p, k - 1);
        let one = seq![fields[k - 1]];
        assert(one[0] == fields[k - 1]);
        assert(check_fields(entries, one, p, 0) =~= Seq::<ValidationErrorModel>::empty());
    }
}

/// Validation never stops at the first problem: the violations of a
/// mapping are those of each field checked on its own, in field order.
pub proof fn law_mapping_collects_every_field(
    entries: Seq<(Seq<char>, ValueModel)>,
    fields: Vec<Field>,
    p: Seq<char>,
)
    ensures
        check_spec(ValueModel::Mapping(entries), Schema::Mapping(fields), p) == each_field(
            entries,
            fields@,
            p,
            fields@.len() as int,
        ),
{
    lemma_each_field(entries, fields@, p, fields@.len() as int);
}

/// The violations of the items from `i` on, each checked on its own at
/// the path `p[j]`, in item order.
pub open spec fn each_item(items: Seq<ValueModel>, item: Schema, p: Seq<char>, i: int) -> Seq<
    ValidationErrorModel,
>
    decreases items.len() - i,
{
    if i < 0 || i >= items.len() {
        seq![]
    } else {
        check_spec(items[i], item, p + seq!['['] + decimal(i as nat) + seq![']']) + each_item(
            items,
            item,
            p,
            i + 1,
        )
    }
}

proof fn lemma_each_item(items: Seq<ValueModel>, item: Schema, p: Seq<char>, k: int)
    requires
        0 <= k <= items.len(),
    ensures
        check_items(items, item, p, k) + each_item(items, item, p, k) == each_item(items, item, p, 0),
    decreases k,
{
    if k == 0 {
        assert(check_items(items, item, p, 0) + each_item(items, item, p, 0) =~= each_item(
            items,
            item,
            p,
            0,
        ));
    } else {
        lemma_each_item(items, item, p, k - 1);
        assert(item_path(p, k - 1) == p + seq!['['] + decimal((k - 1) as nat) + seq![']']);
        assert(check_items(items, item, p, k) + each_item(items, item, p, k) =~= check_items(
            items,
            item,
            p,
            k - 1,
        ) + each_item(items, item, p, k - 1));
    }
}

/// Validation never stops at the first problem: the violations of a
/// sequence are those of each item checked on its own at `path[i]`, in
/// item order.
pub proof fn law_sequence_collects_every_item(items: Seq<ValueModel>, item: Box<Schema>, p: Seq<char>)
    ensures
        check_spec(ValueModel::Sequence(items), Schema::Sequence(item), p) == each_item(
            items,
            *item,
            p,
            0,
        ),
{
    lemma_each_item(items, *item, p, items.len() as int);
    assert(each_item(items, *item, p, items.len() as int) =~= Seq::<ValidationErrorModel>::empty());
    assert(check_items(items, *item, p, items.len() as int) + Seq::<ValidationErrorModel>::empty()
        =~= check_items(items, *item, p, items.len() as int));
}

/// The word for the kind of a value in a violation message.
pub open spec fn kind_word(v: ValueModel) -> Seq<char> {
    if v is Null {
        "null"@
    } else if v is Bool {
        "bool"@
    } else if v is Int {
        "int"@
    } else if v is Float {
        "float"@
    } else if v is Str {
        "string"@
    } else if v is Sequence {
        "sequence"@
    } else {
        "mapping"@
    }
}

/// A value of the wrong kind for a scalar, sequence or mapping schema
/// gives exactly one violation at the path: `expected <kind>, found
/// <kind of the value>`; one of the right kind gives none from the kind
/// check (a sequence or mapping is then checked part by part).
pub proof fn law_kind_mismatch(v: ValueModel, p: Seq<char>, item: Box<Schema>, fields: Vec<Field>)
    ensures
        check_spec(v, Schema::Null, p) == if v is Null {
            seq![]
        } else {
            seq![ValidationErrorModel { path: p, message: "expected null, found "@ + kind_word(v) }]
        },
        check_spec(v, Schema::Bool, p) == if v is Bool {
            seq![]
        } else {
            seq![ValidationErrorModel { path: p, message: "expected bool, found "@ + kind_word(v) }]
        },
        check_spec(v, Schema::Int, p) == if v is Int {
            seq![]
        } else {
            seq![ValidationErrorModel { path: p, message: "expected int, found "@ + kind_word(v) }]
        },
        check_spec(v, Schema::Float, p) == if v is Int || v is Float {
            seq![]
        } else {
            seq![ValidationErrorModel { path: p, message: "expected float, found "@ + kind_word(v) }]
        },
        check_spec(v, Schema::String, p) == if v is Str {
            seq![]
        } else {
            seq![ValidationErrorModel { path: p, message: "expected string, found "@ + kind_word(v) }]
        },
        !(v is Sequence) ==> check_spec(v, Schema::Sequence(item), p) == seq![
            ValidationErrorModel { path: p, message: "expected sequence, found "@ + kind_word(v) },
        ],
        !(v is Mapping) ==> check_spec(v, Schema::Mapping(fields), p) == seq![
            ValidationErrorModel { path: p, message: "expected mapping, found "@ + kind_word(v) },
        ],
{
    reveal_strlit("expected null, found ");
    reveal_strlit("expected bool, found ");
    reveal_strlit("expected int, found ");
    reveal_strlit("expected float, found ");
    reveal_strlit("expected string, found ");
    reveal_strlit("expected sequence, found ");
    reveal_strlit("expected mapping, found ");
    reveal_strlit("expected ");
    reveal_strlit(", found ");
    reveal_strlit("null");
    reveal_strlit("bool");
    reveal_strlit("int");
    reveal_strlit("float");
    reveal_strlit("string");
    reveal_strlit("sequence");
    reveal_strlit("mapping");
    assert(kind_word(v) == type_name_of(v));
    assert("expected null, found "@ =~= "expected "@ + "null"@ + ", found "@);
    assert("expected bool, found "@ =~= "expected "@ + "bool"@ + ", found "@);
    assert("expected int, found "@ =~= "expected "@ + "int"@ + ", found "@);
    assert("expected float, found "@ =~= "expected "@ + "float"@ + ", found "@);
    assert("expected string, found "@ =~= "expected "@ + "string"@ + ", found "@);
    assert("expected sequence, found "@ =~= "expected "@ + "sequence"@ + ", found "@);
    assert("expected mapping, found "@ =~= "expected "@ + "mapping"@ + ", found "@);
    assert(check_spec(v, Schema::Null, p) =~= if v is Null {
        seq![]
    } else {
        seq![ValidationErrorModel { path: p, message: "expected null, found "@ + kind_word(v) }]
    });
    assert(check_spec(v, Schema::Bool, p) =~= if v is Bool {
        seq![]
    } else {
        seq![ValidationErrorModel { path: p, message: "expected bool, found "@ + kind_word(v) }]
    });
    assert(check_spec(v, Schema::Int, p) =~= if v is Int {
        seq![]
    } else {
        seq![ValidationErrorModel { path: p, message: "expected int, found "@ + kind_word(v) }]
    });
    assert(check_spec(v, Schema::Float, p) =~= if v is Int || v is Float {
        seq![]
    } else {
        seq![ValidationErrorModel { path: p, message: "expected float, found "@ + kind_word(v) }]
    });
    assert(check_spec(v, Schema::String, p) =~= if v is Str {
        seq![]
    } else {
        seq![ValidationErrorModel { path: p, message: "expected string, found "@ + kind_word(v) }]
    });
}

} // verus!
