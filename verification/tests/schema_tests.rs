use yaml_config_doctor::parser::parse;
use yaml_config_doctor::validate;
use yaml_config_doctor::Field;
use yaml_config_doctor::Schema;
use yaml_config_doctor::ValidationError;

#[test]
fn accepts_a_matching_document() {
    let doc = parse("name: demo\nport: 8080\n").unwrap();
    let schema = Schema::Mapping(vec![
        Field::required("name", Schema::String),
        Field::required("port", Schema::Int),
    ]);
    assert!(validate(&doc.value, &schema).is_empty());
}

#[test]
fn reports_missing_required_field() {
    let doc = parse("name: demo\n").unwrap();
    let schema = Schema::Mapping(vec![
        Field::required("name", Schema::String),
        Field::required("port", Schema::Int),
    ]);
    let errors = validate(&doc.value, &schema);
    assert_eq!(errors.len(), 1);
    assert_eq!(errors[0].path, "$");
    assert!(errors[0].message.contains("port"));
}

#[test]
fn optional_field_is_not_required() {
    let doc = parse("name: demo\n").unwrap();
    let schema = Schema::Mapping(vec![
        Field::required("name", Schema::String),
        Field::optional("port", Schema::Int),
    ]);
    assert!(validate(&doc.value, &schema).is_empty());
}

#[test]
fn reports_type_mismatch_with_path() {
    let doc = parse("port: not-a-number\n").unwrap();
    let schema = Schema::Mapping(vec![Field::required("port", Schema::Int)]);
    let errors = validate(&doc.value, &schema);
    assert_eq!(errors, vec![ValidationError {
        path: "$.port".to_string(),
        message: "expected int, found string".to_string(),
    }]);
}

#[test]
fn checks_sequence_items_and_reports_indexed_path() {
    let doc = parse("servers:\n  - host: a\n    port: 1\n  - host: b\n    port: bad\n").unwrap();
    let server_schema = Schema::Mapping(vec![
        Field::required("host", Schema::String),
        Field::required("port", Schema::Int),
    ]);
    let schema = Schema::Mapping(vec![Field::required(
        "servers",
        Schema::Sequence(Box::new(server_schema)),
    )]);
    let errors = validate(&doc.value, &schema);
    assert_eq!(errors.len(), 1);
    assert_eq!(errors[0].path, "$.servers[1].port");
}

#[test]
fn float_schema_also_accepts_int() {
    let doc = parse("ratio: 1\n").unwrap();
    let schema = Schema::Mapping(vec![Field::required("ratio", Schema::Float)]);
    assert!(validate(&doc.value, &schema).is_empty());
}

#[test]
fn one_of_accepts_any_matching_alternative() {
    let doc = parse("timeout: 30\n").unwrap();
    let schema = Schema::Mapping(vec![Field::required(
        "timeout",
        Schema::OneOf(vec![Schema::Int, Schema::String]),
    )]);
    assert!(validate(&doc.value, &schema).is_empty());
}

#[test]
fn one_of_reports_when_no_alternative_matches() {
    let doc = parse("timeout: true\n").unwrap();
    let schema = Schema::Mapping(vec![Field::required(
        "timeout",
        Schema::OneOf(vec![Schema::Int, Schema::String]),
    )]);
    let errors = validate(&doc.value, &schema);
    assert_eq!(errors.len(), 1);
    assert_eq!(errors[0].path, "$.timeout");
}

#[test]
fn top_level_type_mismatch_uses_root_path() {
    let doc = parse("- 1\n- 2\n").unwrap();
    let schema = Schema::Mapping(vec![]);
    let errors = validate(&doc.value, &schema);
    assert_eq!(errors, vec![ValidationError {
        path: "$".to_string(),
        message: "expected mapping, found sequence".to_string(),
    }]);
}
