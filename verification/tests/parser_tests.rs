use yaml_config_doctor::parser::parse;
use yaml_config_doctor::Value;

#[test]
fn parses_flat_mapping() {
    let doc = parse("name: demo\nport: 8080\ndebug: true\n").unwrap();
    assert_eq!(doc.value.get("name").and_then(Value::as_str), Some("demo"));
    assert_eq!(doc.value.get("port"), Some(&Value::Int(8080)));
    assert_eq!(doc.value.get("debug"), Some(&Value::Bool(true)));
}

#[test]
fn parses_nested_sequence_of_mappings() {
    let input = "servers:\n  - name: a\n    port: 1\n  - name: b\n    port: 2\n";
    let doc = parse(input).unwrap();
    let servers = doc.value.get("servers").and_then(Value::as_sequence).unwrap();
    assert_eq!(servers.len(), 2);
    assert_eq!(servers[1].get("name").and_then(Value::as_str), Some("b"));
}

#[test]
fn flags_duplicate_keys() {
    let doc = parse("a: 1\na: 2\n").unwrap();
    assert!(doc.diagnostics.iter().any(|d| d.message.contains("duplicate")));
}

#[test]
fn strips_trailing_comments_but_not_quoted_hashes() {
    let doc = parse("a: \"b#c\" # a real comment\n").unwrap();
    assert_eq!(doc.value.get("a").and_then(Value::as_str), Some("b#c"));
}

#[test]
fn rejects_malformed_line() {
    let err = parse("not a mapping line").unwrap_err();
    assert_eq!(err.line, 1);
}

#[test]
fn parses_flow_mapping() {
    let doc = parse("a: {b: 1, c: two, d: true}\n").unwrap();
    let a = doc.value.get("a").unwrap();
    assert_eq!(a.get("b"), Some(&Value::Int(1)));
    assert_eq!(a.get("c").and_then(Value::as_str), Some("two"));
    assert_eq!(a.get("d"), Some(&Value::Bool(true)));
}

#[test]
fn parses_flow_sequence() {
    let doc = parse("a: [1, 2, 3]\n").unwrap();
    let a = doc.value.get("a").and_then(Value::as_sequence).unwrap();
    assert_eq!(a, &[Value::Int(1), Value::Int(2), Value::Int(3)][..]);
}

#[test]
fn parses_nested_flow_collections() {
    let doc = parse("servers: [{host: a, port: 1}, {host: b, port: 2}]\n").unwrap();
    let servers = doc.value.get("servers").and_then(Value::as_sequence).unwrap();
    assert_eq!(servers.len(), 2);
    assert_eq!(servers[1].get("host").and_then(Value::as_str), Some("b"));
}

#[test]
fn parses_flow_collection_as_block_sequence_item() {
    let doc = parse("- [1, 2]\n- {a: 1}\n").unwrap();
    let items = doc.value.as_sequence().unwrap();
    assert_eq!(items[0].as_sequence(), Some(&[Value::Int(1), Value::Int(2)][..]));
    assert_eq!(items[1].get("a"), Some(&Value::Int(1)));
}

#[test]
fn flow_scalars_can_contain_unquoted_colons() {
    let doc = parse("a: [http://host, 1]\n").unwrap();
    let a = doc.value.get("a").and_then(Value::as_sequence).unwrap();
    assert_eq!(a[0], Value::String("http://host".to_string()));
}

#[test]
fn flags_duplicate_keys_within_a_flow_mapping() {
    let doc = parse("a: {b: 1, b: 2}\n").unwrap();
    assert!(doc.diagnostics.iter().any(|d| d.message.contains("duplicate")));
}

#[test]
fn rejects_unterminated_flow_mapping() {
    let err = parse("a: {b: 1\n").unwrap_err();
    assert_eq!(err.line, 1);
}
