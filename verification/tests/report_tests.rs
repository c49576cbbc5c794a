use yaml_config_doctor::parser::parse;
use yaml_config_doctor::report::render;
use yaml_config_doctor::OutputFormat;

#[test]
fn human_output_lists_diagnostics() {
    let doc = parse("a: 1\na: 2\n").unwrap();
    let text = render(&doc, OutputFormat::Human);
    assert!(text.contains("warning"));
    assert!(text.contains("duplicate"));
}

#[test]
fn json_output_is_well_formed_enough_to_scan() {
    let doc = parse("a: 1\nb: \"x\\\"y\"\n").unwrap();
    let text = render(&doc, OutputFormat::Json);
    assert!(text.starts_with("{\"diagnostics\":["));
    assert!(text.contains("\"value\":{"));
    assert!(text.contains("\\\"y"));
}

#[test]
fn clean_document_has_empty_diagnostics_array() {
    let doc = parse("a: 1\n").unwrap();
    let text = render(&doc, OutputFormat::Json);
    assert!(text.contains("\"diagnostics\":[]"));
}
