use yaml_config_doctor::load;
use yaml_config_doctor::load_with_lint_config;
use yaml_config_doctor::report;
use yaml_config_doctor::LintConfig;
use yaml_config_doctor::OutputFormat;
use yaml_config_doctor::Severity;

#[test]
fn load_combines_parser_and_lint_diagnostics() {
    let input = "a: 1\na: 2\t\n";
    let doc = load(input).unwrap();
    assert!(doc.diagnostics.iter().any(|d| d.message.contains("duplicate")));
    assert!(doc.diagnostics.iter().any(|d| d.message.contains("tab")));
}

#[test]
fn render_human_and_json_agree_on_content() {
    let doc = load("name: demo\n").unwrap();
    let human = report::render(&doc, OutputFormat::Human);
    let json = report::render(&doc, OutputFormat::Json);
    assert_eq!(human, "no issues found\n");
    assert!(json.contains("\"name\""));
}

#[test]
fn load_with_lint_config_can_suppress_lint_warnings() {
    let input = "a: 1\nb: 2 \n";
    let mut config = LintConfig::default();
    config.check_trailing_whitespace = false;
    let doc = load_with_lint_config(input, &config).unwrap();
    assert!(!doc.diagnostics.iter().any(|d| d.message.contains("trailing whitespace")));
}

#[test]
fn load_with_lint_config_can_raise_min_severity() {
    let input = "a: 1\nb: 2 \n";
    let mut config = LintConfig::default();
    config.min_severity = Severity::Error;
    let doc = load_with_lint_config(input, &config).unwrap();
    assert!(doc.diagnostics.is_empty());
}
