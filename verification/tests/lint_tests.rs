use yaml_config_doctor::lint::scan;
use yaml_config_doctor::LintConfig;
use yaml_config_doctor::Severity;

#[test]
fn flags_tabs_and_trailing_whitespace() {
    let diags = scan("a:\tb\nc: d \n", &LintConfig::default());
    assert!(diags.iter().any(|d| d.message.contains("tab")));
    assert!(diags.iter().any(|d| d.message.contains("trailing whitespace")));
}

#[test]
fn clean_input_has_no_diagnostics() {
    assert!(scan("a: 1\nb: 2\n", &LintConfig::default()).is_empty());
}

#[test]
fn max_line_length_is_configurable() {
    let input = "a: 12345\n";
    let mut config = LintConfig::default();
    config.max_line_length = 4;
    let diags = scan(input, &config);
    assert!(diags.iter().any(|d| d.message.contains("exceeds 4")));
}

#[test]
fn disabled_check_produces_no_diagnostic() {
    let mut config = LintConfig::default();
    config.check_tabs = false;
    let diags = scan("a:\tb\n", &config);
    assert!(diags.is_empty());
}

#[test]
fn min_severity_filters_out_warnings() {
    let mut config = LintConfig::default();
    config.min_severity = Severity::Error;
    let diags = scan("a:\tb\nc: d \n", &config);
    assert!(diags.iter().all(|d| d.severity == Severity::Error));
    assert!(diags.iter().any(|d| d.message.contains("tab")));
}
