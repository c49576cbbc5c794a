use yaml_config_doctor::scalar::split_colon;
use yaml_config_doctor::flow::describe_found;
use yaml_config_doctor::lint::scan;
use yaml_config_doctor::load;
use yaml_config_doctor::load_with_lint_config;
use yaml_config_doctor::parser::parse;
use yaml_config_doctor::report::json_string;
use yaml_config_doctor::report::json_value;
use yaml_config_doctor::report::render;
use yaml_config_doctor::validate;
use yaml_config_doctor::Field;
use yaml_config_doctor::LintConfig;
use yaml_config_doctor::OutputFormat;
use yaml_config_doctor::Schema;
use yaml_config_doctor::Severity;
use yaml_config_doctor::ValidationError;
use yaml_config_doctor::Value;

fn parse_error(input: &str) -> (usize, String) {
    let e = parse(input).unwrap_err();
    (e.line, e.message)
}

#[test]
fn empty_and_comment_only_input_is_null() {
    let doc = parse("").unwrap();
    assert_eq!(doc.value, Value::Null);
    assert!(doc.diagnostics.is_empty());
    let doc = parse("# only a comment\n\n   \n").unwrap();
    assert_eq!(doc.value, Value::Null);
    assert!(doc.diagnostics.is_empty());
}

#[test]
fn top_level_sequence() {
    let doc = parse("- 1\n- two\n-\n").unwrap();
    assert_eq!(
        doc.value,
        Value::Sequence(vec![Value::Int(1), Value::String("two".to_string()), Value::Null])
    );
}

#[test]
fn key_without_value_is_null() {
    let doc = parse("a:\nb: 1\n").unwrap();
    assert_eq!(doc.value.get("a"), Some(&Value::Null));
    assert_eq!(doc.value.get("b"), Some(&Value::Int(1)));
}

#[test]
fn malformed_line_message() {
    assert_eq!(
        parse_error("a: 1\nnot a mapping line\n"),
        (2, "expected 'key: value', found 'not a mapping line'".to_string())
    );
}

#[test]
fn indentation_errors_name_their_line() {
    assert_eq!(
        parse_error("a: 1\n  b: 2\n"),
        (2, "unexpected indentation after 'a'".to_string())
    );
    assert_eq!(
        parse_error("- [1]\n  - 2\n"),
        (2, "unexpected indentation after flow collection".to_string())
    );
    assert_eq!(
        parse_error("- x\n  y: 1\n"),
        (2, "unexpected indentation after scalar sequence item".to_string())
    );
    assert_eq!(parse_error("  a: 1\nb: 2\n"), (2, "unexpected indentation".to_string()));
}

#[test]
fn flow_errors_carry_their_line() {
    assert_eq!(
        parse_error("ok: 1\na: [1 2\n"),
        (2, "expected ',' or ']' in flow sequence, found None".to_string())
    );
    assert_eq!(
        parse_error("a: {b: 1\n"),
        (1, "expected ',' or '}' in flow mapping, found None".to_string())
    );
    assert_eq!(
        parse_error("a: {b 1}\n"),
        (1, "expected ':' in flow mapping, found Some('}')".to_string())
    );
    assert_eq!(
        parse_error("a: {\"b\"'x': 1}\n"),
        (1, "expected ':' in flow mapping, found Some('\\'')".to_string())
    );
    assert_eq!(parse_error("a: [\n"), (1, "unexpected end of input in flow value".to_string()));
    assert_eq!(parse_error("a: {: 1}\n"), (1, "expected a key in flow mapping".to_string()));
    assert_eq!(
        parse_error("a: [\"x]\n"),
        (1, "unterminated quoted string in flow collection".to_string())
    );
    assert_eq!(
        parse_error("a: [1] x\n"),
        (1, "unexpected trailing content after flow collection".to_string())
    );
}

#[test]
fn describes_what_was_found() {
    assert_eq!(describe_found(None), "None");
    assert_eq!(describe_found(Some("'x'".to_string())), "Some('x')");
}

#[test]
fn flow_sequence_with_trailing_comma_ends_in_null() {
    let doc = parse("a: [1,]\n").unwrap();
    assert_eq!(
        doc.value.get("a"),
        Some(&Value::Sequence(vec![Value::Int(1), Value::Null]))
    );
}

#[test]
fn crlf_line_endings() {
    let doc = load("a: 1\r\nb: 2\r\n").unwrap();
    assert_eq!(doc.value.get("a"), Some(&Value::Int(1)));
    assert_eq!(doc.value.get("b"), Some(&Value::Int(2)));
    assert!(doc.diagnostics.is_empty());
}

#[test]
fn scalar_typing() {
    let input = "i: -42\nf: 1.5\ne: 1e3\nt: True\nn: ~\ns: hello world\nq: 'it''s'\nd: \"a\\tb\"\nbig: 99999999999999999999\nx: inf\n";
    let doc = parse(input).unwrap();
    let v = &doc.value;
    assert_eq!(v.get("i"), Some(&Value::Int(-42)));
    assert_eq!(v.get("f"), Some(&Value::Float("1.5".to_string())));
    assert_eq!(v.get("e"), Some(&Value::Float("1e3".to_string())));
    assert_eq!(v.get("t"), Some(&Value::Bool(true)));
    assert_eq!(v.get("n"), Some(&Value::Null));
    assert_eq!(v.get("s").and_then(Value::as_str), Some("hello world"));
    assert_eq!(v.get("q").and_then(Value::as_str), Some("it's"));
    assert_eq!(v.get("d").and_then(Value::as_str), Some("a\tb"));
    assert_eq!(v.get("big"), Some(&Value::Float("99999999999999999999".to_string())));
    assert_eq!(v.get("x"), Some(&Value::Float("inf".to_string())));
}

#[test]
fn integer_limits() {
    let doc = parse("lo: -9223372036854775808\nhi: 9223372036854775807\n").unwrap();
    assert_eq!(doc.value.get("lo"), Some(&Value::Int(i64::MIN)));
    assert_eq!(doc.value.get("hi"), Some(&Value::Int(i64::MAX)));
}

#[test]
fn comments_need_a_space_before_the_hash() {
    let doc = parse("a: b#c\nd: e #f\n").unwrap();
    assert_eq!(doc.value.get("a").and_then(Value::as_str), Some("b#c"));
    assert_eq!(doc.value.get("d").and_then(Value::as_str), Some("e"));
}

#[test]
fn nested_duplicate_keys_are_reported() {
    let doc = parse("a:\n  b: 1\n  b: 2\nc: [{x: 1, x: 2}]\n").unwrap();
    let found: Vec<(usize, String)> =
        doc.diagnostics.iter().map(|d| (d.line, d.message.clone())).collect();
    assert_eq!(
        found,
        vec![(3, "duplicate key 'b'".to_string()), (4, "duplicate key 'x'".to_string())]
    );
    assert!(doc.diagnostics.iter().all(|d| d.severity == Severity::Warning));
}

#[test]
fn get_returns_the_first_matching_entry() {
    let doc = parse("a: 1\na: 2\n").unwrap();
    assert_eq!(doc.value.get("a"), Some(&Value::Int(1)));
    assert_eq!(doc.value.get("b"), None);
    assert_eq!(Value::Int(1).get("a"), None);
    assert_eq!(Value::Int(1).as_str(), None);
    assert!(Value::Sequence(vec![]).as_mapping().is_none());
    assert!(Value::Mapping(vec![]).as_sequence().is_none());
}

#[test]
fn lint_length_message_counts_characters() {
    let mut config = LintConfig::default();
    config.max_line_length = 4;
    let diags = scan("abcdefgh\nh\u{e9}llo\nok\n", &config);
    let found: Vec<(usize, Severity, String)> =
        diags.iter().map(|d| (d.line, d.severity, d.message.clone())).collect();
    assert_eq!(
        found,
        vec![
            (1, Severity::Warning, "line exceeds 4 characters (8)".to_string()),
            (2, Severity::Warning, "line exceeds 4 characters (5)".to_string()),
        ]
    );
}

#[test]
fn lint_runs_on_unparseable_input() {
    let diags = scan("\tnot yaml at all\n", &LintConfig::default());
    assert_eq!(diags.len(), 1);
    assert_eq!(diags[0].severity, Severity::Error);
    assert_eq!(diags[0].message, "tab character found; YAML indentation must use spaces");
    assert!(parse("\tnot yaml at all\n").is_err());
}

#[test]
fn lint_checks_in_order_per_line() {
    let diags = scan("a:\tb \t\n", &LintConfig::default());
    let found: Vec<String> = diags.iter().map(|d| d.message.clone()).collect();
    assert_eq!(
        found,
        vec![
            "tab character found; YAML indentation must use spaces".to_string(),
            "trailing whitespace".to_string(),
        ]
    );
}

#[test]
fn default_lint_config() {
    let c = LintConfig::default();
    assert!(c.check_tabs && c.check_trailing_whitespace && c.check_line_length);
    assert_eq!(c.max_line_length, 120);
    assert_eq!(c.min_severity, Severity::Warning);
    let line = "x".repeat(121);
    assert_eq!(scan(&line, &c).len(), 1);
    assert_eq!(scan(&line[..120], &c).len(), 0);
}

#[test]
fn load_sorts_diagnostics_by_line_keeping_order_on_ties() {
    let doc = load("a: 1 \na: 2\n").unwrap();
    let lines: Vec<(usize, String)> =
        doc.diagnostics.iter().map(|d| (d.line, d.message.clone())).collect();
    assert_eq!(
        lines,
        vec![(1, "trailing whitespace".to_string()), (2, "duplicate key 'a'".to_string())]
    );
    let doc = load("a: 1\na: 2 \n").unwrap();
    let lines: Vec<(usize, String)> =
        doc.diagnostics.iter().map(|d| (d.line, d.message.clone())).collect();
    assert_eq!(
        lines,
        vec![(2, "duplicate key 'a'".to_string()), (2, "trailing whitespace".to_string())]
    );
}

#[test]
fn load_errors_like_parse() {
    let e = load("a: 1\n  b: 2\n").unwrap_err();
    assert_eq!(e.line, 2);
    let mut config = LintConfig::default();
    config.check_tabs = false;
    assert!(load_with_lint_config("x\n", &config).is_err());
}

#[test]
fn tab_indentation_parses_and_is_flagged() {
    let doc = load("a:\n\tb: 1\n").unwrap();
    assert_eq!(
        doc.value.get("a"),
        Some(&Value::Mapping(vec![("b".to_string(), Value::Int(1))]))
    );
    assert_eq!(doc.diagnostics.len(), 1);
    assert_eq!(doc.diagnostics[0].line, 2);
    assert_eq!(doc.diagnostics[0].severity, Severity::Error);
}

#[test]
fn human_report_exact() {
    let doc = parse("a: 1\na: 2\n").unwrap();
    assert_eq!(render(&doc, OutputFormat::Human), "line 2: warning: duplicate key 'a'\n");
    let doc = load("a:\n\tb: 1\n").unwrap();
    assert_eq!(
        render(&doc, OutputFormat::Human),
        "line 2: error: tab character found; YAML indentation must use spaces\n"
    );
}

#[test]
fn json_report_exact() {
    let doc = parse("a: 1\na: 2\n").unwrap();
    assert_eq!(
        render(&doc, OutputFormat::Json),
        "{\"diagnostics\":[{\"line\":2,\"severity\":\"warning\",\"message\":\"duplicate key 'a'\"}],\"value\":{\"a\":1,\"a\":2}}"
    );
    let doc = parse("").unwrap();
    assert_eq!(render(&doc, OutputFormat::Json), "{\"diagnostics\":[],\"value\":null}");
}

#[test]
fn json_string_escapes() {
    assert_eq!(
        json_string("a\"b\\c\nd\te\rf\u{1}g\u{1f}"),
        "\"a\\\"b\\\\c\\nd\\te\\rf\\u0001g\\u001f\""
    );
    assert_eq!(json_string(""), "\"\"");
    assert_eq!(json_string("h\u{e9}"), "\"h\u{e9}\"");
}

#[test]
fn json_values() {
    let v = Value::Sequence(vec![
        Value::Null,
        Value::Bool(false),
        Value::Int(-3),
        Value::Float("2.50".to_string()),
        Value::String("x".to_string()),
        Value::Mapping(vec![]),
        Value::Sequence(vec![]),
    ]);
    assert_eq!(json_value(&v), "[null,false,-3,2.50,\"x\",{},[]]");
    let floats = Value::Sequence(
        [".5", "+1.5", "5.", "nan", "-inf", "007.5", "-.5e3", "1E+05", "0.0"]
            .iter()
            .map(|t| Value::Float(t.to_string()))
            .collect(),
    );
    assert_eq!(json_value(&floats), "[0.5,1.5,5,null,null,7.5,-0.5e3,1E+05,0.0]");
    let m = Value::Mapping(vec![
        ("k\"".to_string(), Value::Bool(true)),
        ("n".to_string(), Value::Int(i64::MIN)),
    ]);
    assert_eq!(json_value(&m), "{\"k\\\"\":true,\"n\":-9223372036854775808}");
}

#[test]
fn severity_names_and_order() {
    assert_eq!(Severity::Warning.as_string(), "warning");
    assert_eq!(Severity::Error.as_string(), "error");
    assert!(Severity::Error.at_least(&Severity::Warning));
    assert!(!Severity::Warning.at_least(&Severity::Error));
    assert!(Severity::Warning < Severity::Error);
}

#[test]
fn schema_collects_every_violation_in_order() {
    let doc = parse("a:\n  - b: x\n  - b: 2\nc: true\n").unwrap();
    let schema = Schema::Mapping(vec![
        Field::required("a", Schema::Sequence(Box::new(Schema::Mapping(vec![Field::required(
            "b",
            Schema::Int,
        )])))),
        Field::required("c", Schema::OneOf(vec![Schema::Int, Schema::String])),
        Field::required("d", Schema::Any),
        Field::optional("e", Schema::Null),
    ]);
    let errors = validate(&doc.value, &schema);
    assert_eq!(
        errors,
        vec![
            ValidationError {
                path: "$.a[0].b".to_string(),
                message: "expected int, found string".to_string(),
            },
            ValidationError {
                path: "$.c".to_string(),
                message: "bool does not match any allowed schema".to_string(),
            },
            ValidationError {
                path: "$".to_string(),
                message: "missing required field 'd'".to_string(),
            },
        ]
    );
    assert!(errors.iter().all(|e| e.path.starts_with('$')));
}

#[test]
fn schema_any_and_float() {
    let doc = parse("a: [1, 2.5, x]\n").unwrap();
    assert!(validate(&doc.value, &Schema::Any).is_empty());
    let a = doc.value.get("a").unwrap();
    let floats = Schema::Sequence(Box::new(Schema::Float));
    assert_eq!(
        validate(a, &floats),
        vec![ValidationError {
            path: "$[2]".to_string(),
            message: "expected float, found string".to_string(),
        }]
    );
    assert_eq!(
        validate(&Value::Null, &Schema::OneOf(vec![])),
        vec![ValidationError {
            path: "$".to_string(),
            message: "null does not match any allowed schema".to_string(),
        }]
    );
}

fn read_json_string(t: &str) -> (String, String) {
    let chars: Vec<char> = t.chars().collect();
    assert_eq!(chars[0], '"');
    let mut out = String::new();
    let mut i = 1;
    loop {
        let c = chars[i];
        if c == '"' {
            return (out, chars[i + 1..].iter().collect());
        }
        if c == '\\' {
            let e = chars[i + 1];
            if e == 'u' {
                let hex: String = chars[i + 2..i + 6].iter().collect();
                out.push(char::from_u32(u32::from_str_radix(&hex, 16).unwrap()).unwrap());
                i += 6;
            } else {
                out.push(match e {
                    'n' => '\n',
                    't' => '\t',
                    'r' => '\r',
                    other => other,
                });
                i += 2;
            }
        } else {
            out.push(c);
            i += 1;
        }
    }
}

#[test]
fn json_string_reads_back() {
    for s in ["", "plain", "q\"uote", "back\\slash", "\u{0}\u{7}\n\r\t\u{1f} ", "\u{e9}\u{1f600}"] {
        let lit = json_string(s) + ",rest";
        assert_eq!(read_json_string(&lit), (s.to_string(), ",rest".to_string()));
    }
}

#[test]
fn load_diagnostics_name_input_lines() {
    let input = "a: 1 \na: 2\t\nb: [{c: 1, c: 2}]\n";
    let doc = load(input).unwrap();
    assert_eq!(doc.diagnostics.len(), 5);
    let count = input.lines().count();
    assert!(doc.diagnostics.iter().all(|d| 1 <= d.line && d.line <= count));
    let e = parse("a: 1\n\n\n   b\n").unwrap_err();
    assert_eq!(e.line, 4);
}

#[test]
fn min_severity_error_drops_parser_warnings_too() {
    let mut config = LintConfig::default();
    config.min_severity = Severity::Error;
    let doc = load_with_lint_config("a: 1\na: 2\t\n", &config).unwrap();
    assert_eq!(doc.diagnostics.len(), 1);
    assert!(doc.diagnostics.iter().all(|d| d.severity == Severity::Error));
    let doc = load("a: 1\na: 2\n").unwrap();
    assert_eq!(doc.diagnostics.len(), 1);
    assert_eq!(doc.diagnostics[0].message, "duplicate key 'a'");
}

#[test]
fn unsupported_syntax_is_refused_on_its_line() {
    let msg = "anchors, aliases, tags and block scalars are not supported".to_string();
    assert_eq!(parse_error("a: &x 1\nb: *x\n"), (1, msg.clone()));
    assert_eq!(parse_error("a: 1\nb: *x\n"), (2, msg.clone()));
    assert_eq!(parse_error("a: !tag x\n"), (1, msg.clone()));
    assert_eq!(parse_error("a: |\n  text\n"), (1, msg.clone()));
    assert_eq!(parse_error("- >\n  folded\n"), (1, msg.clone()));
    assert_eq!(parse_error("a: [1, *x]\n"), (1, msg.clone()));
    assert_eq!(parse_error("a: {&k b: 1}\n"), (1, msg.clone()));
    assert_eq!(parse_error("&k a: 1\n"), (1, msg));
    assert!(parse("a: x & y\nb: 'quoted *'\n").is_ok());
}

#[test]
fn apostrophe_inside_a_word_opens_no_quote() {
    let doc = parse("a: it's # note\nit's: ok\nb: 'x # y'\nc: 'it''s # here'\n").unwrap();
    assert_eq!(doc.value.get("a").and_then(Value::as_str), Some("it's"));
    assert_eq!(doc.value.get("it's").and_then(Value::as_str), Some("ok"));
    assert_eq!(doc.value.get("b").and_then(Value::as_str), Some("x # y"));
    assert_eq!(doc.value.get("c").and_then(Value::as_str), Some("it's # here"));
}

#[test]
fn values_and_schemas_clone() {
    let doc = parse("a: [1, {b: x}]\n").unwrap();
    assert_eq!(doc.value.clone(), doc.value);
    let schema = Schema::Mapping(vec![Field::required("a", Schema::OneOf(vec![Schema::Int]))]);
    let copy = schema.clone();
    assert_eq!(validate(&doc.value, &copy), validate(&doc.value, &schema));
    let field = Field::optional("k", Schema::Any).clone();
    assert_eq!(field.key, "k");
    assert!(!field.required);
}

#[test]
fn split_colon_takes_the_first_separator() {
    let s: Vec<char> = "http://x: 1: 2".chars().collect();
    let ((a, b), (c, d)) = split_colon(&s, 0, s.len()).unwrap();
    assert_eq!(s[a..b].iter().collect::<String>(), "http://x");
    assert_eq!(s[c..d].iter().collect::<String>(), "1: 2");
    let q: Vec<char> = "'a: b': c".chars().collect();
    let ((a, b), _) = split_colon(&q, 0, q.len()).unwrap();
    assert_eq!(q[a..b].iter().collect::<String>(), "'a: b'");
    let none: Vec<char> = "a:b".chars().collect();
    assert!(split_colon(&none, 0, none.len()).is_none());
}

#[test]
fn mapping_entries_keep_line_order_and_warn_in_place() {
    let doc = parse("a: 1\nb:\n  c: 2\na: {x: 1, x: 2}\n").unwrap();
    let keys: Vec<&str> = doc.value.as_mapping().unwrap().iter().map(|(k, _)| k.as_str()).collect();
    assert_eq!(keys, vec!["a", "b", "a"]);
    let found: Vec<(usize, String)> =
        doc.diagnostics.iter().map(|d| (d.line, d.message.clone())).collect();
    assert_eq!(
        found,
        vec![(4, "duplicate key 'a'".to_string()), (4, "duplicate key 'x'".to_string())]
    );
}
