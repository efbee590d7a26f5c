use rcc::command::formats::{one_line_end, parse, reformat, render, Format};
use rcc::json::Json;

fn one_member() -> Json {
    Json::Object(vec![("a".to_string(), Json::Integer(1))])
}

#[test]
fn parses_json_text() {
    let v = parse(r#"{"a": 1}"#, Format::Json).unwrap();
    assert_eq!(v, one_member());
}

#[test]
fn parses_yaml_text() {
    let v = parse("a: 1\n", Format::Yaml).unwrap();
    assert_eq!(v, one_member());
}

#[test]
fn renders_json_and_yaml() {
    let v = one_member();
    assert_eq!(render(&v, Format::Json).unwrap(), "{\n  \"a\": 1\n}");
    assert_eq!(render(&v, Format::Yaml).unwrap(), "a: 1\n");
}

#[test]
fn rewrites_text_without_loss() {
    let text = r#"{"b": [0.1, 1e300, -7, 18446744073709551615], "a": null}"#;
    let yaml = reformat(text, Format::Json, Format::Yaml).unwrap();
    let back = reformat(&yaml, Format::Yaml, Format::Json).unwrap();
    assert_eq!(back, reformat(text, Format::Json, Format::Json).unwrap());
    assert!(reformat("{", Format::Json, Format::Yaml).unwrap_err().starts_with("JSON parse error: "));
    assert!(reformat("[}", Format::Yaml, Format::Json).unwrap_err().starts_with("YAML parse error: "));
}

#[test]
fn renders_every_kind_of_value() {
    let v = Json::Object(vec![
        ("n".to_string(), Json::Null),
        ("t".to_string(), Json::Bool(true)),
        ("i".to_string(), Json::Integer(-3)),
        ("s".to_string(), Json::String("x".to_string())),
        ("l".to_string(), Json::Array(vec![Json::Integer(u64::MAX as i128)])),
    ]);
    let text = render(&v, Format::Json).unwrap();
    assert_eq!(parse(&text, Format::Json).unwrap(), v);
    let text = render(&v, Format::Yaml).unwrap();
    assert_eq!(parse(&text, Format::Yaml).unwrap(), v);
}

#[test]
fn output_ends_with_one_line_feed() {
    assert_eq!(one_line_end("a\n\n"), "a\n");
    assert_eq!(one_line_end("a"), "a\n");
    assert_eq!(one_line_end("\n"), "\n");
}

#[test]
fn renders_numbers_and_names_as_a_value_holds_them() {
    let v = Json::Array(vec![
        Json::Float("1.50".to_string()),
        Json::Float("no number".to_string()),
        Json::Integer(i128::MAX),
        Json::Object(vec![
            ("a".to_string(), Json::Integer(1)),
            ("b".to_string(), Json::Integer(2)),
            ("a".to_string(), Json::Integer(3)),
        ]),
    ]);
    let text = render(&v, Format::Json).unwrap();
    assert_eq!(
        text,
        "[\n  1.5,\n  null,\n  null,\n  {\n    \"a\": 3,\n    \"b\": 2\n  }\n]"
    );
}
