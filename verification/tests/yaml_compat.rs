use aktenfux::yaml_compat::{
    collect_yaml_strings, parse_yaml_frontmatter, yaml_as_str, yaml_contains_str,
    yaml_contains_str_case_insensitive, yaml_to_json_value, yaml_to_string, yaml_to_string_map,
    Json, ParseError, Value,
};

fn text(s: &str) -> Value {
    Value::String(s.to_string())
}

#[test]
fn test_parse_yaml_frontmatter() {
    let content = r#"
title: Test Note
tags: [work, important]
status: active
"#;
    let result = parse_yaml_frontmatter(content).unwrap();
    assert_eq!(result.len(), 3);
    assert!(matches!(result.get("title"), Some(Value::String(_))));
    assert!(matches!(result.get("tags"), Some(Value::Array(_))));
    assert!(matches!(result.get("status"), Some(Value::String(_))));
}

#[test]
fn test_yaml_contains_str() {
    let yaml_string = Value::String("test value".to_string());
    assert!(yaml_contains_str(&yaml_string, "test"));
    assert!(!yaml_contains_str(&yaml_string, "missing"));

    let yaml_array = Value::Array(vec![
        Value::String("first".to_string()),
        Value::String("second".to_string()),
    ]);
    assert!(yaml_contains_str(&yaml_array, "first"));
    assert!(!yaml_contains_str(&yaml_array, "missing"));
}

#[test]
fn test_yaml_contains_str_case_insensitive() {
    let yaml_string = Value::String("Test Value".to_string());
    assert!(yaml_contains_str_case_insensitive(&yaml_string, "test"));
    assert!(yaml_contains_str_case_insensitive(&yaml_string, "VALUE"));
    assert!(yaml_contains_str_case_insensitive(&yaml_string, "Test"));
    assert!(!yaml_contains_str_case_insensitive(&yaml_string, "missing"));

    let yaml_array = Value::Array(vec![
        Value::String("First".to_string()),
        Value::String("SECOND".to_string()),
    ]);
    assert!(yaml_contains_str_case_insensitive(&yaml_array, "first"));
    assert!(yaml_contains_str_case_insensitive(&yaml_array, "second"));
    assert!(yaml_contains_str_case_insensitive(&yaml_array, "FIRST"));
    assert!(!yaml_contains_str_case_insensitive(&yaml_array, "missing"));

    let yaml_int = Value::Integer(42);
    assert!(yaml_contains_str_case_insensitive(&yaml_int, "4"));

    let yaml_bool = Value::Boolean(true);
    assert!(yaml_contains_str_case_insensitive(&yaml_bool, "TRUE"));
    assert!(yaml_contains_str_case_insensitive(&yaml_bool, "true"));
}

#[test]
fn yaml_compat_test_empty_frontmatter() {
    let content = "";
    let result = parse_yaml_frontmatter(content).unwrap();
    assert!(result.is_empty());
}

#[test]
fn parse_keeps_the_order_and_the_kinds_of_values() {
    let result = parse_yaml_frontmatter("b: 1\na: 2.5\nc: true\nd: ~\ne: text\n").unwrap();
    assert_eq!(result.len(), 5);
    assert_eq!(result.key_at(0), "b");
    assert_eq!(result.key_at(4), "e");
    assert!(matches!(result.get("b"), Some(Value::Integer(1))));
    assert!(matches!(result.get("a"), Some(Value::Real(s)) if s == "2.5"));
    assert!(matches!(result.get("c"), Some(Value::Boolean(true))));
    assert!(matches!(result.get("d"), Some(Value::Null)));
    assert!(matches!(result.get("e"), Some(Value::String(s)) if s == "text"));
}

#[test]
fn parse_reads_nested_values() {
    let result = parse_yaml_frontmatter("outer:\n  inner: [1, two]\n").unwrap();
    match result.get("outer") {
        Some(Value::Hash(entries)) => {
            assert_eq!(entries.len(), 1);
            assert!(matches!(&entries[0].0, Value::String(k) if k == "inner"));
            match &entries[0].1 {
                Value::Array(items) => {
                    assert_eq!(items.len(), 2);
                    assert!(matches!(&items[0], Value::Integer(1)));
                    assert!(matches!(&items[1], Value::String(s) if s == "two"));
                }
                other => panic!("expected a sequence, got {:?}", other),
            }
        }
        other => panic!("expected a mapping, got {:?}", other),
    }
}

#[test]
fn parse_reports_a_syntax_error() {
    let error = parse_yaml_frontmatter("source: Title: Subtitle").unwrap_err();
    assert!(matches!(error, ParseError::Syntax(_)));
    assert!(error.message().starts_with("YAML parsing error: "));
    assert!(error.message().len() > "YAML parsing error: ".len());
}

#[test]
fn parse_rejects_a_root_that_is_no_mapping() {
    let error = parse_yaml_frontmatter("- a\n- b\n").unwrap_err();
    assert!(matches!(error, ParseError::Root(_)));
    assert_eq!(
        error.message(),
        "Expected hash or null at document root, got Array([String(\"a\"), String(\"b\")])"
    );
}

#[test]
fn root_mapping_drops_keys_that_are_no_text() {
    let root = Value::Hash(vec![
        (text("a"), Value::Integer(1)),
        (Value::Integer(7), text("dropped")),
        (text("b"), Value::Null),
    ]);
    let map = yaml_to_string_map(&root).unwrap();
    assert_eq!(map.len(), 2);
    assert_eq!(map.key_at(0), "a");
    assert_eq!(map.key_at(1), "b");
    assert!(matches!(map.get("a"), Some(Value::Integer(1))));
}

#[test]
fn root_mapping_takes_the_later_of_two_values_under_one_key() {
    let root = Value::Hash(vec![
        (text("a"), Value::Integer(1)),
        (text("b"), Value::Integer(2)),
        (text("a"), Value::Integer(3)),
    ]);
    let map = yaml_to_string_map(&root).unwrap();
    assert_eq!(map.len(), 2);
    assert_eq!(map.key_at(0), "a");
    assert!(matches!(map.get("a"), Some(Value::Integer(3))));
}

#[test]
fn root_null_gives_empty_metadata() {
    assert!(yaml_to_string_map(&Value::Null).unwrap().is_empty());
}

#[test]
fn root_scalar_is_an_error() {
    let error = yaml_to_string_map(&Value::Integer(3)).unwrap_err();
    assert!(matches!(error, ParseError::Root(_)));
    assert_eq!(error.message(), "Expected hash or null at document root, got Integer(3)");
}

#[test]
fn as_str_gives_only_texts() {
    assert_eq!(yaml_as_str(&text("x")), Some("x"));
    assert_eq!(yaml_as_str(&Value::Integer(1)), None);
    assert_eq!(yaml_as_str(&Value::Real("1.5".to_string())), None);
    assert_eq!(yaml_as_str(&Value::Null), None);
}

#[test]
fn contains_looks_at_the_rendering_of_scalars() {
    assert!(yaml_contains_str(&Value::Integer(-1205), "-12"));
    assert!(yaml_contains_str(&Value::Integer(-1205), "05"));
    assert!(!yaml_contains_str(&Value::Integer(-1205), "6"));
    assert!(yaml_contains_str(&Value::Real("3.14".to_string()), ".1"));
    assert!(yaml_contains_str(&Value::Boolean(false), "als"));
    assert!(!yaml_contains_str(&Value::Boolean(false), "true"));
    assert!(yaml_contains_str(&text("abc"), ""));
}

#[test]
fn mappings_and_null_hold_no_text() {
    let mapping = Value::Hash(vec![(text("k"), text("v"))]);
    assert!(!yaml_contains_str(&mapping, "v"));
    assert!(!yaml_contains_str(&mapping, ""));
    assert!(!yaml_contains_str(&Value::Null, ""));
    assert!(!yaml_contains_str_case_insensitive(&mapping, "v"));
    assert!(!yaml_contains_str_case_insensitive(&Value::Null, "null"));
    assert!(!yaml_contains_str(&Value::BadValue, ""));
    assert!(!yaml_contains_str(&Value::Alias(1), "1"));
}

#[test]
fn a_sequence_matches_through_any_element_at_any_depth() {
    let nested = Value::Array(vec![
        Value::Integer(1),
        Value::Array(vec![text("deep")]),
        Value::Hash(vec![(text("k"), text("hidden"))]),
    ]);
    assert!(yaml_contains_str(&nested, "eep"));
    assert!(yaml_contains_str(&nested, "1"));
    assert!(!yaml_contains_str(&nested, "hidden"));
    assert!(yaml_contains_str_case_insensitive(&nested, "DEEP"));
    assert!(!yaml_contains_str(&Value::Array(vec![]), ""));
}

#[test]
fn case_insensitive_search_folds_beyond_ascii() {
    assert!(yaml_contains_str_case_insensitive(&text("STRASSE ÄPFEL"), "äpfel"));
    assert!(!yaml_contains_str(&text("STRASSE ÄPFEL"), "äpfel"));
}

#[test]
fn rendering_of_values() {
    assert_eq!(yaml_to_string(&text("plain")), "plain");
    assert_eq!(yaml_to_string(&Value::Integer(0)), "0");
    assert_eq!(yaml_to_string(&Value::Integer(42)), "42");
    assert_eq!(yaml_to_string(&Value::Integer(-7)), "-7");
    assert_eq!(yaml_to_string(&Value::Integer(i64::MAX)), "9223372036854775807");
    assert_eq!(yaml_to_string(&Value::Integer(i64::MIN)), "-9223372036854775808");
    assert_eq!(yaml_to_string(&Value::Real("1.50".to_string())), "1.50");
    assert_eq!(yaml_to_string(&Value::Boolean(true)), "true");
    assert_eq!(yaml_to_string(&Value::Boolean(false)), "false");
    assert_eq!(yaml_to_string(&Value::Null), "null");
}

#[test]
fn rendering_of_trees_is_the_debug_form() {
    let array = Value::Array(vec![text("a"), Value::Integer(1)]);
    assert_eq!(yaml_to_string(&array), "Array([String(\"a\"), Integer(1)])");
    let mapping = Value::Hash(vec![(text("k"), Value::Boolean(true))]);
    assert_eq!(yaml_to_string(&mapping), "Hash({String(\"k\"): Boolean(true)})");
    assert_eq!(yaml_to_string(&Value::BadValue), "BadValue");
    assert_eq!(yaml_to_string(&Value::Alias(3)), "Alias(3)");
}

#[test]
fn collected_strings_by_kind() {
    assert_eq!(collect_yaml_strings(&text("one")), vec!["one".to_string()]);
    assert_eq!(collect_yaml_strings(&Value::Integer(12)), vec!["12".to_string()]);
    assert_eq!(collect_yaml_strings(&Value::Real("0.5".to_string())), vec!["0.5".to_string()]);
    assert_eq!(collect_yaml_strings(&Value::Boolean(true)), vec!["true".to_string()]);
    assert!(collect_yaml_strings(&Value::Null).is_empty());
    assert!(collect_yaml_strings(&Value::Hash(vec![(text("k"), text("v"))])).is_empty());
    let mixed = Value::Array(vec![text("a"), Value::Integer(1), text("b"), Value::Null, text("a")]);
    assert_eq!(
        collect_yaml_strings(&mixed),
        vec!["a".to_string(), "b".to_string(), "a".to_string()]
    );
}

#[test]
fn json_of_scalars_and_trees() {
    assert!(matches!(yaml_to_json_value(&text("s")), Json::String(s) if s == "s"));
    assert!(matches!(yaml_to_json_value(&Value::Integer(-3)), Json::Integer(-3)));
    assert!(matches!(yaml_to_json_value(&Value::Real("2.5".to_string())), Json::Real(s) if s == "2.5"));
    assert!(matches!(yaml_to_json_value(&Value::Boolean(true)), Json::Bool(true)));
    assert!(matches!(yaml_to_json_value(&Value::Null), Json::Null));
    assert!(matches!(yaml_to_json_value(&Value::BadValue), Json::Null));
    assert!(matches!(yaml_to_json_value(&Value::Alias(2)), Json::Null));

    let tree = Value::Hash(vec![
        (text("list"), Value::Array(vec![Value::Integer(1), text("x")])),
        (Value::Integer(5), text("dropped")),
        (text("inner"), Value::Hash(vec![(text("k"), Value::Null)])),
    ]);
    match yaml_to_json_value(&tree) {
        Json::Object(members) => {
            assert_eq!(members.len(), 2);
            assert_eq!(members[0].0, "list");
            match &members[0].1 {
                Json::Array(items) => {
                    assert_eq!(items.len(), 2);
                    assert!(matches!(&items[0], Json::Integer(1)));
                    assert!(matches!(&items[1], Json::String(s) if s == "x"));
                }
                other => panic!("expected an array, got {:?}", other),
            }
            assert_eq!(members[1].0, "inner");
            match &members[1].1 {
                Json::Object(inner) => {
                    assert_eq!(inner.len(), 1);
                    assert_eq!(inner[0].0, "k");
                    assert!(matches!(&inner[0].1, Json::Null));
                }
                other => panic!("expected an object, got {:?}", other),
            }
        }
        other => panic!("expected an object, got {:?}", other),
    }
}

#[test]
fn a_copy_holds_what_the_value_holds() {
    let tree = Value::Hash(vec![(text("k"), Value::Array(vec![Value::Integer(1), text("x")]))]);
    let copy = tree.clone();
    assert_eq!(yaml_to_string(&copy), yaml_to_string(&tree));
    assert_eq!(yaml_to_string(&copy), "Hash({String(\"k\"): Array([Integer(1), String(\"x\")])})");
}
