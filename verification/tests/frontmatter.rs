use aktenfux::frontmatter::{
    degraded_outcome, extract_frontmatter, extract_frontmatter_with_options, fix_yaml_issues,
    parse_frontmatter_from_text, try_lenient_parse, Note,
};
use aktenfux::string_map::StringMap;
use aktenfux::yaml_compat::{yaml_as_str, ParseError, Value};

#[test]
fn test_extract_frontmatter() {
    let content = r#"---
title: Test Note
tags: [work, important]
status: active
---

# Test Note

This is the content of the note."#;

    let (result, warning) = extract_frontmatter(content, "test.md", false);
    let result = result.unwrap();
    assert_eq!(yaml_as_str(result.get("title").unwrap()).unwrap(), "Test Note");
    assert_eq!(yaml_as_str(result.get("status").unwrap()).unwrap(), "active");
    assert!(warning.is_none());
}

#[test]
fn test_no_frontmatter() {
    let content = "# Just a regular markdown file\n\nWith some content.";
    let (result, warning) = extract_frontmatter(content, "test.md", false);
    assert!(result.is_none());
    assert!(warning.is_none());
}

#[test]
fn frontmatter_test_empty_frontmatter() {
    let content = "---\n---\n\n# Note with empty frontmatter";
    let (result, warning) = extract_frontmatter(content, "test.md", false);
    let result = result.unwrap();
    assert!(result.is_empty());
    assert!(warning.is_none());
}

#[test]
fn test_frontmatter_with_colons_in_values() {
    let content = r#"---
title: Test Note
source: Eberron: Rising from the Last War p. 277
book: Player's Handbook: Chapter 3
url: https://example.com/path
---

# Test Note

This note has colons in frontmatter values."#;

    let (result, warning) = extract_frontmatter(content, "test.md", false);
    let result = result.unwrap();

    assert_eq!(yaml_as_str(result.get("title").unwrap()).unwrap(), "Test Note");
    assert_eq!(
        yaml_as_str(result.get("source").unwrap()).unwrap(),
        "Eberron: Rising from the Last War p. 277"
    );
    assert_eq!(
        yaml_as_str(result.get("book").unwrap()).unwrap(),
        "Player's Handbook: Chapter 3"
    );
    assert_eq!(yaml_as_str(result.get("url").unwrap()).unwrap(), "https://example.com/path");

    assert!(warning.is_some());
    assert!(warning.unwrap().contains("Used lenient parsing"));
}

#[test]
fn test_fix_yaml_issues() {
    let problematic_yaml = r#"title: Test Note
source: Eberron: Rising from the Last War p. 277
book: Player's Handbook: Chapter 3
url: https://example.com/path
tags: [work, important]
quoted: "Already: quoted"
number: 42"#;

    let fixed = fix_yaml_issues(problematic_yaml);

    assert!(fixed.contains("source: \"Eberron: Rising from the Last War p. 277\""));
    assert!(fixed.contains("book: \"Player's Handbook: Chapter 3\""));
    assert!(fixed.contains("url: \"https://example.com/path\""));
    assert!(fixed.contains("title: Test Note"));
    assert!(fixed.contains("tags: [work, important]"));
    assert!(fixed.contains("quoted: \"Already: quoted\""));
    assert!(fixed.contains("number: 42"));
}

#[test]
fn test_strict_vs_lenient_parsing() {
    let content = r#"---
title: Test Note
source: Eberron: Rising from the Last War p. 277
---

# Test Note"#;

    let (result_strict, warning_strict) =
        extract_frontmatter_with_options(content, "test.md", false, false);
    let result_strict = result_strict.unwrap();
    assert!(result_strict.is_empty());
    assert!(warning_strict.is_some());
    assert!(warning_strict.unwrap().contains("Failed to parse frontmatter"));

    let (result_lenient, warning_lenient) =
        extract_frontmatter_with_options(content, "test.md", false, true);
    let result_lenient = result_lenient.unwrap();
    assert!(!result_lenient.is_empty());
    assert_eq!(yaml_as_str(result_lenient.get("title").unwrap()).unwrap(), "Test Note");
    assert_eq!(
        yaml_as_str(result_lenient.get("source").unwrap()).unwrap(),
        "Eberron: Rising from the Last War p. 277"
    );
    assert!(warning_lenient.is_some());
    assert!(warning_lenient.unwrap().contains("Used lenient parsing"));
}

#[test]
fn test_case_insensitive_filtering() {
    let mut fm = StringMap::new();
    fm.insert("Tag".to_string(), Value::String("Work".to_string()));
    fm.insert("Status".to_string(), Value::String("Active".to_string()));
    fm.insert(
        "Priority".to_string(),
        Value::Array(vec![
            Value::String("High".to_string()),
            Value::String("Urgent".to_string()),
        ]),
    );

    let note = Note::new("test.md".to_string(), fm);

    assert!(!note.matches_filter("tag", "Work"));
    assert!(!note.matches_filter("Tag", "work"));

    assert!(note.matches_filter_with_case_sensitivity("tag", "work", false));
    assert!(note.matches_filter_with_case_sensitivity("TAG", "WORK", false));
    assert!(note.matches_filter_with_case_sensitivity("Status", "active", false));
    assert!(note.matches_filter_with_case_sensitivity("priority", "high", false));

    assert!(note.matches_filter_with_case_sensitivity("Tag", "Work", true));
    assert!(!note.matches_filter_with_case_sensitivity("tag", "Work", true));
}

#[test]
fn test_case_insensitive_field_lookup() {
    let mut fm = StringMap::new();
    fm.insert("Title".to_string(), Value::String("Test Note".to_string()));
    fm.insert("TAG".to_string(), Value::String("work".to_string()));
    fm.insert("status".to_string(), Value::String("active".to_string()));

    let note = Note::new("test.md".to_string(), fm);

    assert!(note.get_frontmatter_value("Title").is_some());
    assert!(note.get_frontmatter_value("TAG").is_some());
    assert!(note.get_frontmatter_value("status").is_some());

    assert!(note.get_frontmatter_value_case_insensitive("title").is_some());
    assert!(note.get_frontmatter_value_case_insensitive("TITLE").is_some());
    assert!(note.get_frontmatter_value_case_insensitive("tag").is_some());
    assert!(note.get_frontmatter_value_case_insensitive("Tag").is_some());
    assert!(note.get_frontmatter_value_case_insensitive("STATUS").is_some());
    assert!(note.get_frontmatter_value_case_insensitive("Status").is_some());

    assert!(note.get_frontmatter_value_case_insensitive("nonexistent").is_none());

    if let Some(Value::String(title)) = note.get_frontmatter_value_case_insensitive("title") {
        assert_eq!(title, "Test Note");
    } else {
        panic!("Expected string value for title");
    }
}

#[test]
fn scenario_block_with_title_tags_and_status() {
    let content = "---\ntitle: Test Note\ntags: [work, important]\nstatus: active\n---\nbody\n";
    let parsed = parse_frontmatter_from_text("notes/first.md", content, false, false);
    assert!(parsed.frontmatter_warning.is_none());
    let note = parsed.note.unwrap();
    assert_eq!(note.path, "notes/first.md");
    assert_eq!(note.title, Some("Test Note".to_string()));
    assert_eq!(note.frontmatter.len(), 3);
    assert_eq!(yaml_as_str(note.get_frontmatter_value("title").unwrap()), Some("Test Note"));
    assert_eq!(yaml_as_str(note.get_frontmatter_value("status").unwrap()), Some("active"));
    match note.get_frontmatter_value("tags") {
        Some(Value::Array(items)) => {
            assert_eq!(items.len(), 2);
            assert_eq!(yaml_as_str(&items[0]), Some("work"));
            assert_eq!(yaml_as_str(&items[1]), Some("important"));
        }
        other => panic!("expected a sequence, got {:?}", other),
    }
}

#[test]
fn scenario_value_with_a_separator() {
    let content = "---\nsource: Eberron: Rising from the Last War p. 277\n---\n";
    let (strict, strict_warning) = extract_frontmatter_with_options(content, "n.md", false, false);
    assert!(strict.unwrap().is_empty());
    let strict_warning = strict_warning.unwrap();
    assert!(strict_warning.contains("Failed to parse"));
    assert!(strict_warning.starts_with("Failed to parse frontmatter in file n.md: YAML parsing error: "));

    let (lenient, lenient_warning) = extract_frontmatter_with_options(content, "n.md", false, true);
    let lenient = lenient.unwrap();
    assert_eq!(
        yaml_as_str(lenient.get("source").unwrap()),
        Some("Eberron: Rising from the Last War p. 277")
    );
    let lenient_warning = lenient_warning.unwrap();
    assert!(lenient_warning.contains("Used lenient parsing"));
    assert!(lenient_warning
        .starts_with("Used lenient parsing for frontmatter in file n.md due to: YAML parsing error: "));
}

#[test]
fn lenient_value_is_the_text_after_the_first_separator_trimmed() {
    let content = "---\nsource:    Title: Subtitle   \n---\n";
    let (lenient, warning) = extract_frontmatter_with_options(content, "n.md", false, true);
    assert_eq!(yaml_as_str(lenient.unwrap().get("source").unwrap()), Some("Title: Subtitle"));
    assert!(warning.unwrap().contains("Used lenient parsing"));
    let (strict, warning) = extract_frontmatter_with_options(content, "n.md", false, false);
    assert!(strict.unwrap().is_empty());
    assert!(warning.unwrap().contains("Failed to parse frontmatter in file n.md: "));
}

#[test]
fn text_without_the_opening_delimiter_has_no_block() {
    for content in ["", "   ", "title: x\n---\n", "--\n---\n", "- --\na: b\n---", "text\n---\na: b\n---\n"] {
        for lenient in [false, true] {
            let (metadata, warning) =
                extract_frontmatter_with_options(content, "n.md", false, lenient);
            assert!(metadata.is_none(), "{:?}", content);
            assert!(warning.is_none(), "{:?}", content);
        }
    }
}

#[test]
fn a_block_needs_three_lines_and_a_closing_delimiter() {
    for content in ["---", "---\n---", "---\ntitle: x", "---\ntitle: x\nmore: y\n", "---\na: b\n----\n"] {
        let (metadata, warning) = extract_frontmatter_with_options(content, "n.md", false, true);
        assert!(metadata.is_none(), "{:?}", content);
        assert!(warning.is_none(), "{:?}", content);
    }
}

#[test]
fn surrounding_whitespace_and_indented_delimiters_are_accepted() {
    let content = "\n\n  ---\r\ntitle: Spaced\r\n   ---  \r\nbody";
    let (metadata, warning) = extract_frontmatter_with_options(content, "n.md", false, false);
    let metadata = metadata.unwrap();
    assert_eq!(yaml_as_str(metadata.get("title").unwrap()), Some("Spaced"));
    assert!(warning.is_none());
}

#[test]
fn a_blank_block_gives_empty_metadata() {
    let (metadata, warning) =
        extract_frontmatter_with_options("---\n   \n\t\n---\nbody", "n.md", false, false);
    assert!(metadata.unwrap().is_empty());
    assert!(warning.is_none());
}

#[test]
fn the_block_ends_at_the_first_closing_delimiter() {
    let content = "---\na: 1\n---\nb: 2\n---\n";
    let (metadata, _) = extract_frontmatter_with_options(content, "n.md", false, false);
    let metadata = metadata.unwrap();
    assert_eq!(metadata.len(), 1);
    assert!(metadata.get("b").is_none());
}

#[test]
fn a_block_that_no_repair_mends() {
    let content = "---\na: [1, 2\nb: x: y\n---\n";
    let (metadata, warning) = extract_frontmatter_with_options(content, "doc.md", false, true);
    assert!(metadata.unwrap().is_empty());
    let warning = warning.unwrap();
    assert!(warning.starts_with(
        "Failed to parse frontmatter in file doc.md even with lenient parsing: YAML parsing error: "
    ));
}

#[test]
fn a_root_that_is_no_mapping_counts_as_no_block() {
    for content in ["---\n- a\n- b\n---\nbody", "---\njust a text\n---\n", "---\n42\n---\n"] {
        for lenient in [false, true] {
            let (metadata, warning) =
                extract_frontmatter_with_options(content, "test.md", false, lenient);
            assert!(metadata.is_none(), "{:?}", content);
            assert!(warning.is_none(), "{:?}", content);
        }
    }
    let parsed = parse_frontmatter_from_text("dir/list.md", "---\n- a\n- b\n---\nbody", false, true);
    assert!(parsed.frontmatter_warning.is_none());
    let note = parsed.note.unwrap();
    assert!(note.frontmatter.is_empty());
    assert_eq!(note.title, Some("list".to_string()));
}

#[test]
fn a_null_root_gives_empty_metadata() {
    let (metadata, warning) = extract_frontmatter_with_options("---\n~\n---\n", "n.md", false, false);
    assert!(metadata.unwrap().is_empty());
    assert!(warning.is_none());
}

#[test]
fn a_repaired_block_whose_root_is_no_mapping_still_warns() {
    let content = "---\n- a: b: c\n---\n";
    let (metadata, warning) = extract_frontmatter_with_options(content, "doc.md", false, true);
    assert!(metadata.unwrap().is_empty());
    assert!(warning
        .unwrap()
        .starts_with("Failed to parse frontmatter in file doc.md even with lenient parsing: YAML parsing error: "));
}

#[test]
fn degraded_outcome_by_case() {
    let (metadata, warning) = degraded_outcome("f.md", "bad", None);
    assert!(metadata.unwrap().is_empty());
    assert_eq!(warning.unwrap(), "Failed to parse frontmatter in file f.md: bad");

    let mut repaired = StringMap::new();
    repaired.insert("k".to_string(), Value::Integer(1));
    let (metadata, warning) = degraded_outcome("f.md", "bad", Some(Ok(repaired)));
    let metadata = metadata.unwrap();
    assert_eq!(metadata.len(), 1);
    assert!(matches!(metadata.get("k"), Some(Value::Integer(1))));
    assert_eq!(warning.unwrap(), "Used lenient parsing for frontmatter in file f.md due to: bad");

    for retried in [ParseError::Syntax("worse".to_string()), ParseError::Root("odd".to_string())] {
        let (metadata, warning) = degraded_outcome("f.md", "bad", Some(Err(retried)));
        assert!(metadata.unwrap().is_empty());
        assert_eq!(
            warning.unwrap(),
            "Failed to parse frontmatter in file f.md even with lenient parsing: bad"
        );
    }
}

#[test]
fn lenient_parse_of_a_block() {
    let map = try_lenient_parse("a: b: c\nd: 1").unwrap();
    assert_eq!(yaml_as_str(map.get("a").unwrap()), Some("b: c"));
    assert!(matches!(map.get("d"), Some(Value::Integer(1))));
    assert!(try_lenient_parse("a: [1, 2").is_err());
}

#[test]
fn repair_line_by_line() {
    assert_eq!(fix_yaml_issues("source: Title: Subtitle"), "source: \"Title: Subtitle\"");
    assert_eq!(fix_yaml_issues("  key:   a: b  "), "  key: \"a: b\"");
    assert_eq!(fix_yaml_issues("key : a:b"), "key : \"a:b\"");
    assert_eq!(fix_yaml_issues(": a: b"), ": \"a: b\"");
    assert_eq!(fix_yaml_issues("\tk: say \"x\": y"), "\tk: \"say \"x\": y\"");
}

#[test]
fn repair_leaves_other_lines_alone() {
    for line in [
        "",
        "   ",
        "# comment: with: colons",
        "  # indented: comment: x",
        "no separator here",
        "key: value",
        "key:",
        "key:    ",
        "key: [a: b, c]",
        "key: {a: b}",
        "key: \"a: b\"",
        "key: 'a: b'",
        "  key: value  ",
        "- item",
    ] {
        assert_eq!(fix_yaml_issues(line), line, "{:?}", line);
    }
}

#[test]
fn repair_splits_and_joins_lines() {
    assert_eq!(fix_yaml_issues(""), "");
    assert_eq!(fix_yaml_issues("a: 1\n"), "a: 1");
    assert_eq!(fix_yaml_issues("a: 1\r\nb: x: y\r\n"), "a: 1\nb: \"x: y\"");
    assert_eq!(fix_yaml_issues("a: 1\n\nb: 2"), "a: 1\n\nb: 2");
    assert_eq!(fix_yaml_issues("\n"), "");
    assert_eq!(fix_yaml_issues("a: b: c\r"), "a: \"b: c\"");
}

#[test]
fn repair_of_a_repaired_block_changes_nothing() {
    for block in [
        "title: Test Note\nsource: Eberron: Rising from the Last War p. 277\nurl: https://example.com/path",
        "  key:   a: b  \n# c: d: e\nplain",
        ": x: y",
        "k: say \"x\": y",
        "",
        "\n",
        "a\r",
        "a: b: c\r",
        "first\nlast\r",
        "k: x: y\r\nlast: 1",
    ] {
        let once = fix_yaml_issues(block);
        assert_eq!(fix_yaml_issues(&once), once, "{:?}", block);
    }
}

#[test]
fn title_comes_from_the_metadata_or_else_from_the_file_name() {
    let mut named = StringMap::new();
    named.insert("title".to_string(), Value::String("Named".to_string()));
    assert_eq!(Note::new("dir/file.md".to_string(), named).title, Some("Named".to_string()));

    let mut number = StringMap::new();
    number.insert("title".to_string(), Value::Integer(7));
    assert_eq!(Note::new("dir/file.md".to_string(), number).title, Some("file".to_string()));

    let mut cased = StringMap::new();
    cased.insert("Title".to_string(), Value::String("Other key".to_string()));
    assert_eq!(Note::new("dir/file.md".to_string(), cased).title, Some("file".to_string()));

    assert_eq!(Note::new("plain".to_string(), StringMap::new()).title, Some("plain".to_string()));
    assert_eq!(Note::new("".to_string(), StringMap::new()).title, None);
}

#[test]
fn title_given_the_stem() {
    let mut named = StringMap::new();
    named.insert("title".to_string(), Value::String("Named".to_string()));
    let note = Note::with_file_stem("a.md".to_string(), named, Some("stem".to_string()));
    assert_eq!(note.title, Some("Named".to_string()));
    assert_eq!(note.path, "a.md");
    let note = Note::with_file_stem("a.md".to_string(), StringMap::new(), Some("stem".to_string()));
    assert_eq!(note.title, Some("stem".to_string()));
    let note = Note::with_file_stem("a.md".to_string(), StringMap::new(), None);
    assert_eq!(note.title, None);
}

#[test]
fn a_document_without_a_block_is_kept_with_empty_metadata() {
    let parsed = parse_frontmatter_from_text("dir/plain.md", "just text", false, true);
    assert!(parsed.frontmatter_warning.is_none());
    let note = parsed.note.unwrap();
    assert!(note.frontmatter.is_empty());
    assert_eq!(note.title, Some("plain".to_string()));
}

#[test]
fn a_document_with_a_broken_block_is_kept_with_a_warning() {
    let parsed = parse_frontmatter_from_text("dir/broken.md", "---\na: b: c\n---\n", false, false);
    assert!(parsed.frontmatter_warning.unwrap().contains("Failed to parse frontmatter in file dir/broken.md"));
    let note = parsed.note.unwrap();
    assert!(note.frontmatter.is_empty());
    assert_eq!(note.path, "dir/broken.md");
}

#[test]
fn exact_lookup_comes_before_the_lookup_by_lowercase() {
    let mut fm = StringMap::new();
    fm.insert("TAG".to_string(), Value::Integer(1));
    fm.insert("tag".to_string(), Value::Integer(2));
    let note = Note::new("n.md".to_string(), fm);
    assert!(matches!(note.get_frontmatter_value_case_insensitive("tag"), Some(Value::Integer(2))));
    assert!(matches!(note.get_frontmatter_value_case_insensitive("TAG"), Some(Value::Integer(1))));
    assert!(matches!(note.get_frontmatter_value_case_insensitive("Tag"), Some(Value::Integer(1))));
    assert!(note.get_frontmatter_value("Tag").is_none());
    assert!(note.matches_filter_with_case_sensitivity("tag", "2", false));
    assert!(note.matches_filter_with_case_sensitivity("Tag", "1", false));
    assert!(!note.matches_filter_with_case_sensitivity("Tag", "2", false));
}

#[test]
fn a_cloned_document_holds_what_the_document_holds() {
    let mut fm = StringMap::new();
    fm.insert("title".to_string(), Value::String("T".to_string()));
    fm.insert("tags".to_string(), Value::Array(vec![Value::Integer(1)]));
    let note = Note::new("dir/n.md".to_string(), fm);
    let copy = note.clone();
    assert_eq!(copy.path, "dir/n.md");
    assert_eq!(copy.title, Some("T".to_string()));
    assert_eq!(copy.frontmatter.len(), 2);
    assert_eq!(copy.frontmatter.key_at(1), "tags");
    assert!(matches!(copy.get_frontmatter_value("tags"), Some(Value::Array(items)) if items.len() == 1));
}
