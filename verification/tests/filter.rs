use aktenfux::filter::{
    collect_all_fields, collect_field_values, collect_field_values_case_insensitive,
    parse_filter, FilterCriteria,
};
use aktenfux::frontmatter::Note;
use aktenfux::string_map::StringMap;
use aktenfux::yaml_compat::Value;

fn create_test_note(path: &str, frontmatter: StringMap<Value>) -> Note {
    Note::new(path.to_string(), frontmatter)
}

#[test]
fn test_filter_criteria() {
    let mut fm1 = StringMap::new();
    fm1.insert("tag".to_string(), Value::String("work".to_string()));
    fm1.insert("status".to_string(), Value::String("active".to_string()));

    let mut fm2 = StringMap::new();
    fm2.insert("tag".to_string(), Value::String("personal".to_string()));
    fm2.insert("status".to_string(), Value::String("active".to_string()));

    let notes = vec![create_test_note("note1.md", fm1), create_test_note("note2.md", fm2)];

    let criteria = FilterCriteria::new(vec![("tag".to_string(), "work".to_string())]);
    let filtered = criteria.apply_filters(&notes);

    assert_eq!(filtered.len(), 1);
    assert_eq!(filtered[0].path, "note1.md");
}

#[test]
fn test_collect_all_fields() {
    let mut fm1 = StringMap::new();
    fm1.insert("title".to_string(), Value::String("Note 1".to_string()));
    fm1.insert("tag".to_string(), Value::String("work".to_string()));

    let mut fm2 = StringMap::new();
    fm2.insert("title".to_string(), Value::String("Note 2".to_string()));
    fm2.insert("status".to_string(), Value::String("active".to_string()));

    let notes = vec![create_test_note("note1.md", fm1), create_test_note("note2.md", fm2)];

    let fields = collect_all_fields(&notes);
    assert_eq!(fields.len(), 3);
    assert!(fields.contains(&"title".to_string()));
    assert!(fields.contains(&"tag".to_string()));
    assert!(fields.contains(&"status".to_string()));
}

#[test]
fn test_case_insensitive_filter_criteria() {
    let mut fm1 = StringMap::new();
    fm1.insert("Tag".to_string(), Value::String("Work".to_string()));
    fm1.insert("Status".to_string(), Value::String("Active".to_string()));

    let mut fm2 = StringMap::new();
    fm2.insert("tag".to_string(), Value::String("personal".to_string()));
    fm2.insert("status".to_string(), Value::String("inactive".to_string()));

    let notes = vec![create_test_note("note1.md", fm1), create_test_note("note2.md", fm2)];

    let criteria_sensitive = FilterCriteria::new(vec![("tag".to_string(), "Work".to_string())]);
    let filtered_sensitive = criteria_sensitive.apply_filters(&notes);
    assert_eq!(filtered_sensitive.len(), 0);

    let criteria_insensitive =
        FilterCriteria::new_case_insensitive(vec![("tag".to_string(), "work".to_string())]);
    let filtered_insensitive = criteria_insensitive.apply_filters(&notes);
    assert_eq!(filtered_insensitive.len(), 1);
    assert_eq!(filtered_insensitive[0].path, "note1.md");
}

#[test]
fn test_case_insensitive_field_collection() {
    let mut fm1 = StringMap::new();
    fm1.insert("Tag".to_string(), Value::String("Work".to_string()));
    fm1.insert("Priority".to_string(), Value::String("High".to_string()));

    let mut fm2 = StringMap::new();
    fm2.insert("tag".to_string(), Value::String("Personal".to_string()));
    fm2.insert("priority".to_string(), Value::String("Low".to_string()));

    let notes = vec![create_test_note("note1.md", fm1), create_test_note("note2.md", fm2)];

    let values_sensitive = collect_field_values(&notes, "tag");
    assert_eq!(values_sensitive.len(), 1);
    assert!(values_sensitive.contains(&"Personal".to_string()));

    let (values_insensitive, actual_field) = collect_field_values_case_insensitive(&notes, "tag");
    assert_eq!(values_insensitive.len(), 2);
    assert!(values_insensitive.contains(&"Work".to_string()));
    assert!(values_insensitive.contains(&"Personal".to_string()));
    assert_eq!(actual_field, "Tag");
}

#[test]
fn test_case_insensitive_with_arrays() {
    let mut fm1 = StringMap::new();
    fm1.insert(
        "Tags".to_string(),
        Value::Array(vec![
            Value::String("Work".to_string()),
            Value::String("Important".to_string()),
        ]),
    );

    let notes = vec![create_test_note("note1.md", fm1)];

    let criteria =
        FilterCriteria::new_case_insensitive(vec![("tags".to_string(), "work".to_string())]);
    let filtered = criteria.apply_filters(&notes);
    assert_eq!(filtered.len(), 1);
    assert_eq!(filtered[0].path, "note1.md");

    let (values, _) = collect_field_values_case_insensitive(&notes, "tags");
    assert_eq!(values.len(), 2);
    assert!(values.contains(&"Work".to_string()));
    assert!(values.contains(&"Important".to_string()));
}

fn note_with(path: &str, entries: Vec<(&str, Value)>) -> Note {
    let mut fm = StringMap::new();
    for (k, v) in entries {
        fm.insert(k.to_string(), v);
    }
    Note::new(path.to_string(), fm)
}

fn text(s: &str) -> Value {
    Value::String(s.to_string())
}

#[test]
fn scenario_tag_work_with_and_without_case() {
    let notes = vec![
        note_with("upper.md", vec![("Tag", text("Work"))]),
        note_with("lower.md", vec![("tag", text("work"))]),
    ];
    let sensitive = FilterCriteria::new(vec![("tag".to_string(), "work".to_string())]);
    let found = sensitive.apply_filters(&notes);
    assert_eq!(found.len(), 1);
    assert_eq!(found[0].path, "lower.md");

    let insensitive =
        FilterCriteria::new_case_insensitive(vec![("tag".to_string(), "work".to_string())]);
    let found = insensitive.apply_filters(&notes);
    assert_eq!(found.len(), 2);
    assert_eq!(found[0].path, "upper.md");
    assert_eq!(found[1].path, "lower.md");
}

#[test]
fn an_empty_predicate_selects_every_document_in_order() {
    let notes = vec![
        note_with("c.md", vec![]),
        note_with("a.md", vec![("k", Value::Null)]),
        note_with("b.md", vec![("k", Value::Integer(1))]),
    ];
    for criteria in [FilterCriteria::new(vec![]), FilterCriteria::new_case_insensitive(vec![])] {
        let found = criteria.apply_filters(&notes);
        assert_eq!(found.len(), 3);
        for i in 0..3 {
            assert!(std::ptr::eq(found[i], &notes[i]));
        }
    }
    assert!(FilterCriteria::new(vec![]).apply_filters(&[]).is_empty());
}

#[test]
fn every_constraint_has_to_be_met() {
    let notes = vec![
        note_with("1.md", vec![("tag", text("work")), ("status", text("active"))]),
        note_with("2.md", vec![("tag", text("work")), ("status", text("done"))]),
        note_with("3.md", vec![("tag", text("home")), ("status", text("active"))]),
        note_with("4.md", vec![("tag", text("work"))]),
    ];
    let criteria = FilterCriteria::new(vec![
        ("tag".to_string(), "work".to_string()),
        ("status".to_string(), "act".to_string()),
    ]);
    let found = criteria.apply_filters(&notes);
    assert_eq!(found.len(), 1);
    assert_eq!(found[0].path, "1.md");
    assert!(criteria.matches_all_filters(&notes[0]));
    assert!(!criteria.matches_all_filters(&notes[1]));
    assert!(!criteria.matches_all_filters(&notes[3]));
}

#[test]
fn fields_are_sorted_and_distinct() {
    let notes = vec![
        note_with("1.md", vec![("zeta", Value::Null), ("Alpha", Value::Null), ("beta", Value::Null)]),
        note_with("2.md", vec![("beta", Value::Null), ("alpha", Value::Null), ("", Value::Null)]),
        note_with("3.md", vec![]),
    ];
    assert_eq!(
        collect_all_fields(&notes),
        vec!["", "Alpha", "alpha", "beta", "zeta"]
    );
    assert!(collect_all_fields(&[]).is_empty());
}

#[test]
fn field_values_are_sorted_and_distinct() {
    let notes = vec![
        note_with("1.md", vec![("tags", Value::Array(vec![text("b"), text("a"), Value::Integer(3)]))]),
        note_with("2.md", vec![("tags", text("c")), ("Tags", text("ignored"))]),
        note_with("3.md", vec![("tags", Value::Integer(10))]),
        note_with("4.md", vec![("tags", Value::Array(vec![text("a"), text("ab")]))]),
        note_with("5.md", vec![("tags", Value::Null)]),
        note_with("6.md", vec![("tags", Value::Boolean(false))]),
    ];
    assert_eq!(collect_field_values(&notes, "tags"), vec!["10", "a", "ab", "b", "c", "false"]);
    assert!(collect_field_values(&notes, "missing").is_empty());
}

#[test]
fn field_values_by_lowercase_merge_the_variants_of_a_key() {
    let notes = vec![
        note_with("1.md", vec![("status", text("open"))]),
        note_with("2.md", vec![("other", text("x")), ("STATUS", text("closed"))]),
        note_with("3.md", vec![("Status", Value::Array(vec![text("open"), text("late")]))]),
    ];
    for query in ["status", "STATUS", "Status", "sTaTuS"] {
        let (values, _) = collect_field_values_case_insensitive(&notes, query);
        assert_eq!(values, vec!["closed", "late", "open"], "{}", query);
    }
    let (values, name) = collect_field_values_case_insensitive(&notes[1..], "status");
    assert_eq!(values, vec!["closed", "late", "open"]);
    assert_eq!(name, "STATUS");
    let (values, name) = collect_field_values_case_insensitive(&notes, "absent");
    assert!(values.is_empty());
    assert_eq!(name, "absent");
}

#[test]
fn the_written_key_is_the_first_variant_in_the_first_document() {
    let notes = vec![
        note_with("1.md", vec![("x", Value::Null)]),
        note_with("2.md", vec![("KEY", text("a")), ("key", text("b"))]),
        note_with("3.md", vec![("Key", text("c"))]),
    ];
    let (values, name) = collect_field_values_case_insensitive(&notes, "key");
    assert_eq!(values, vec!["a", "b", "c"]);
    assert_eq!(name, "KEY");
}

#[test]
fn two_spellings_in_one_document_both_give_their_values() {
    let notes = vec![note_with("a.md", vec![("Tag", text("Work")), ("tag", text("Personal"))])];
    for query in ["TAG", "tag", "Tag", "tAg"] {
        let (values, name) = collect_field_values_case_insensitive(&notes, query);
        assert_eq!(values, vec!["Personal".to_string(), "Work".to_string()], "{}", query);
        assert_eq!(name, "Tag");
    }
    assert_eq!(collect_field_values(&notes, "tag"), vec!["Personal"]);
    assert!(collect_field_values(&notes, "TAG").is_empty());
}

#[test]
fn filter_arguments() {
    assert_eq!(parse_filter("tag=work"), Ok(("tag".to_string(), "work".to_string())));
    assert_eq!(parse_filter("a=b=c"), Ok(("a".to_string(), "b=c".to_string())));
    assert_eq!(parse_filter("=x"), Ok(("".to_string(), "x".to_string())));
    assert_eq!(parse_filter("x="), Ok(("x".to_string(), "".to_string())));
    assert_eq!(
        parse_filter("novalue"),
        Err("Invalid filter format: 'novalue'. Use field=value".to_string())
    );
    assert_eq!(parse_filter(""), Err("Invalid filter format: ''. Use field=value".to_string()));
}
