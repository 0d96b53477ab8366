use aktenfux::frontmatter::{parse_frontmatter_from_text, Note, ParseResult};
use aktenfux::logger::Logger;
use aktenfux::scanner::{collect_result, collect_results, scan};

#[test]
fn a_document_that_was_read_is_kept() {
    let mut logger = Logger::new(false);
    let mut notes: Vec<Note> = Vec::new();
    let parsed = parse_frontmatter_from_text("a.md", "---\ntitle: A\n---\n", false, true);
    assert_eq!(collect_result(&mut logger, &mut notes, "a.md", Some(parsed)), None);
    assert_eq!(notes.len(), 1);
    assert_eq!(notes[0].title, Some("A".to_string()));
    assert_eq!(logger.get_warning_count(), 0);
    assert_eq!(logger.get_critical_count(), 0);
}

#[test]
fn a_warning_does_not_drop_the_document() {
    let mut logger = Logger::new(true);
    let mut notes: Vec<Note> = Vec::new();
    let parsed = parse_frontmatter_from_text("b.md", "---\ns: x: y\n---\n", false, true);
    let shown = collect_result(&mut logger, &mut notes, "b.md", Some(parsed)).unwrap();
    assert!(shown.starts_with("Warning: Used lenient parsing for frontmatter in file b.md due to: "));
    assert!(shown.ends_with(" (b.md)"));
    assert_eq!(notes.len(), 1);
    assert_eq!(logger.get_warning_count(), 1);
    assert_eq!(logger.lenient_parsing_count(), 1);

    let mut quiet = Logger::new(false);
    let parsed = parse_frontmatter_from_text("b.md", "---\ns: x: y\n---\n", false, false);
    assert_eq!(collect_result(&mut quiet, &mut notes, "b.md", Some(parsed)), None);
    assert_eq!(notes.len(), 2);
    assert_eq!(quiet.get_warning_count(), 1);
    assert_eq!(quiet.error_counts().get("Frontmatter parsing errors"), Some(&1));
}

#[test]
fn a_candidate_that_could_not_be_read_is_dropped() {
    let mut logger = Logger::new(false);
    let mut notes: Vec<Note> = Vec::new();
    assert_eq!(
        collect_result(&mut logger, &mut notes, "gone.md", None),
        Some("Error: Failed to parse file: Failed to read file: gone.md (gone.md)".to_string())
    );
    assert!(notes.is_empty());
    assert_eq!(logger.get_critical_count(), 1);
    assert_eq!(logger.get_warning_count(), 0);
    assert_eq!(logger.summary(1, 0), vec!["Successfully parsed 0 notes".to_string()]);
}

#[test]
fn a_result_without_a_document_adds_none() {
    let mut logger = Logger::new(true);
    let mut notes: Vec<Note> = Vec::new();
    let empty = ParseResult { note: None, frontmatter_warning: Some("odd".to_string()) };
    assert_eq!(
        collect_result(&mut logger, &mut notes, "x.md", Some(empty)),
        Some("Warning: odd (x.md)".to_string())
    );
    assert!(notes.is_empty());
    assert_eq!(logger.get_warning_count(), 1);
}

#[test]
fn results_are_taken_in_their_order() {
    let mut logger = Logger::new(true);
    let results = vec![
        ("a.md".to_string(), Some(parse_frontmatter_from_text("a.md", "---\ntitle: A\n---\n", false, true))),
        ("gone.md".to_string(), None),
        ("b.md".to_string(), Some(parse_frontmatter_from_text("b.md", "---\ns: x: y\n---\n", false, false))),
        ("c.md".to_string(), Some(parse_frontmatter_from_text("c.md", "no block", false, true))),
    ];
    let (notes, shown) = collect_results(&mut logger, results);
    assert_eq!(notes.len(), 3);
    assert_eq!(notes[0].path, "a.md");
    assert_eq!(notes[1].path, "b.md");
    assert_eq!(notes[2].path, "c.md");
    assert_eq!(shown.len(), 2);
    assert_eq!(shown[0], "Error: Failed to parse file: Failed to read file: gone.md (gone.md)");
    assert!(shown[1].starts_with("Warning: Failed to parse frontmatter in file b.md: "));
    assert_eq!(logger.get_critical_count(), 1);
    assert_eq!(logger.get_warning_count(), 1);
}

#[test]
fn a_batch_from_texts() {
    let candidates = vec![
        ("notes/one.md".to_string(), Some("---\ntitle: One\ntags: [x]\n---\nbody".to_string())),
        ("notes/two.md".to_string(), None),
        ("notes/three.md".to_string(), Some("---\nsource: A: B\n---\n".to_string())),
        ("notes/four.md".to_string(), Some("plain text".to_string())),
        ("notes/five.md".to_string(), Some("---\nk: [1\n---\n".to_string())),
    ];
    let mut logger = Logger::new(false);
    let (notes, shown) = scan(&mut logger, candidates, true);
    assert_eq!(notes.len(), 4);
    assert_eq!(notes[0].path, "notes/one.md");
    assert_eq!(notes[0].title, Some("One".to_string()));
    assert_eq!(notes[1].path, "notes/three.md");
    assert_eq!(notes[1].title, Some("three".to_string()));
    assert_eq!(notes[1].frontmatter.len(), 1);
    assert_eq!(notes[2].path, "notes/four.md");
    assert!(notes[2].frontmatter.is_empty());
    assert_eq!(notes[3].path, "notes/five.md");
    assert!(notes[3].frontmatter.is_empty());
    assert_eq!(
        shown,
        vec!["Error: Failed to parse file: Failed to read file: notes/two.md (notes/two.md)"]
    );
    assert_eq!(logger.get_critical_count(), 1);
    assert_eq!(logger.get_warning_count(), 2);
    assert_eq!(logger.lenient_parsing_count(), 1);
    assert_eq!(
        logger.summary(5, notes.len()),
        vec![
            "Successfully parsed 4 notes",
            "Fixed 1 files with lenient parsing (frontmatter with colons in values)",
            "Skipped 1 files due to parsing errors:",
            "  - Frontmatter parsing errors: 1 files",
            "Use --verbose/-v to see detailed error messages",
        ]
    );
}

#[test]
fn a_strict_batch_keeps_the_documents_and_warns() {
    let candidates = vec![("t.md".to_string(), Some("---\nsource: A: B\n---\n".to_string()))];
    let mut logger = Logger::new(true);
    let (notes, shown) = scan(&mut logger, candidates, false);
    assert_eq!(notes.len(), 1);
    assert!(notes[0].frontmatter.is_empty());
    assert_eq!(shown.len(), 1);
    assert!(shown[0].starts_with("Warning: Failed to parse frontmatter in file t.md: "));
    assert_eq!(logger.lenient_parsing_count(), 0);
    let (notes, shown) = scan(&mut logger, vec![], false);
    assert!(notes.is_empty());
    assert!(shown.is_empty());
}
