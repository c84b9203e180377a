use courselib::indexer::{
    child_canonical_path, indexed_status, category_id, course_id, fts_rowid, markdown_section_metadata, not_started, order_from_name,
    ordered_section_entries, path_id, section_id, slug_from_prefixed_name, source_type_str,
    titleize_slug, ReindexSummary,
};
use courselib::source_fetch::SourceType;

#[test]
fn index_ids_are_prefixed() {
    assert_eq!(course_id("rust"), "course:rust");
    assert_eq!(category_id("python"), "category:python");
    assert_eq!(section_id("rust", "rust/setup"), "section:rust:rust/setup");
    assert_eq!(path_id("track"), "path:track");
    assert_eq!(not_started(), "not_started");
    assert_eq!(source_type_str(SourceType::Codeberg), "codeberg");
    assert_eq!(source_type_str(SourceType::Pasted), "pasted");
}

#[test]
fn search_rowid_is_the_masked_digest_prefix() {
    assert_eq!(fts_rowid("section:one:one"), 7565569231624784418);
    assert!(fts_rowid("x") >= 0);
}

#[test]
fn section_file_names_give_slug_and_order() {
    assert_eq!(slug_from_prefixed_name("02-setup-2.md"), "setup-2");
    assert_eq!(slug_from_prefixed_name("setup.md"), "setup");
    assert_eq!(slug_from_prefixed_name("01-"), "01-");
    assert_eq!(order_from_name("07-x"), 7);
    assert_eq!(order_from_name("ab"), usize::MAX);
    assert_eq!(order_from_name("x"), usize::MAX);
}

#[test]
fn section_metadata_comes_from_the_first_heading() {
    assert_eq!(markdown_section_metadata("text\n  ## Setup ##\n", "x"), ("Setup".to_string(), 2));
    assert_eq!(markdown_section_metadata("#NoSpace\n", "hello-world"), ("Hello World".to_string(), 1));
    assert_eq!(titleize_slug("rust--course-"), "Rust Course");
}

#[test]
fn folder_entries_are_filtered_and_ordered() {
    let entries = vec![
        ("_index.md".to_string(), false),
        ("02-b.md".to_string(), false),
        (".hidden".to_string(), true),
        ("notes.txt".to_string(), false),
        ("01-a".to_string(), true),
        ("zz.md".to_string(), false),
        ("02-c.md".to_string(), false),
    ];
    let ordered = ordered_section_entries(entries);
    let names: Vec<&str> = ordered.iter().map(|e| e.0.as_str()).collect();
    assert_eq!(names, vec!["01-a", "02-b.md", "02-c.md", "zz.md"]);
}

#[test]
fn summaries_add_up() {
    let mut total = ReindexSummary::empty();
    total.add_course(&ReindexSummary::for_course(3));
    total.add_course(&ReindexSummary::for_course(2));
    assert_eq!(total, ReindexSummary { courses: 2, sections: 5, categories: 0, paths: 0 });
}

#[test]
fn section_files_give_canonical_paths_and_statuses() {
    assert_eq!(child_canonical_path(None, "01-rust.md"), "rust");
    assert_eq!(child_canonical_path(Some("rust"), "02-setup-2"), "rust/setup-2");
    assert_eq!(indexed_status(None), "not_started");
    assert_eq!(indexed_status(Some("completed")), "completed");
}

#[test]
fn long_numeric_prefixes_are_stripped_and_ordered() {
    assert_eq!(slug_from_prefixed_name("100-foo.md"), "foo");
    assert_eq!(slug_from_prefixed_name("1234-bar"), "bar");
    assert_eq!(order_from_name("100-x"), 100);
    assert!(order_from_name("99-x") < order_from_name("100-x"));
    assert_eq!(order_from_name("99999999999999999999999-x"), usize::MAX);
}
