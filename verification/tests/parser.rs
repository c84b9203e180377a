use courselib::parser::parse_markdown_course;

#[test]
fn parses_nested_heading_tree() {
    let markdown = "# Rust\nIntro\n\n## Ownership\nOwn body\n\n### Borrowing\nBorrow body\n\n## Traits\nTrait body\n";

    let course = parse_markdown_course(markdown, None);

    assert_eq!(course.title, "Rust");
    assert_eq!(course.sections.len(), 1);
    let root = &course.sections[0];
    assert_eq!(root.title, "Rust");
    assert_eq!(root.level, 1);
    assert_eq!(root.children.len(), 2);
    assert_eq!(root.children[0].title, "Ownership");
    assert_eq!(root.children[0].children[0].title, "Borrowing");
    assert_eq!(root.children[1].title, "Traits");
    assert!(root.body.contains("Intro"));
    assert!(!root.body.contains("Ownership"));
}

#[test]
fn skipped_levels_attach_to_nearest_lower_heading() {
    let markdown = "# Top\n\n### Deep\nBody\n";

    let course = parse_markdown_course(markdown, None);

    assert_eq!(course.sections[0].children.len(), 1);
    assert_eq!(course.sections[0].children[0].title, "Deep");
    assert_eq!(course.sections[0].children[0].level, 3);
}

#[test]
fn no_headings_doc_becomes_overview_section() {
    let markdown = "Just notes\n\n- one\n- two\n";

    let course = parse_markdown_course(markdown, Some("Loose Notes"));

    assert_eq!(course.title, "Loose Notes");
    assert_eq!(course.sections.len(), 1);
    assert_eq!(course.sections[0].title, "Loose Notes");
    assert_eq!(course.sections[0].body, markdown);
}

#[test]
fn gfm_tables_and_task_lists_survive_section_split() {
    let markdown = "# Plan\n\n| A | B |\n| - | - |\n| 1 | 2 |\n\n- [x] Done\n- [ ] Next\n";

    let course = parse_markdown_course(markdown, None);
    let body = &course.sections[0].body;

    assert!(body.contains("| A | B |"));
    assert!(body.contains("- [x] Done"));
    assert!(body.contains("- [ ] Next"));
}

#[test]
fn sibling_sections_split_bodies_at_each_heading() {
    let markdown = "# A\none\n## B\ntwo\n";

    let course = parse_markdown_course(markdown, None);

    assert_eq!(course.sections[0].body, "# A\none\n");
    assert_eq!(course.sections[0].children[0].body, "## B\ntwo\n");
}

#[test]
fn untitled_document_without_hint_is_named_untitled() {
    let course = parse_markdown_course("plain text\n", None);
    assert_eq!(course.title, "Untitled Course");
    assert_eq!(course.sections.len(), 1);
    assert_eq!(course.sections[0].title, "Overview");
    assert_eq!(course.sections[0].body, "plain text\n");
}

fn preorder(sections: &[courselib::parser::ParsedSection], out: &mut Vec<(u8, String, String)>) {
    for s in sections {
        out.push((s.level, s.title.clone(), s.body.clone()));
        preorder(&s.children, out);
    }
}

#[test]
fn preorder_sections_follow_the_headings_and_cover_the_document() {
    let markdown = "Preface\n# A\na\n### B\nb\n## C\nc\n# D\nd\n";
    let course = parse_markdown_course(markdown, None);
    let mut flat = Vec::new();
    preorder(&course.sections, &mut flat);
    let titles: Vec<(u8, &str)> = flat.iter().map(|(l, t, _)| (*l, t.as_str())).collect();
    assert_eq!(titles, vec![(1, "A"), (3, "B"), (2, "C"), (1, "D")]);
    let joined: String = flat.iter().map(|(_, _, b)| b.as_str()).collect();
    assert_eq!(joined, &markdown["Preface\n".len()..]);
}
