use courselib::slugs::{base_slug, sanitize_slug, unique_slug, MAX_SLUG_LEN};

#[test]
fn reserved_windows_names_are_rewritten() {
    assert_eq!(base_slug("CON", "course"), "con-item");
    assert_eq!(base_slug("nul.md", "course"), "nul-md");
    assert_eq!(sanitize_slug("aux", "section"), "aux-item");
    assert_eq!(sanitize_slug("COM1", "section"), "com1-item");
    assert_eq!(sanitize_slug("lpt9", "section"), "lpt9-item");
}

#[test]
fn long_slugs_are_truncated_with_stable_hash() {
    let long = "a".repeat(120);
    let first = sanitize_slug(&long, "section");
    let second = sanitize_slug(&long, "section");
    assert_eq!(first, second);
    assert!(first.len() <= MAX_SLUG_LEN);
    assert!(first.contains('-'));
}

#[test]
fn unique_slug_appends_suffixes_within_limit() {
    let base = "a".repeat(80);
    let mut taken = vec![sanitize_slug(&base, "item")];
    let next = unique_slug(&base, &taken);
    assert!(next.len() <= MAX_SLUG_LEN);
    assert!(next.ends_with("-2"));
    taken.push(next.clone());
    let third = unique_slug(&base, &taken);
    assert!(third.ends_with("-3"));
}

#[test]
fn unique_slug_keeps_a_free_base() {
    let taken = vec!["other".to_string()];
    assert_eq!(unique_slug("rust-course", &taken), "rust-course");
    assert_eq!(unique_slug("  ", &taken), "item");
}

#[test]
fn titles_are_slugified_before_sanitizing() {
    assert_eq!(base_slug("Rust Course", "course"), "rust-course");
    assert_eq!(base_slug("Distributed Systems", "category"), "distributed-systems");
}

#[test]
fn empty_titles_fall_back() {
    assert_eq!(base_slug("", "course"), "course");
    assert_eq!(sanitize_slug("  ", "Section"), "section");
    assert_eq!(base_slug("!!!", "course"), "course");
}

#[test]
fn sanitized_slugs_are_lowercase_and_nonempty() {
    for input in ["CON", "Hello World", "", "   ", &"A".repeat(100), "nul.MD"] {
        let out = sanitize_slug(input, "Fallback");
        assert!(!out.is_empty());
        assert!(!out.chars().any(|c| c.is_ascii_uppercase()));
        assert!(out.len() <= MAX_SLUG_LEN);
        assert_eq!(out.trim(), out);
    }
    assert_eq!(sanitize_slug(&format!("{} tail", "b".repeat(60)), "x").trim(), sanitize_slug(&format!("{} tail", "b".repeat(60)), "x"));
}

#[test]
fn reserved_stems_stay_rewritten_after_truncation() {
    let long = format!("con.{}", "a".repeat(60));
    let out = sanitize_slug(&long, "x");
    assert!(out.starts_with("con-item."));
    assert!(out.len() <= MAX_SLUG_LEN);
    assert_eq!(sanitize_slug("nul.md", "section"), "nul-item.md");
    assert_eq!(sanitize_slug("Con", "section"), "con-item");
    assert_eq!(sanitize_slug("  ", "CON"), "con-item");
}
