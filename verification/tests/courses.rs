use courselib::courses::{
    add_category, add_course_to_path, apply_course_meta_patch, build_section_tree, catalog_slugs,
    create_path_manifest, drift_after_fetch, drift_without_source, includes_archived,
    normalize_course_categories, progress_status_from_str, progress_status_name, record_progress,
    record_progress_now, reorder_path_courses, require_origin, CourseError, CourseListFilter,
    CourseMetaPatch, FlatSectionRow,
};
use courselib::models::{Category, PathCourse, ProgressStatus, SectionProgressEntry};
use courselib::source_fetch::fetched_from_paste;
use courselib::vault::plan_course;

fn strings(items: &[&str]) -> Vec<String> {
    items.iter().map(|s| s.to_string()).collect()
}

fn pc(slug: &str, optional: bool) -> PathCourse {
    PathCourse { slug: slug.to_string(), optional }
}

fn row(id: &str, parent: Option<&str>, order: usize) -> FlatSectionRow {
    FlatSectionRow {
        id: id.to_string(),
        parent_section_id: parent.map(|p| p.to_string()),
        canonical_path: id.to_string(),
        title: id.to_string(),
        heading_level: 1,
        order_index: order,
        status: ProgressStatus::NotStarted,
        completed_at: None,
    }
}

#[test]
fn progress_is_recorded_and_read_back() {
    let mut entries: Vec<(String, SectionProgressEntry)> = Vec::new();
    record_progress(&mut entries, "c/b", ProgressStatus::Completed, "2026-07-10T08:00:00Z".to_string());
    record_progress(&mut entries, "c/a", ProgressStatus::InProgress, "ignored".to_string());
    assert_eq!(entries.len(), 2);
    assert_eq!(entries[0].0, "c/a");
    assert_eq!(entries[0].1, SectionProgressEntry { status: ProgressStatus::InProgress, completed_at: None });
    assert_eq!(
        entries[1].1,
        SectionProgressEntry {
            status: ProgressStatus::Completed,
            completed_at: Some("2026-07-10T08:00:00Z".to_string())
        }
    );
    record_progress(&mut entries, "c/a", ProgressStatus::NotStarted, String::new());
    assert_eq!(entries.len(), 1);
    assert_eq!(entries[0].0, "c/b");
}

#[test]
fn progress_now_stamps_completed_sections() {
    let mut entries: Vec<(String, SectionProgressEntry)> = Vec::new();
    record_progress_now(&mut entries, "c", ProgressStatus::Completed);
    assert_eq!(entries.len(), 1);
    assert!(entries[0].1.completed_at.as_deref().unwrap().ends_with('Z'));
}

#[test]
fn status_names_round_trip() {
    for status in [ProgressStatus::NotStarted, ProgressStatus::InProgress, ProgressStatus::Completed] {
        assert_eq!(progress_status_from_str(progress_status_name(status)), status);
    }
    assert_eq!(progress_status_from_str("bogus"), ProgressStatus::NotStarted);
    assert_eq!(progress_status_name(ProgressStatus::InProgress), "in_progress");
}

#[test]
fn course_categories_are_normalized() {
    let known = strings(&["python", "rust"]);
    assert_eq!(
        normalize_course_categories(&known, strings(&[" rust ", "", "rust", "python"])).unwrap(),
        strings(&["rust", "python"])
    );
    let err = normalize_course_categories(&known, strings(&["go"])).unwrap_err();
    assert_eq!(err, CourseError::UnknownCategory("go".to_string()));
    assert_eq!(err.message(), "unknown category: go");
}

#[test]
fn categories_get_free_slugs_and_stay_sorted() {
    let mut catalog = vec![Category { slug: "python".to_string(), name: "Python".to_string() }];
    let added = add_category(&mut catalog, "  Python ").unwrap();
    assert_eq!(added.slug, "python-2");
    assert_eq!(added.name, "Python");
    let added = add_category(&mut catalog, "Algorithms").unwrap();
    assert_eq!(added.slug, "algorithms");
    assert_eq!(catalog[0].slug, "algorithms");
    assert_eq!(catalog_slugs(&catalog), strings(&["algorithms", "python", "python-2"]));
    assert_eq!(add_category(&mut catalog, " ").unwrap_err(), CourseError::EmptyCategoryName);
}

#[test]
fn meta_patches_apply_only_given_fields() {
    let mut manifest = plan_course(fetched_from_paste("# Course\n".to_string(), None), &Vec::new()).manifest;
    let known = strings(&["python"]);
    let patch = CourseMetaPatch { description: Some("About".to_string()), ..CourseMetaPatch::default() };
    apply_course_meta_patch(&mut manifest, patch, &known).unwrap();
    assert_eq!(manifest.title, "Course");
    assert_eq!(manifest.description, Some("About".to_string()));
    let patch = CourseMetaPatch {
        title: Some(" New ".to_string()),
        categories: Some(strings(&["python"])),
        description: Some("  ".to_string()),
    };
    apply_course_meta_patch(&mut manifest, patch, &known).unwrap();
    assert_eq!(manifest.title, "New");
    assert_eq!(manifest.description, None);
    assert_eq!(manifest.categories, strings(&["python"]));
    let patch = CourseMetaPatch { title: Some(" ".to_string()), ..CourseMetaPatch::default() };
    assert_eq!(apply_course_meta_patch(&mut manifest, patch, &known).unwrap_err(), CourseError::EmptyCourseTitle);
    assert_eq!(manifest.title, "New");
}

#[test]
fn paths_get_free_file_names() {
    let path = create_path_manifest(" Learning ", &strings(&["learning.yaml"])).unwrap();
    assert_eq!(path.title, "Learning");
    assert_eq!(path.slug, "learning-2");
    assert!(path.courses.is_empty());
    assert_eq!(create_path_manifest("", &Vec::new()).unwrap_err(), CourseError::EmptyPathTitle);
}

#[test]
fn adding_to_a_path_moves_the_course() {
    let mut courses = vec![pc("a", false), pc("b", false), pc("c", false)];
    add_course_to_path(&mut courses, "c", Some(0), Some(true));
    assert_eq!(courses, vec![pc("c", true), pc("a", false), pc("b", false)]);
    add_course_to_path(&mut courses, "a", Some(99), None);
    assert_eq!(courses, vec![pc("c", true), pc("b", false), pc("a", false)]);
    add_course_to_path(&mut courses, "d", None, None);
    assert_eq!(courses.last(), Some(&pc("d", false)));
}

#[test]
fn reordering_names_only_path_courses() {
    let courses = vec![pc("a", false), pc("b", true)];
    let ordering = vec![("b".to_string(), None), ("a".to_string(), Some(true)), ("b".to_string(), Some(false))];
    assert_eq!(reorder_path_courses(&courses, &ordering).unwrap(), vec![pc("b", true), pc("a", true)]);
    let bad = vec![("z".to_string(), None)];
    assert_eq!(reorder_path_courses(&courses, &bad).unwrap_err(), CourseError::NotInPath("z".to_string()));
}

#[test]
fn reimport_needs_an_origin() {
    assert_eq!(require_origin(None).unwrap_err(), CourseError::NoSourceUrl);
    assert_eq!(require_origin(Some("u".to_string())).unwrap(), "u");
}

#[test]
fn section_rows_become_a_tree() {
    let rows = vec![row("b", None, 1), row("a", None, 0), row("a2", Some("a"), 1), row("a1", Some("a"), 0)];
    let tree = build_section_tree(&rows, None);
    assert_eq!(tree.len(), 2);
    assert_eq!(tree[0].id, "a");
    assert_eq!(tree[1].id, "b");
    let kids: Vec<&str> = tree[0].children.iter().map(|n| n.id.as_str()).collect();
    assert_eq!(kids, vec!["a1", "a2"]);
}

#[test]
fn listing_filters_default_to_unarchived() {
    assert!(!includes_archived(&CourseListFilter::default()));
    assert!(includes_archived(&CourseListFilter { category: None, include_archived: Some(true) }));
}

#[test]
fn drift_compares_content_hashes() {
    let none = drift_without_source("course:x".to_string(), None, "now".to_string());
    assert!(!none.source_available && !none.changed);
    let fetched = fetched_from_paste("# X\n\n## New\n".to_string(), None);
    let same = drift_after_fetch(
        "course:x".to_string(),
        Some(fetched.source.content_hash.clone()),
        "u".to_string(),
        "now".to_string(),
        &fetched,
        &strings(&["x/old"]),
    );
    assert!(!same.changed);
    assert!(same.orphaned_progress_paths.is_empty());
    let changed = drift_after_fetch(
        "course:x".to_string(),
        Some("sha256:old".to_string()),
        "u".to_string(),
        "now".to_string(),
        &fetched,
        &strings(&["x/old", "x/new"]),
    );
    assert!(changed.changed);
    assert_eq!(changed.orphaned_progress_paths, strings(&["x/old"]));
}
