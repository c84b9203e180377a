use courselib::models::{Category, CourseManifest, PathCourse, ProgressStatus, SectionProgressEntry};
use courselib::source_fetch::fetched_from_paste;
use courselib::vault::{
    canonical_paths_for_markdown, delete_category, orphaned_progress_paths_for_markdown, plan_course,
    plan_reimport, prune_progress, remove_course_from_path, rename_category, sort_catalog, sort_strings,
    status, unique_course_slug, VaultError, VaultLayout,
};

fn category(slug: &str, name: &str) -> Category {
    Category { slug: slug.to_string(), name: name.to_string() }
}

fn strings(items: &[&str]) -> Vec<String> {
    items.iter().map(|s| s.to_string()).collect()
}

#[test]
fn write_fetched_course_creates_spec_layout() {
    let markdown = "# Rust Course\nIntro\n\n## Setup\nInstall Rust\n\n## Setup\nCollision\n\n### Cargo\nUse cargo\n";
    let fetched = fetched_from_paste(markdown.to_string(), None);

    let plan = plan_course(fetched, &Vec::new());

    assert_eq!(plan.slug, "rust-course");
    assert_eq!(plan.content, markdown);
    assert_eq!(plan.manifest.title, "Rust Course");
    let root = &plan.sections[0];
    assert_eq!(root.file_stem, "01-rust-course");
    assert_eq!(root.children[0].file_stem, "01-setup");
    assert_eq!(root.children[1].file_stem, "02-setup-2");
    assert_eq!(root.children[1].children[0].file_stem, "01-cargo");
    assert_eq!(root.children[1].canonical_path, "rust-course/setup-2");
    assert_eq!(root.children[1].children[0].canonical_path, "rust-course/setup-2/cargo");
}

#[test]
fn write_fetched_course_uses_unique_course_slug() {
    let first = plan_course(fetched_from_paste("# Same\n".to_string(), None), &Vec::new());
    let second = plan_course(fetched_from_paste("# Same\n".to_string(), None), &vec![first.slug.clone()]);
    assert_eq!(first.slug, "same");
    assert_eq!(second.slug, "same-2");
    assert_eq!(unique_course_slug("Same", &strings(&["same", "same-2"])), "same-3");
}

#[test]
fn delete_course_removes_folder_and_path_membership() {
    let mut courses = vec![
        PathCourse { slug: "delete-me".to_string(), optional: false },
        PathCourse { slug: "other".to_string(), optional: true },
    ];
    assert!(remove_course_from_path(&mut courses, "delete-me"));
    assert_eq!(courses, vec![PathCourse { slug: "other".to_string(), optional: true }]);
    assert!(!remove_course_from_path(&mut courses, "delete-me"));
}

#[test]
fn rename_category_updates_catalog_and_course_manifests() {
    let mut catalog = vec![category("distributed-sytems", "Distributed Sytems"), category("python", "Python")];
    let mut courses = vec![strings(&["distributed-sytems", "python"])];

    let renamed = rename_category(&mut catalog, &mut courses, "distributed-sytems", "Distributed Systems").unwrap();

    assert_eq!(renamed.slug, "distributed-systems");
    assert_eq!(renamed.name, "Distributed Systems");
    assert!(catalog.iter().any(|c| c.slug == "distributed-systems"));
    assert!(!catalog.iter().any(|c| c.slug == "distributed-sytems"));
    assert_eq!(courses[0], strings(&["distributed-systems", "python"]));

    let collision = rename_category(&mut catalog, &mut courses, "distributed-systems", "Python").unwrap_err();
    assert!(collision.message().contains("already exists"));
    assert_eq!(collision, VaultError::CategoryExists("python".to_string()));
}

#[test]
fn delete_category_removes_catalog_entry_and_course_references() {
    let mut catalog = vec![category("discrete-math", "Discrete Math"), category("python", "Python")];
    let mut courses = vec![strings(&["discrete-math", "python"])];

    let removed = delete_category(&mut catalog, &mut courses, "discrete-math").unwrap();

    assert_eq!(removed, 1);
    assert!(!catalog.iter().any(|c| c.slug == "discrete-math"));
    assert!(catalog.iter().any(|c| c.slug == "python"));
    assert_eq!(courses[0], strings(&["python"]));

    let missing = delete_category(&mut catalog, &mut courses, "discrete-math").unwrap_err();
    assert!(missing.message().contains("not found"));
}

#[test]
fn renaming_to_the_same_slug_keeps_course_references() {
    let mut catalog = vec![category("python", "python")];
    let mut courses = vec![strings(&["python"])];
    let renamed = rename_category(&mut catalog, &mut courses, "python", "Python").unwrap();
    assert_eq!(renamed, category("python", "Python"));
    assert_eq!(catalog, vec![category("python", "Python")]);
    assert_eq!(courses[0], strings(&["python"]));
}

#[test]
fn renaming_checks_its_inputs() {
    let mut catalog = vec![category("python", "Python")];
    let mut courses: Vec<Vec<String>> = Vec::new();
    assert_eq!(
        rename_category(&mut catalog, &mut courses, "python", "   ").unwrap_err(),
        VaultError::EmptyCategoryName
    );
    assert_eq!(
        rename_category(&mut catalog, &mut courses, "rust", "Rust").unwrap_err(),
        VaultError::CategoryNotFound("rust".to_string())
    );
}

#[test]
fn catalog_is_sorted_by_name() {
    let sorted = sort_catalog(vec![category("b", "Beta"), category("a", "alpha"), category("c", "Gamma")]);
    let names: Vec<&str> = sorted.iter().map(|c| c.name.as_str()).collect();
    assert_eq!(names, vec!["alpha", "Beta", "Gamma"]);
    assert_eq!(sort_strings(strings(&["b", "a", "c"])), strings(&["a", "b", "c"]));
}

#[test]
fn canonical_paths_follow_the_section_tree() {
    let paths = canonical_paths_for_markdown("# Rust Course\n\n## Setup\n\n## Setup\n", None);
    assert_eq!(paths, strings(&["rust-course", "rust-course/setup", "rust-course/setup-2"]));
}

#[test]
fn orphaned_progress_paths_are_the_vanished_sections() {
    let progress = strings(&["rust-course/zeta", "rust-course/setup", "rust-course/alpha"]);
    let orphaned = orphaned_progress_paths_for_markdown(&progress, "# Rust Course\n\n## Setup\n", None);
    assert_eq!(orphaned, strings(&["rust-course/alpha", "rust-course/zeta"]));
}

#[test]
fn pruning_keeps_only_canonical_entries() {
    let mut entries = vec![("a".to_string(), 1u8), ("b".to_string(), 2u8), ("c".to_string(), 3u8)];
    let orphaned = prune_progress(&mut entries, &strings(&["b"]));
    assert_eq!(entries, vec![("b".to_string(), 2u8)]);
    assert_eq!(orphaned, strings(&["a", "c"]));
}

#[test]
fn reimport_keeps_the_manifest_and_drops_stale_progress() {
    let first = plan_course(fetched_from_paste("# Course\n\n## Old\n".to_string(), None), &Vec::new());
    let mut manifest: CourseManifest = first.manifest;
    manifest.categories = strings(&["python"]);
    let entry = SectionProgressEntry { status: ProgressStatus::Completed, completed_at: None };
    let mut progress = vec![
        ("course/old".to_string(), entry.clone()),
        ("course".to_string(), entry.clone()),
    ];
    let fetched = fetched_from_paste("# Course\n\n## New\n".to_string(), None);
    let (sections, content, orphaned) = plan_reimport(&mut manifest, fetched, &mut progress);
    assert_eq!(content, "# Course\n\n## New\n");
    assert_eq!(manifest.slug, "course");
    assert_eq!(manifest.categories, strings(&["python"]));
    assert_eq!(sections[0].children[0].canonical_path, "course/new");
    assert_eq!(orphaned, strings(&["course/old"]));
    assert_eq!(progress, vec![("course".to_string(), entry)]);
}

#[test]
fn status_reports_the_layout() {
    let layout = VaultLayout { courses_dir: true, paths_dir: false, categories_file: true, vault_git_dir: false };
    let s = status("/vault", &layout);
    assert_eq!(s.vault_path, "/vault");
    assert!(s.courses_dir_exists && !s.paths_dir_exists && s.categories_file_exists && !s.vault_git_initialized);
}

fn plan_paths(plans: &[courselib::vault::SectionPlan], out: &mut Vec<String>) {
    for p in plans {
        out.push(p.canonical_path.clone());
        plan_paths(&p.children, out);
    }
}

#[test]
fn planned_paths_are_the_reported_paths_and_distinct() {
    let markdown = "# Course\n\n## Setup\n\n## Setup\n\n### Notes\n\n## Notes\n";
    let plan = plan_course(fetched_from_paste(markdown.to_string(), None), &Vec::new());
    let mut planned = Vec::new();
    plan_paths(&plan.sections, &mut planned);
    assert_eq!(planned, canonical_paths_for_markdown(markdown, None));
    let mut sorted = planned.clone();
    sorted.sort();
    sorted.dedup();
    assert_eq!(sorted.len(), planned.len());
}
