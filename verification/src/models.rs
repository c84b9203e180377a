//! Records shared by the vault, the index and the application.
use vstd::prelude::*;

use crate::source_fetch::CourseSource;

verus! {

/// Settings persisted between runs.
#[derive(Debug, Clone, PartialEq, Eq)]
pub struct AppSettings {
    pub vault_path: String,
}

/// What the vault folder holds.
#[derive(Debug, Clone, PartialEq, Eq)]
pub struct AppStatus {
    pub vault_path: String,
    pub courses_dir_exists: bool,
    pub paths_dir_exists: bool,
    pub categories_file_exists: bool,
    pub vault_git_initialized: bool,
}

/// An entry of the category catalog.
#[derive(Debug, Clone, PartialEq, Eq)]
pub struct Category {
    pub slug: String,
    pub name: String,
}

/// How far a learner got through a section.
#[derive(Debug, Clone, Copy, PartialEq, Eq, Structural)]
pub enum ProgressStatus {
    NotStarted,
    InProgress,
    Completed,
}

/// The recorded progress of one section.
#[derive(Debug, Clone, PartialEq, Eq)]
pub struct SectionProgressEntry {
    pub status: ProgressStatus,
    pub completed_at: Option<String>,
}

/// The manifest of a course folder.
#[derive(Debug, Clone, PartialEq, Eq)]
pub struct CourseManifest {
    pub title: String,
    pub slug: String,
    pub description: Option<String>,
    pub categories: Vec<String>,
    pub source: CourseSource,
}

/// A section written to the vault.
#[derive(Debug, PartialEq, Eq)]
pub struct WrittenSection {
    pub title: String,
    pub canonical_path: String,
    pub vault_path: String,
    pub heading_level: u8,
    pub order_index: usize,
    pub children: Vec<WrittenSection>,
}

/// A course written to the vault.
#[derive(Debug, PartialEq, Eq)]
pub struct WrittenCourse {
    pub title: String,
    pub slug: String,
    pub vault_path: String,
    pub sections: Vec<WrittenSection>,
}

/// A course of a learning path, as the path's manifest lists it.
#[derive(Debug, Clone, PartialEq, Eq)]
pub struct PathCourse {
    pub slug: String,
    pub optional: bool,
}

/// The manifest of a learning path.
#[derive(Debug, Clone, PartialEq, Eq)]
pub struct PathManifest {
    pub title: String,
    pub slug: String,
    pub description: Option<String>,
    pub courses: Vec<PathCourse>,
}

} // verus!
