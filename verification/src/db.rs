//! The SQLite index: which schema it must have, and how an older one is replaced.
use vstd::prelude::*;

use crate::text::chars_of;

verus! {

/// The schema version the index is built for.
pub const SCHEMA_VERSION: i64 = 2;

/// What opening the index must do to its schema.
#[derive(Debug, Clone, Copy, PartialEq, Eq)]
pub struct SchemaPlan {
    /// Whether the old tables are dropped first. The index is disposable: an
    /// older schema is recreated, and the index is rebuilt from the vault.
    pub reset: bool,
    /// The version recorded once the schema is applied.
    pub version: i64,
}

/// The schema plan for an index whose recorded version is `current_version`.
pub fn initialize(current_version: i64) -> (plan: SchemaPlan)
    ensures
        plan.reset == (current_version < SCHEMA_VERSION),
        plan.version == SCHEMA_VERSION,
{
    SchemaPlan { reset: current_version < SCHEMA_VERSION, version: SCHEMA_VERSION }
}

pub open spec fn reset_sql() -> Seq<char> {
    "DROP TABLE IF EXISTS section_search;\nDROP TABLE IF EXISTS section_progress;\nDROP TABLE IF EXISTS course_path_items;\nDROP TABLE IF EXISTS course_paths;\nDROP TABLE IF EXISTS course_categories;\nDROP TABLE IF EXISTS categories;\nDROP TABLE IF EXISTS course_sections;\nDROP TABLE IF EXISTS courses;"@
}

/// The statements that drop an older index, children before parents.
pub fn reset_statements() -> (sql: String)
    ensures
        sql@ == reset_sql(),
{
    let text = chars_of(
        "DROP TABLE IF EXISTS section_search;\nDROP TABLE IF EXISTS section_progress;\nDROP TABLE IF EXISTS course_path_items;\nDROP TABLE IF EXISTS course_paths;\nDROP TABLE IF EXISTS course_categories;\nDROP TABLE IF EXISTS categories;\nDROP TABLE IF EXISTS course_sections;\nDROP TABLE IF EXISTS courses;",
    );
    crate::text::string_of(text.as_slice())
}

pub open spec fn clear_sql() -> Seq<char> {
    "DELETE FROM section_search;\nDELETE FROM section_progress;\nDELETE FROM course_path_items;\nDELETE FROM course_paths;\nDELETE FROM course_categories;\nDELETE FROM categories;\nDELETE FROM course_sections;\nDELETE FROM courses;"@
}

/// The statements that empty the index before a full rebuild.
pub fn clear_statements() -> (sql: String)
    ensures
        sql@ == clear_sql(),
{
    let text = chars_of(
        "DELETE FROM section_search;\nDELETE FROM section_progress;\nDELETE FROM course_path_items;\nDELETE FROM course_paths;\nDELETE FROM course_categories;\nDELETE FROM categories;\nDELETE FROM course_sections;\nDELETE FROM courses;",
    );
    crate::text::string_of(text.as_slice())
}

} // verus!
