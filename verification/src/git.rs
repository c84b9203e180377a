//! Version history of the vault: where its Git metadata lives, when a snapshot
//! is due, and how file operations are retried.
use vstd::prelude::*;

use crate::text::{chars_of, concat2, has_prefix, starts_with, string_of};

verus! {

/// What setting up the vault's Git metadata must do.
#[derive(Debug, Clone, Copy, PartialEq, Eq)]
pub enum GitSetup {
    /// `.vaultgit` exists: write the `.git` pointer file unless it is there.
    Link { write_pointer: bool },
    /// A `.git` entry of another repository is in the way.
    Refuse,
    /// Create a repository, then move its `.git` folder to `.vaultgit` and point to it.
    Create,
}

/// The setup that the vault's entries call for: the metadata lives in
/// `.vaultgit`, with a `.git` file pointing at it.
pub fn git_setup(vaultgit_is_dir: bool, git_entry_exists: bool) -> (s: GitSetup)
    ensures
        vaultgit_is_dir ==> s == (GitSetup::Link { write_pointer: !git_entry_exists }),
        !vaultgit_is_dir && git_entry_exists ==> s == GitSetup::Refuse,
        !vaultgit_is_dir && !git_entry_exists ==> s == GitSetup::Create,
{
    if vaultgit_is_dir {
        GitSetup::Link { write_pointer: !git_entry_exists }
    } else if git_entry_exists {
        GitSetup::Refuse
    } else {
        GitSetup::Create
    }
}

pub open spec fn pointer_file_spec() -> Seq<char> {
    "gitdir: .vaultgit\n"@
}

/// The contents of the `.git` pointer file.
pub fn pointer_file() -> (s: String)
    ensures
        s@ == pointer_file_spec(),
{
    string_of(chars_of("gitdir: .vaultgit\n").as_slice())
}

pub open spec fn refusal_spec(vault_path: Seq<char>) -> Seq<char> {
    vault_path + " already contains Git metadata; choose a vault folder without an existing .git entry"@
}

/// Why a vault with a foreign `.git` entry is refused.
pub fn refusal_message(vault_path: &str) -> (m: String)
    ensures
        m@ == refusal_spec(vault_path@),
{
    concat2(vault_path, " already contains Git metadata; choose a vault folder without an existing .git entry")
}

/// A changed path that does not count: the metadata itself.
pub open spec fn is_metadata_path(path: Seq<char>) -> bool {
    has_prefix(path, ".vaultgit"@) || path == ".git"@
}

/// Whether a status listing shows nothing but the metadata.
pub fn worktree_clean(changed_paths: &Vec<String>) -> (clean: bool)
    ensures
        clean == forall|i: int| 0 <= i < changed_paths@.len() ==> is_metadata_path(#[trigger] changed_paths@[i]@),
{
    let mut i: usize = 0;
    while i < changed_paths.len()
        invariant
            i <= changed_paths@.len(),
            forall|j: int| 0 <= j < i ==> is_metadata_path(#[trigger] changed_paths@[j]@),
        decreases changed_paths@.len() - i,
    {
        let p = chars_of(changed_paths[i].as_str());
        let meta = starts_with(p.as_slice(), chars_of(".vaultgit").as_slice()) || crate::text::chars_eq(
            p.as_slice(),
            chars_of(".git").as_slice(),
        );
        if !meta {
            return false;
        }
        i += 1;
    }
    true
}

/// A snapshot is committed unless the last one already holds everything.
pub fn needs_commit(head_exists: bool, clean: bool) -> (b: bool)
    ensures
        b == !(head_exists && clean),
{
    !(head_exists && clean)
}

pub open spec fn snapshot_message_spec(course_slug: Seq<char>) -> Seq<char> {
    "Snapshot before re-importing "@ + course_slug
}

/// The message of the snapshot taken before a course is re-imported.
pub fn snapshot_message(course_slug: &str) -> (m: String)
    ensures
        m@ == snapshot_message_spec(course_slug@),
{
    concat2("Snapshot before re-importing ", course_slug)
}

/* Retrying file operations */

/// How many times a file operation is tried.
pub const MAX_ATTEMPTS: u32 = 8;

/// The first pause between attempts, in milliseconds; later ones grow linearly.
pub const RETRY_DELAY_MS: u64 = 25;

/// The pause after failed attempt `attempt` (1-based), or `None` after the last.
pub fn retry_delay(attempt: u32) -> (d: Option<u64>)
    requires
        1 <= attempt <= MAX_ATTEMPTS,
    ensures
        attempt < MAX_ATTEMPTS ==> d == Some((RETRY_DELAY_MS * attempt) as u64),
        attempt == MAX_ATTEMPTS ==> d.is_none(),
{
    if attempt < MAX_ATTEMPTS {
        Some(RETRY_DELAY_MS * attempt as u64)
    } else {
        None
    }
}

} // verus!
