use courselib::db::{clear_statements, initialize, reset_statements, SCHEMA_VERSION};
use courselib::git::{
    git_setup, needs_commit, pointer_file, refusal_message, retry_delay, snapshot_message,
    worktree_clean, GitSetup, MAX_ATTEMPTS,
};
use courselib::state::AppState;
use courselib::youtube::{VideoInfo, VideoPlaylistPreview};

fn preview(id: &str) -> VideoPlaylistPreview {
    VideoPlaylistPreview {
        playlist_id: id.to_string(),
        playlist_title: id.to_string(),
        playlist_url: String::new(),
        video_count: 0,
        videos: Vec::<VideoInfo>::new(),
    }
}

#[test]
fn cached_playlists_are_read_back() {
    let mut state = AppState::new("/vault".to_string(), "/db".to_string());
    assert!(state.cached_playlist("a").is_none());
    state.cache_playlist("a".to_string(), preview("one"));
    state.cache_playlist("b".to_string(), preview("two"));
    state.cache_playlist("a".to_string(), preview("three"));
    assert_eq!(state.cached_playlist("a").unwrap().playlist_id, "three");
    assert_eq!(state.cached_playlist("b").unwrap().playlist_id, "two");
    assert_eq!(state.db_path(), "/db");
    state.set_vault_path("/other".to_string());
    assert_eq!(state.vault_path(), "/other");
}

#[test]
fn older_schemas_are_reset() {
    assert!(initialize(1).reset);
    assert!(!initialize(SCHEMA_VERSION).reset);
    assert_eq!(initialize(0).version, SCHEMA_VERSION);
    assert!(reset_statements().starts_with("DROP TABLE IF EXISTS section_search;"));
    assert!(clear_statements().ends_with("DELETE FROM courses;"));
}

#[test]
fn git_metadata_lives_in_vaultgit() {
    assert_eq!(git_setup(true, false), GitSetup::Link { write_pointer: true });
    assert_eq!(git_setup(true, true), GitSetup::Link { write_pointer: false });
    assert_eq!(git_setup(false, true), GitSetup::Refuse);
    assert_eq!(git_setup(false, false), GitSetup::Create);
    assert_eq!(pointer_file(), "gitdir: .vaultgit\n");
    assert!(refusal_message("/v").contains("already contains Git metadata"));
    assert!(worktree_clean(&vec![".git".to_string(), ".vaultgit/HEAD".to_string()]));
    assert!(!worktree_clean(&vec!["courses/a".to_string()]));
    assert!(needs_commit(false, true));
    assert!(!needs_commit(true, true));
    assert_eq!(snapshot_message("rust"), "Snapshot before re-importing rust");
}

#[test]
fn retries_back_off_linearly() {
    assert_eq!(retry_delay(1), Some(25));
    assert_eq!(retry_delay(3), Some(75));
    assert_eq!(retry_delay(MAX_ATTEMPTS), None);
}
