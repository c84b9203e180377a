//! The state the application keeps while it runs: the vault, the index, and
//! the playlists fetched but not yet imported.
use vstd::prelude::*;

use crate::text::{chars_eq, chars_of, string_of};
use crate::youtube::VideoPlaylistPreview;

verus! {

/// The running application's state.
#[derive(Debug)]
pub struct AppState {
    vault_path: String,
    db_path: String,
    playlist_cache: Vec<(String, VideoPlaylistPreview)>,
}

pub open spec fn cache_keys(entries: Seq<(String, VideoPlaylistPreview)>) -> Seq<Seq<char>> {
    entries.map_values(|e: (String, VideoPlaylistPreview)| e.0@)
}

/// The position of the entry with this key, or -1.
pub open spec fn cache_index(entries: Seq<(String, VideoPlaylistPreview)>, key: Seq<char>) -> int {
    if exists|i: int| 0 <= i < entries.len() && entries[i].0@ == key {
        choose|i: int| 0 <= i < entries.len() && entries[i].0@ == key
    } else {
        -1
    }
}

impl AppState {
    /// No two cached playlists share a key.
    #[verifier::type_invariant]
    closed spec fn wf(&self) -> bool {
        cache_keys(self.playlist_cache@).no_duplicates()
    }

    pub closed spec fn vault_path_view(&self) -> Seq<char> {
        self.vault_path@
    }

    pub closed spec fn db_path_view(&self) -> Seq<char> {
        self.db_path@
    }

    /// The cached playlist for a key, if any.
    pub closed spec fn cached(&self, key: Seq<char>) -> Option<VideoPlaylistPreview> {
        cached_in(self.playlist_cache@, key)
    }

    /// A state for this vault and index, with no cached playlist.
    pub fn new(vault_path: String, db_path: String) -> (s: Self)
        ensures
            s.vault_path_view() == vault_path@,
            s.db_path_view() == db_path@,
            forall|k: Seq<char>| s.cached(k).is_none(),
    {
        let s = AppState { vault_path, db_path, playlist_cache: Vec::new() };
        assert(cache_keys(s.playlist_cache@) =~= Seq::<Seq<char>>::empty());
        s
    }

    /// The path of the SQLite index.
    pub fn db_path(&self) -> (p: &str)
        ensures
            p@ == self.db_path_view(),
    {
        self.db_path.as_str()
    }

    /// The path of the vault.
    pub fn vault_path(&self) -> (p: &str)
        ensures
            p@ == self.vault_path_view(),
    {
        self.vault_path.as_str()
    }

    /// Points the application at another vault.
    pub fn set_vault_path(&mut self, vault_path: String)
        ensures
            final(self).vault_path_view() == vault_path@,
            final(self).db_path_view() == old(self).db_path_view(),
            forall|k: Seq<char>| final(self).cached(k) == old(self).cached(k),
    {
        proof {
            use_type_invariant(&*self);
        }
        self.vault_path = vault_path;
    }

    fn find(&self, key: &str) -> (r: Option<usize>)
        ensures
            match r {
                Some(i) => i < self.playlist_cache@.len() && self.playlist_cache@[i as int].0@ == key@,
                None => forall|i: int| 0 <= i < self.playlist_cache@.len() ==> self.playlist_cache@[i].0@ != key@,
            },
    {
        let k = chars_of(key);
        let mut i: usize = 0;
        while i < self.playlist_cache.len()
            invariant
                i <= self.playlist_cache@.len(),
                k@ == key@,
                forall|j: int| 0 <= j < i ==> self.playlist_cache@[j].0@ != key@,
            decreases self.playlist_cache@.len() - i,
        {
            if chars_eq(chars_of(self.playlist_cache[i].0.as_str()).as_slice(), k.as_slice()) {
                return Some(i);
            }
            i += 1;
        }
        None
    }

    /// The cached playlist for a key.
    pub fn cached_playlist(&self, key: &str) -> (r: Option<&VideoPlaylistPreview>)
        ensures
            match r {
                Some(p) => self.cached(key@) == Some(*p),
                None => self.cached(key@).is_none(),
            },
    {
        proof {
            use_type_invariant(self);
        }
        match self.find(key) {
            Some(i) => {
                proof {
                    lemma_index_of(self.playlist_cache@, key@, i as int);
                }
                Some(&self.playlist_cache[i].1)
            },
            None => None,
        }
    }

    /// Caches a playlist under a key, replacing what was cached under it.
    pub fn cache_playlist(&mut self, key: String, preview: VideoPlaylistPreview)
        ensures
            final(self).cached(key@) == Some(preview),
            forall|k: Seq<char>| k != key@ ==> final(self).cached(k) == old(self).cached(k),
            final(self).vault_path_view() == old(self).vault_path_view(),
            final(self).db_path_view() == old(self).db_path_view(),
    {
        proof {
            use_type_invariant(&*self);
        }
        let ghost kv = key@;
        let found = self.find(key.as_str());
        let mut entries: Vec<(String, VideoPlaylistPreview)> = Vec::new();
        std::mem::swap(&mut entries, &mut self.playlist_cache);
        let ghost before = entries@;
        match found {
            Some(i) => {
                entries.set(i, (key, preview));
                let ghost e = entries@;
                assert(cache_keys(e) =~= cache_keys(before));
                proof {
                    lemma_index_of(e, kv, i as int);
                    assert forall|k: Seq<char>| k != kv implies cached_in(e, k) == cached_in(before, k) by {
                        if exists|j: int| 0 <= j < before.len() && before[j].0@ == k {
                            let j = choose|j: int| 0 <= j < before.len() && before[j].0@ == k;
                            assert(j != i);
                            assert(e[j] == before[j]);
                            lemma_index_of(e, k, j);
                            lemma_index_of(before, k, j);
                        } else {
                            assert forall|j: int| 0 <= j < e.len() implies e[j].0@ != k by {
                                if j != i {
                                    assert(e[j] == before[j]);
                                }
                            }
                        }
                    }
                }
            },
            None => {
                entries.push((key, preview));
                let ghost e = entries@;
                assert(cache_keys(e) =~= cache_keys(before).push(kv));
                proof {
                    assert(forall|j: int| 0 <= j < before.len() ==> cache_keys(before)[j] != kv);
                    assert(cache_keys(e).no_duplicates());
                    lemma_index_of(e, kv, before.len() as int);
                    assert forall|k: Seq<char>| k != kv implies cached_in(e, k) == cached_in(before, k) by {
                        if exists|j: int| 0 <= j < before.len() && before[j].0@ == k {
                            let j = choose|j: int| 0 <= j < before.len() && before[j].0@ == k;
                            assert(e[j] == before[j]);
                            lemma_index_of(e, k, j);
                            lemma_index_of(before, k, j);
                        } else {
                            assert forall|j: int| 0 <= j < e.len() implies e[j].0@ != k by {
                                if j < before.len() {
                                    assert(e[j] == before[j]);
                                }
                            }
                        }
                    }
                }
            },
        }
        self.playlist_cache = entries;
    }
}

/// The playlist cached under a key in these entries, if any.
pub open spec fn cached_in(entries: Seq<(String, VideoPlaylistPreview)>, key: Seq<char>) -> Option<VideoPlaylistPreview> {
    let i = cache_index(entries, key);
    if i < 0 {
        None
    } else {
        Some(entries[i].1)
    }
}

proof fn lemma_index_of(e: Seq<(String, VideoPlaylistPreview)>, key: Seq<char>, i: int)
    requires
        cache_keys(e).no_duplicates(),
        0 <= i < e.len(),
        e[i].0@ == key,
    ensures
        cache_index(e, key) == i,
{
    let j = cache_index(e, key);
    assert(cache_keys(e)[i] == key);
    assert(0 <= j < e.len() && e[j].0@ == key);
    assert(cache_keys(e)[j] == key);
}

} // verus!
