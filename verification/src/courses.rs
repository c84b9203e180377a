//! Course, category, learning path and progress rules behind the app's commands.
use vstd::prelude::*;

use crate::models::{Category, CourseManifest, PathCourse, PathManifest, ProgressStatus, SectionProgressEntry};
use crate::slugs::{first_free, first_free_numbered};
use crate::text::{chars_eq, chars_of, concat2, string_of, trim, trim_str};
use crate::indexer::{lemma_order_sort_map_payload, map_ordered, order_sort};
use crate::parser::{hint_view, parsed_course_is, ParsedCourse};
use crate::source_fetch::{utc_timestamp_shape, FetchedMarkdown};
use crate::vault::{
    absent_from, group_paths, orphaned_progress_paths_for_markdown, sorted_strings,
    catalog_view, path_course_view, path_courses_view, seq_lt, sort_catalog, sorted_catalog, strs,
    vault_slug, vault_slug_chars,
};

verus! {

/* Requests */

/// Where a course to import comes from.
#[derive(Debug, Clone, PartialEq, Eq)]
pub enum ImportCourseSource {
    Link { url: String },
    Pasted { content: String, title_hint: Option<String> },
}

/// Which courses to list.
#[derive(Debug, Clone, PartialEq, Eq)]
pub struct CourseListFilter {
    pub category: Option<String>,
    pub include_archived: Option<bool>,
}

impl Default for CourseListFilter {
    fn default() -> (f: Self)
        ensures
            f.category.is_none(),
            f.include_archived.is_none(),
    {
        CourseListFilter { category: None, include_archived: None }
    }
}

/// Whether the listing includes archived courses (not unless asked).
pub fn includes_archived(filter: &CourseListFilter) -> (b: bool)
    ensures
        b == (filter.include_archived == Some(true)),
{
    match filter.include_archived {
        Some(b) => b,
        None => false,
    }
}

/// Changes to a course's metadata; absent fields stay as they are.
#[derive(Debug, Clone, PartialEq, Eq)]
pub struct CourseMetaPatch {
    pub title: Option<String>,
    pub description: Option<String>,
    pub categories: Option<Vec<String>>,
}

impl Default for CourseMetaPatch {
    fn default() -> (p: Self)
        ensures
            p.title.is_none(),
            p.description.is_none(),
            p.categories.is_none(),
    {
        CourseMetaPatch { title: None, description: None, categories: None }
    }
}

/// A course's place in a reordered path, with its optional flag if it changes.
#[derive(Debug, Clone, PartialEq, Eq)]
pub struct PathOrderingItem {
    pub course_id: String,
    pub optional: Option<bool>,
}

/* Errors */

/// Why a command is refused.
#[derive(Debug, Clone, PartialEq, Eq)]
pub enum CourseError {
    EmptyCourseTitle,
    EmptyPathTitle,
    EmptyCategoryName,
    UnknownCategory(String),
    NotInPath(String),
    NoSourceUrl,
    CourseNotFound,
    SectionNotFound,
    PathNotFound,
}

pub enum CourseErrorView {
    EmptyCourseTitle,
    EmptyPathTitle,
    EmptyCategoryName,
    UnknownCategory(Seq<char>),
    NotInPath(Seq<char>),
    NoSourceUrl,
    CourseNotFound,
    SectionNotFound,
    PathNotFound,
}

impl View for CourseError {
    type V = CourseErrorView;

    open spec fn view(&self) -> CourseErrorView {
        match self {
            CourseError::EmptyCourseTitle => CourseErrorView::EmptyCourseTitle,
            CourseError::EmptyPathTitle => CourseErrorView::EmptyPathTitle,
            CourseError::EmptyCategoryName => CourseErrorView::EmptyCategoryName,
            CourseError::UnknownCategory(s) => CourseErrorView::UnknownCategory(s@),
            CourseError::NotInPath(s) => CourseErrorView::NotInPath(s@),
            CourseError::NoSourceUrl => CourseErrorView::NoSourceUrl,
            CourseError::CourseNotFound => CourseErrorView::CourseNotFound,
            CourseError::SectionNotFound => CourseErrorView::SectionNotFound,
            CourseError::PathNotFound => CourseErrorView::PathNotFound,
        }
    }
}

pub open spec fn course_error_message(e: CourseErrorView) -> Seq<char> {
    match e {
        CourseErrorView::EmptyCourseTitle => "course title cannot be empty"@,
        CourseErrorView::EmptyPathTitle => "path title cannot be empty"@,
        CourseErrorView::EmptyCategoryName => "category name cannot be empty"@,
        CourseErrorView::UnknownCategory(s) => "unknown category: "@ + s,
        CourseErrorView::NotInPath(s) => "course is not in path: "@ + s,
        CourseErrorView::NoSourceUrl => "pasted courses cannot be re-imported because they have no source URL"@,
        CourseErrorView::CourseNotFound => "course not found"@,
        CourseErrorView::SectionNotFound => "section not found"@,
        CourseErrorView::PathNotFound => "path not found"@,
    }
}

fn text(s: &str) -> (out: String)
    ensures
        out@ == s@,
{
    string_of(chars_of(s).as_slice())
}

impl CourseError {
    /// The human-readable message of the error.
    pub fn message(&self) -> (m: String)
        ensures
            m@ == course_error_message(self@),
    {
        match self {
            CourseError::EmptyCourseTitle => text("course title cannot be empty"),
            CourseError::EmptyPathTitle => text("path title cannot be empty"),
            CourseError::EmptyCategoryName => text("category name cannot be empty"),
            CourseError::UnknownCategory(s) => concat2("unknown category: ", s.as_str()),
            CourseError::NotInPath(s) => concat2("course is not in path: ", s.as_str()),
            CourseError::NoSourceUrl => text("pasted courses cannot be re-imported because they have no source URL"),
            CourseError::CourseNotFound => text("course not found"),
            CourseError::SectionNotFound => text("section not found"),
            CourseError::PathNotFound => text("path not found"),
        }
    }
}

/* Progress */

pub open spec fn status_from_name(value: Seq<char>) -> ProgressStatus {
    if value == "completed"@ {
        ProgressStatus::Completed
    } else if value == "in_progress"@ {
        ProgressStatus::InProgress
    } else {
        ProgressStatus::NotStarted
    }
}

/// The status a stored status name stands for; anything unknown is not started.
pub fn progress_status_from_str(value: &str) -> (s: ProgressStatus)
    ensures
        s == status_from_name(value@),
{
    let v = chars_of(value);
    if chars_eq(v.as_slice(), chars_of("completed").as_slice()) {
        ProgressStatus::Completed
    } else if chars_eq(v.as_slice(), chars_of("in_progress").as_slice()) {
        ProgressStatus::InProgress
    } else {
        ProgressStatus::NotStarted
    }
}

pub open spec fn status_name(s: ProgressStatus) -> Seq<char> {
    match s {
        ProgressStatus::NotStarted => "not_started"@,
        ProgressStatus::InProgress => "in_progress"@,
        ProgressStatus::Completed => "completed"@,
    }
}

/// The name a status is stored under.
pub fn progress_status_name(s: ProgressStatus) -> (name: &'static str)
    ensures
        name@ == status_name(s),
{
    match s {
        ProgressStatus::NotStarted => "not_started",
        ProgressStatus::InProgress => "in_progress",
        ProgressStatus::Completed => "completed",
    }
}

/// A progress entry: its status and when the section was completed.
pub open spec fn entry_view(e: SectionProgressEntry) -> (ProgressStatus, Option<Seq<char>>) {
    (
        e.status,
        match e.completed_at {
            Some(t) => Some(t@),
            None => None,
        },
    )
}

/// Progress entries by canonical path.
pub open spec fn progress_view(entries: Seq<(String, SectionProgressEntry)>) -> Seq<(Seq<char>, (ProgressStatus, Option<Seq<char>>))> {
    entries.map_values(|e: (String, SectionProgressEntry)| (e.0@, entry_view(e.1)))
}

/// Keys in strictly increasing `String` order, as a `BTreeMap` holds them.
pub open spec fn keys_sorted<V>(e: Seq<(Seq<char>, V)>) -> bool {
    forall|i: int, j: int| 0 <= i < j < e.len() ==> seq_lt(#[trigger] e[i].0, #[trigger] e[j].0)
}

/// The first position at or after `j` whose key is not less than `key`.
pub open spec fn lower_bound<V>(e: Seq<(Seq<char>, V)>, key: Seq<char>, j: int) -> int
    decreases e.len() - j,
{
    if j < 0 || j >= e.len() {
        e.len() as int
    } else if seq_lt(e[j].0, key) {
        lower_bound(e, key, j + 1)
    } else {
        j
    }
}

/// `BTreeMap::insert`.
pub open spec fn put_key<V>(e: Seq<(Seq<char>, V)>, key: Seq<char>, v: V) -> Seq<(Seq<char>, V)> {
    let i = lower_bound(e, key, 0);
    if i < e.len() && e[i].0 == key {
        e.update(i, (key, v))
    } else {
        e.insert(i, (key, v))
    }
}

/// `BTreeMap::remove`.
pub open spec fn remove_key<V>(e: Seq<(Seq<char>, V)>, key: Seq<char>) -> Seq<(Seq<char>, V)>
    decreases e.len(),
{
    if e.len() == 0 {
        e
    } else {
        let rest = remove_key(e.drop_last(), key);
        if e.last().0 == key {
            rest
        } else {
            rest.push(e.last())
        }
    }
}

/// `BTreeMap::get`.
pub open spec fn get_key<V>(e: Seq<(Seq<char>, V)>, key: Seq<char>) -> Option<V>
    decreases e.len(),
{
    if e.len() == 0 {
        None
    } else if e.last().0 == key {
        Some(e.last().1)
    } else {
        get_key(e.drop_last(), key)
    }
}

/// `write_progress_entry`: not started removes the entry; another status is
/// recorded, completed with the time it was marked.
pub open spec fn mark_spec(
    e: Seq<(Seq<char>, (ProgressStatus, Option<Seq<char>>))>,
    path: Seq<char>,
    status: ProgressStatus,
    now: Seq<char>,
) -> Seq<(Seq<char>, (ProgressStatus, Option<Seq<char>>))> {
    if status == ProgressStatus::NotStarted {
        remove_key(e, path)
    } else {
        put_key(e, path, (status, if status == ProgressStatus::Completed { Some(now) } else { None }))
    }
}

fn progress_lower_bound(entries: &Vec<(String, SectionProgressEntry)>, key: &[char]) -> (i: usize)
    ensures
        i as int == lower_bound(progress_view(entries@), key@, 0),
        i <= entries@.len(),
{
    let ghost pv = progress_view(entries@);
    let mut i: usize = 0;
    while i < entries.len()
        invariant
            i <= entries@.len(),
            pv == progress_view(entries@),
            lower_bound(pv, key@, 0) == lower_bound(pv, key@, i as int),
        decreases entries@.len() - i,
    {
        assert(pv[i as int].0 == entries@[i as int].0@);
        if !crate::vault::chars_lt(chars_of(entries[i].0.as_str()).as_slice(), key) {
            return i;
        }
        i += 1;
    }
    i
}

/// Records a section's progress at the time `now`.
pub fn record_progress(
    entries: &mut Vec<(String, SectionProgressEntry)>,
    canonical_path: &str,
    status: ProgressStatus,
    now: String,
)
    ensures
        progress_view(final(entries)@) == mark_spec(progress_view(old(entries)@), canonical_path@, status, now@),
{
    let ghost pv = progress_view(entries@);
    let key = chars_of(canonical_path);
    if status == ProgressStatus::NotStarted {
        let mut rest: Vec<(String, SectionProgressEntry)> = Vec::new();
        std::mem::swap(&mut rest, entries);
        let ghost mut k: int = 0;
        while rest.len() > 0
            invariant
                0 <= k <= pv.len(),
                progress_view(rest@) == pv.skip(k),
                progress_view(entries@) == remove_key(pv.take(k), key@),
            decreases rest@.len(),
        {
            let ghost rv = rest@;
            assert(progress_view(rv).len() == rv.len());
            assert(k < pv.len());
            let e = rest.remove(0);
            assert(progress_view(rv)[0] == (e.0@, entry_view(e.1)));
            assert(pv.skip(k)[0] == pv[k]);
            assert(pv.take(k + 1).drop_last() =~= pv.take(k));
            assert(pv.take(k + 1).last() == pv[k]);
            if !chars_eq(chars_of(e.0.as_str()).as_slice(), key.as_slice()) {
                let ghost before = progress_view(entries@);
                entries.push(e);
                assert(progress_view(entries@) =~= before.push(pv[k]));
            }
            assert forall|i: int| 0 <= i < rest@.len() implies #[trigger] progress_view(rest@)[i] == pv.skip(k + 1)[i] by {
                assert(rest@[i] == rv[i + 1]);
                assert(progress_view(rv)[i + 1] == pv.skip(k)[i + 1]);
            }
            assert(progress_view(rest@) =~= pv.skip(k + 1));
            proof {
                k = k + 1;
            }
        }
        assert(pv.take(k) =~= pv);
        return;
    }
    let completed_at = if status == ProgressStatus::Completed {
        Some(now)
    } else {
        None
    };
    let entry = SectionProgressEntry { status, completed_at };
    let ghost v = entry_view(entry);
    let i = progress_lower_bound(entries, key.as_slice());
    if i < entries.len() && chars_eq(chars_of(entries[i].0.as_str()).as_slice(), key.as_slice()) {
        entries.set(i, (string_of(key.as_slice()), entry));
        assert(progress_view(entries@) =~= pv.update(i as int, (key@, v)));
    } else {
        entries.insert(i, (string_of(key.as_slice()), entry));
        assert(progress_view(entries@) =~= pv.insert(i as int, (key@, v)));
    }
}

/// Records a section's progress now: a completed section is stamped with the
/// current time (RFC 3339, seconds, UTC; the Unix epoch when the clock gives
/// none); which instant the clock gave is not stated, only the shape.
pub fn record_progress_now(entries: &mut Vec<(String, SectionProgressEntry)>, canonical_path: &str, status: ProgressStatus)
    ensures
        exists|now: Seq<char>|
            utc_timestamp_shape(now) && progress_view(final(entries)@) == mark_spec(
                progress_view(old(entries)@),
                canonical_path@,
                status,
                now,
            ),
{
    let now = crate::source_fetch::imported_at_now();
    record_progress(entries, canonical_path, status, now);
}

/* Categories */

/// `normalize_course_categories`: the requested slugs trimmed, blanks and
/// repeats dropped, each required to be in the catalog.
pub open spec fn normalize_spec(known: Seq<Seq<char>>, requested: Seq<Seq<char>>) -> Result<Seq<Seq<char>>, CourseErrorView>
    decreases requested.len(),
{
    if requested.len() == 0 {
        Ok(Seq::empty())
    } else {
        match normalize_spec(known, requested.drop_last()) {
            Err(e) => Err(e),
            Ok(prev) => {
                let slug = trim(requested.last());
                if slug.len() == 0 || seen_before(requested.drop_last(), slug) {
                    Ok(prev)
                } else if !known.contains(slug) {
                    Err(CourseErrorView::UnknownCategory(slug))
                } else {
                    Ok(prev.push(slug))
                }
            },
        }
    }
}

proof fn lemma_normalize_err_stable(known: Seq<Seq<char>>, rq: Seq<Seq<char>>, k: int, e: CourseErrorView)
    requires
        0 <= k <= rq.len(),
        normalize_spec(known, rq.take(k)) == Err::<Seq<Seq<char>>, CourseErrorView>(e),
    ensures
        normalize_spec(known, rq) == Err::<Seq<Seq<char>>, CourseErrorView>(e),
    decreases rq.len() - k,
{
    if k < rq.len() {
        assert(rq.take(k + 1).drop_last() =~= rq.take(k));
        lemma_normalize_err_stable(known, rq, k + 1, e);
    } else {
        assert(rq.take(k) =~= rq);
    }
}

/// Whether a trimmed slug was already requested (blank ones never count).
pub open spec fn seen_before(requested: Seq<Seq<char>>, slug: Seq<char>) -> bool {
    exists|i: int| 0 <= i < requested.len() && trim(#[trigger] requested[i]) == slug
}

pub open spec fn strings_result_view(r: Result<Vec<String>, CourseError>) -> Result<Seq<Seq<char>>, CourseErrorView> {
    match r {
        Ok(v) => Ok(strs(v@)),
        Err(e) => Err(e@),
    }
}

fn contains_view(v: &Vec<String>, s: &[char]) -> (r: bool)
    ensures
        r == strs(v@).contains(s@),
{
    let mut i: usize = 0;
    while i < v.len()
        invariant
            i <= v@.len(),
            forall|j: int| 0 <= j < i ==> (#[trigger] v@[j])@ != s@,
        decreases v@.len() - i,
    {
        if chars_eq(chars_of(v[i].as_str()).as_slice(), s) {
            assert(strs(v@)[i as int] == s@);
            return true;
        }
        i += 1;
    }
    assert forall|j: int| 0 <= j < strs(v@).len() implies strs(v@)[j] != s@ by {
        assert(v@[j]@ != s@);
    }
    false
}

/// The categories a course is given: trimmed, without blanks or repeats, each
/// one in the catalog.
pub fn normalize_course_categories(known: &Vec<String>, requested: Vec<String>) -> (r: Result<Vec<String>, CourseError>)
    ensures
        strings_result_view(r) == normalize_spec(strs(known@), strs(requested@)),
{
    let ghost kv = strs(known@);
    let ghost rq = strs(requested@);
    let mut seen: Vec<String> = Vec::new();
    let mut out: Vec<String> = Vec::new();
    let mut i: usize = 0;
    assert(rq.take(0) =~= Seq::<Seq<char>>::empty());
    assert(strs(out@) =~= Seq::<Seq<char>>::empty());
    assert(strs(seen@) =~= Seq::<Seq<char>>::empty());
    while i < requested.len()
        invariant
            i <= requested@.len(),
            kv == strs(known@),
            rq == strs(requested@),
            normalize_spec(kv, rq.take(i as int)) == Ok::<Seq<Seq<char>>, CourseErrorView>(strs(out@)),
            forall|t: Seq<char>| #[trigger] strs(seen@).contains(t) <==> (t.len() > 0 && seen_before(rq.take(i as int), t)),
        decreases requested@.len() - i,
    {
        assert(rq.take(i + 1).drop_last() =~= rq.take(i as int));
        assert(rq.take(i + 1).last() == requested@[i as int]@);
        let slug = trim_str(requested[i].as_str());
        let ghost before_seen = strs(seen@);
        assert forall|t: Seq<char>| #[trigger] before_seen.contains(t) <==> (t.len() > 0 && seen_before(rq.take(i as int), t)) by {
            assert(strs(seen@).contains(t) <==> (t.len() > 0 && seen_before(rq.take(i as int), t)));
        }
        assert forall|t: Seq<char>| seen_before(rq.take(i + 1), t) <==> (seen_before(rq.take(i as int), t) || trim(rq[i as int]) == t) by {
            if seen_before(rq.take(i + 1), t) {
                let j = choose|j: int| 0 <= j < rq.take(i + 1).len() && trim(#[trigger] rq.take(i + 1)[j]) == t;
                if j < i {
                    assert(rq.take(i as int)[j] == rq.take(i + 1)[j]);
                }
            }
            if seen_before(rq.take(i as int), t) {
                let j = choose|j: int| 0 <= j < rq.take(i as int).len() && trim(#[trigger] rq.take(i as int)[j]) == t;
                assert(rq.take(i + 1)[j] == rq.take(i as int)[j]);
            }
            if trim(rq[i as int]) == t {
                assert(rq.take(i + 1)[i as int] == rq[i as int]);
            }
        }
        assert(slug@ == trim(rq[i as int]));
        if slug.len() == 0 || contains_view(&seen, slug.as_slice()) {
            assert(normalize_spec(kv, rq.take(i + 1)) == normalize_spec(kv, rq.take(i as int)));
            assert forall|t: Seq<char>| #[trigger] strs(seen@).contains(t) <==> (t.len() > 0 && seen_before(rq.take(i + 1), t)) by {
                if t == slug@ && t.len() > 0 {
                    assert(strs(seen@).contains(t));
                }
            }
            i += 1;
            continue;
        }
        assert(!seen_before(rq.take(i as int), slug@));
        seen.push(string_of(slug.as_slice()));
        assert(strs(seen@) =~= before_seen.push(slug@));
        assert forall|t: Seq<char>| #[trigger] strs(seen@).contains(t) <==> (t.len() > 0 && seen_before(rq.take(i + 1), t)) by {
            if t == slug@ {
                assert(strs(seen@)[before_seen.len() as int] == slug@);
                assert(seen_before(rq.take(i + 1), t));
            } else {
                if strs(seen@).contains(t) {
                    let j = choose|j: int| 0 <= j < strs(seen@).len() && strs(seen@)[j] == t;
                    assert(j < before_seen.len());
                    assert(before_seen[j] == t);
                    assert(before_seen.contains(t));
                }
                if before_seen.contains(t) {
                    let j = choose|j: int| 0 <= j < before_seen.len() && before_seen[j] == t;
                    assert(strs(seen@)[j] == t);
                }
                assert(seen_before(rq.take(i + 1), t) <==> seen_before(rq.take(i as int), t));
            }
        }
        if !contains_view(known, slug.as_slice()) {
            proof {
                lemma_normalize_err_stable(kv, rq, i + 1, CourseErrorView::UnknownCategory(slug@));
            }
            return Err(CourseError::UnknownCategory(string_of(slug.as_slice())));
        }
        let ghost before_out = strs(out@);
        out.push(string_of(slug.as_slice()));
        assert(strs(out@) =~= before_out.push(slug@));
        i += 1;
    }
    assert(rq.take(i as int) =~= rq);
    Ok(out)
}

/// The catalog's slugs.
pub fn catalog_slugs(catalog: &Vec<Category>) -> (slugs: Vec<String>)
    ensures
        strs(slugs@) == catalog_view(catalog@).map_values(|c: (Seq<char>, Seq<char>)| c.0),
{
    let ghost cv = catalog_view(catalog@).map_values(|c: (Seq<char>, Seq<char>)| c.0);
    let mut out: Vec<String> = Vec::new();
    let mut i: usize = 0;
    while i < catalog.len()
        invariant
            i <= catalog@.len(),
            cv == catalog_view(catalog@).map_values(|c: (Seq<char>, Seq<char>)| c.0),
            strs(out@) == cv.take(i as int),
        decreases catalog@.len() - i,
    {
        let ghost before = strs(out@);
        out.push(text(catalog[i].slug.as_str()));
        assert(strs(out@) =~= before.push(cv[i as int]));
        assert(cv.take(i + 1) =~= cv.take(i as int).push(cv[i as int]));
        i += 1;
    }
    assert(cv.take(i as int) =~= cv);
    out
}

/// `create_category`: a new catalog entry under the trimmed name, with the
/// name's slug numbered past the catalog's slugs.
pub open spec fn new_category_spec(cats: Seq<(Seq<char>, Seq<char>)>, name: Seq<char>) -> Result<(Seq<char>, Seq<char>), CourseErrorView> {
    let n = trim(name);
    if n.len() == 0 {
        Err(CourseErrorView::EmptyCategoryName)
    } else {
        Ok(
            (
                first_free(vault_slug(n, "category"@), Seq::empty(), cats.map_values(|c: (Seq<char>, Seq<char>)| c.0)),
                n,
            ),
        )
    }
}

/// Adds a category to the catalog; the catalog stays sorted by name.
pub fn add_category(catalog: &mut Vec<Category>, name: &str) -> (r: Result<Category, CourseError>)
    ensures
        match r {
            Ok(c) => new_category_spec(catalog_view(old(catalog)@), name@) == Ok::<(Seq<char>, Seq<char>), CourseErrorView>(
                (c.slug@, c.name@),
            ) && catalog_view(final(catalog)@) == sorted_catalog(catalog_view(old(catalog)@).push((c.slug@, c.name@))),
            Err(e) => new_category_spec(catalog_view(old(catalog)@), name@) == Err::<(Seq<char>, Seq<char>), CourseErrorView>(
                e@,
            ) && final(catalog)@ == old(catalog)@,
        },
{
    let trimmed = trim_str(name);
    if trimmed.len() == 0 {
        return Err(CourseError::EmptyCategoryName);
    }
    let tn = string_of(trimmed.as_slice());
    let base = vault_slug_chars(tn.as_str(), "category");
    let slugs = catalog_slugs(catalog);
    let empty: Vec<char> = Vec::new();
    let slug = first_free_numbered(base.as_slice(), empty.as_slice(), &slugs);
    assert(slugs@.map_values(|s: String| s@) =~= strs(slugs@));
    assert(empty@ =~= Seq::<char>::empty());
    let entry = Category { slug: string_of(slug.as_slice()), name: string_of(trimmed.as_slice()) };
    let created = Category { slug: string_of(slug.as_slice()), name: string_of(trimmed.as_slice()) };
    let ghost cv = catalog_view(catalog@);
    catalog.push(entry);
    assert(catalog_view(catalog@) =~= cv.push((created.slug@, created.name@)));
    let mut taken: Vec<Category> = Vec::new();
    std::mem::swap(&mut taken, catalog);
    *catalog = sort_catalog(taken);
    Ok(created)
}

/* Course metadata */

pub open spec fn opt_view(o: Option<String>) -> Option<Seq<char>> {
    match o {
        Some(s) => Some(s@),
        None => None,
    }
}

pub open spec fn opt_strs(o: Option<Vec<String>>) -> Option<Seq<Seq<char>>> {
    match o {
        Some(v) => Some(strs(v@)),
        None => None,
    }
}

/// `update_course_meta`: the title trimmed and required, a blank description
/// cleared, the categories normalized against the catalog; each only when given.
pub open spec fn meta_patch_spec(
    title: Seq<char>,
    description: Option<Seq<char>>,
    categories: Seq<Seq<char>>,
    patch_title: Option<Seq<char>>,
    patch_description: Option<Seq<char>>,
    patch_categories: Option<Seq<Seq<char>>>,
    known: Seq<Seq<char>>,
) -> Result<(Seq<char>, Option<Seq<char>>, Seq<Seq<char>>), CourseErrorView> {
    let new_title = match patch_title {
        Some(t) => if trim(t).len() == 0 {
            None
        } else {
            Some(trim(t))
        },
        None => Some(title),
    };
    match new_title {
        None => Err(CourseErrorView::EmptyCourseTitle),
        Some(t) => {
            let d = match patch_description {
                Some(p) => if trim(p).len() == 0 {
                    None
                } else {
                    Some(p)
                },
                None => description,
            };
            match patch_categories {
                None => Ok((t, d, categories)),
                Some(c) => match normalize_spec(known, c) {
                    Ok(n) => Ok((t, d, n)),
                    Err(e) => Err(e),
                },
            }
        },
    }
}

/// A metadata patch changes only the fields it gives: without a title the
/// title stays, without a description the description stays, and without
/// categories the categories stay. A given title is stored trimmed, and a blank
/// one is refused; a patch that gives neither a title nor categories always
/// applies, and so does one with a non-blank title and no categories.
pub proof fn lemma_meta_patch_keeps_absent_fields(
    title: Seq<char>,
    description: Option<Seq<char>>,
    categories: Seq<Seq<char>>,
    patch_title: Option<Seq<char>>,
    patch_description: Option<Seq<char>>,
    patch_categories: Option<Seq<Seq<char>>>,
    known: Seq<Seq<char>>,
)
    ensures
        ({
            let r = meta_patch_spec(title, description, categories, patch_title, patch_description, patch_categories, known);
            &&& patch_title is None && patch_categories is None ==> r is Ok
            &&& r matches Ok(v) ==> {
                &&& patch_title is None ==> v.0 == title
                &&& patch_description is None ==> v.1 == description
                &&& patch_categories is None ==> v.2 == categories
                &&& patch_title matches Some(t) ==> v.0 == trim(t)
            }
            &&& (patch_title matches Some(t) && trim(t).len() == 0) ==> r == Err::<
                (Seq<char>, Option<Seq<char>>, Seq<Seq<char>>),
                CourseErrorView,
            >(CourseErrorView::EmptyCourseTitle)
            &&& (patch_title matches Some(t) && trim(t).len() > 0 && patch_categories is None) ==> r is Ok
        }),
{
}

/// Applies a metadata patch to a course manifest.
pub fn apply_course_meta_patch(manifest: &mut CourseManifest, patch: CourseMetaPatch, known: &Vec<String>) -> (r: Result<
    (),
    CourseError,
>)
    ensures
        ({
            let spec = meta_patch_spec(
                old(manifest).title@,
                opt_view(old(manifest).description),
                strs(old(manifest).categories@),
                opt_view(patch.title),
                opt_view(patch.description),
                opt_strs(patch.categories),
                strs(known@),
            );
            match r {
                Ok(()) => spec == Ok::<(Seq<char>, Option<Seq<char>>, Seq<Seq<char>>), CourseErrorView>(
                    (final(manifest).title@, opt_view(final(manifest).description), strs(final(manifest).categories@)),
                ),
                Err(e) => spec == Err::<(Seq<char>, Option<Seq<char>>, Seq<Seq<char>>), CourseErrorView>(e@)
                    && *final(manifest) == *old(manifest),
            }
        }),
        final(manifest).slug == old(manifest).slug,
        final(manifest).source == old(manifest).source,
        r is Ok && patch.title is None ==> final(manifest).title@ == old(manifest).title@,
        r is Ok && patch.description is None ==> opt_view(final(manifest).description) == opt_view(
            old(manifest).description,
        ),
        r is Ok && patch.categories is None ==> strs(final(manifest).categories@) == strs(old(manifest).categories@),
        patch.title is None && patch.categories is None ==> r is Ok,
{
    proof {
        lemma_meta_patch_keeps_absent_fields(
            manifest.title@,
            opt_view(manifest.description),
            strs(manifest.categories@),
            opt_view(patch.title),
            opt_view(patch.description),
            opt_strs(patch.categories),
            strs(known@),
        );
    }
    let CourseMetaPatch { title, description, categories } = patch;
    let new_title: Option<String> = match title {
        Some(t) => {
            let tt = trim_str(t.as_str());
            if tt.len() == 0 {
                return Err(CourseError::EmptyCourseTitle);
            }
            Some(string_of(tt.as_slice()))
        },
        None => None,
    };
    let new_description: Option<Option<String>> = match description {
        Some(d) => {
            let td = trim_str(d.as_str());
            if td.len() == 0 {
                Some(None)
            } else {
                Some(Some(d))
            }
        },
        None => None,
    };
    let new_categories: Option<Vec<String>> = match categories {
        Some(c) => match normalize_course_categories(known, c) {
            Ok(n) => Some(n),
            Err(e) => return Err(e),
        },
        None => None,
    };
    match new_title {
        Some(t) => manifest.title = t,
        None => {},
    }
    match new_description {
        Some(d) => manifest.description = d,
        None => {},
    }
    match new_categories {
        Some(c) => manifest.categories = c,
        None => {},
    }
    Ok(())
}

/* Learning paths */

/// `create_path`: a path under the trimmed title, with the title's slug
/// numbered past the existing `<slug>.yaml` files.
pub open spec fn new_path_spec(title: Seq<char>, existing_files: Seq<Seq<char>>) -> Result<(Seq<char>, Seq<char>), CourseErrorView> {
    let t = trim(title);
    if t.len() == 0 {
        Err(CourseErrorView::EmptyPathTitle)
    } else {
        Ok((t, first_free(vault_slug(t, "path"@), ".yaml"@, existing_files)))
    }
}

/// A new, empty learning path.
pub fn create_path_manifest(title: &str, existing_files: &Vec<String>) -> (r: Result<PathManifest, CourseError>)
    ensures
        match r {
            Ok(m) => new_path_spec(title@, strs(existing_files@)) == Ok::<(Seq<char>, Seq<char>), CourseErrorView>(
                (m.title@, m.slug@),
            ) && m.description.is_none() && m.courses@.len() == 0,
            Err(e) => new_path_spec(title@, strs(existing_files@)) == Err::<(Seq<char>, Seq<char>), CourseErrorView>(e@),
        },
{
    let t = trim_str(title);
    if t.len() == 0 {
        return Err(CourseError::EmptyPathTitle);
    }
    let ts = string_of(t.as_slice());
    let base = vault_slug_chars(ts.as_str(), "path");
    let ext = chars_of(".yaml");
    let slug = first_free_numbered(base.as_slice(), ext.as_slice(), existing_files);
    assert(existing_files@.map_values(|s: String| s@) =~= strs(existing_files@));
    Ok(PathManifest { title: ts, slug: string_of(slug.as_slice()), description: None, courses: Vec::new() })
}

/// `add_course_to_path`: the course moved (or added) to position `order_index`
/// (the end when absent or past it), optional only when asked.
pub open spec fn add_to_path_spec(cs: Seq<(Seq<char>, bool)>, slug: Seq<char>, order_index: Option<usize>, optional: Option<bool>) -> Seq<
    (Seq<char>, bool),
> {
    let rest = crate::vault::courses_without(cs, slug);
    let at = match order_index {
        Some(i) => if i < rest.len() {
            i as int
        } else {
            rest.len() as int
        },
        None => rest.len() as int,
    };
    rest.insert(
        at,
        (
            slug,
            match optional {
                Some(b) => b,
                None => false,
            },
        ),
    )
}

/// Puts a course into a path at a position.
pub fn add_course_to_path(courses: &mut Vec<PathCourse>, course_slug: &str, order_index: Option<usize>, optional: Option<bool>)
    ensures
        path_courses_view(final(courses)@) == add_to_path_spec(path_courses_view(old(courses)@), course_slug@, order_index, optional),
{
    crate::vault::remove_course_from_path(courses, course_slug);
    let len = courses.len();
    let at = match order_index {
        Some(i) => if i < len {
            i
        } else {
            len
        },
        None => len,
    };
    let flag = match optional {
        Some(b) => b,
        None => false,
    };
    let ghost before = path_courses_view(courses@);
    courses.insert(at, PathCourse { slug: text(course_slug), optional: flag });
    assert(path_courses_view(courses@) =~= before.insert(at as int, (course_slug@, flag)));
}

/// The optional flag of the last entry for a course (a map built in order keeps the last).
pub open spec fn last_optional(cs: Seq<(Seq<char>, bool)>, slug: Seq<char>) -> Option<bool>
    decreases cs.len(),
{
    if cs.len() == 0 {
        None
    } else if cs.last().0 == slug {
        Some(cs.last().1)
    } else {
        last_optional(cs.drop_last(), slug)
    }
}

/// `reorder_path_items`: the path's courses in the requested order, each once,
/// keeping its optional flag unless the request sets one; a course not in the
/// path is refused.
pub open spec fn reorder_spec(cs: Seq<(Seq<char>, bool)>, ordering: Seq<(Seq<char>, Option<bool>)>) -> Result<
    Seq<(Seq<char>, bool)>,
    CourseErrorView,
>
    decreases ordering.len(),
{
    if ordering.len() == 0 {
        Ok(Seq::empty())
    } else {
        match reorder_spec(cs, ordering.drop_last()) {
            Err(e) => Err(e),
            Ok(prev) => {
                let (slug, opt) = ordering.last();
                match last_optional(cs, slug) {
                    None => Err(CourseErrorView::NotInPath(slug)),
                    Some(current) => if prev.map_values(|c: (Seq<char>, bool)| c.0).contains(slug) {
                        Ok(prev)
                    } else {
                        Ok(
                            prev.push(
                                (
                                    slug,
                                    match opt {
                                        Some(b) => b,
                                        None => current,
                                    },
                                ),
                            ),
                        )
                    },
                }
            },
        }
    }
}

proof fn lemma_reorder_err_stable(cs: Seq<(Seq<char>, bool)>, ord: Seq<(Seq<char>, Option<bool>)>, k: int, e: CourseErrorView)
    requires
        0 <= k <= ord.len(),
        reorder_spec(cs, ord.take(k)) == Err::<Seq<(Seq<char>, bool)>, CourseErrorView>(e),
    ensures
        reorder_spec(cs, ord) == Err::<Seq<(Seq<char>, bool)>, CourseErrorView>(e),
    decreases ord.len() - k,
{
    if k < ord.len() {
        assert(ord.take(k + 1).drop_last() =~= ord.take(k));
        lemma_reorder_err_stable(cs, ord, k + 1, e);
    } else {
        assert(ord.take(k) =~= ord);
    }
}

fn last_optional_exec(courses: &Vec<PathCourse>, slug: &[char]) -> (r: Option<bool>)
    ensures
        r == last_optional(path_courses_view(courses@), slug@),
{
    let ghost cv = path_courses_view(courses@);
    let mut i: usize = courses.len();
    assert(cv.take(i as int) =~= cv);
    while i > 0
        invariant
            i <= courses@.len(),
            cv == path_courses_view(courses@),
            last_optional(cv, slug@) == last_optional(cv.take(i as int), slug@),
        decreases i,
    {
        assert(cv.take(i as int).drop_last() =~= cv.take(i - 1));
        assert(cv.take(i as int).last() == path_course_view(courses@[i - 1]));
        if chars_eq(chars_of(courses[i - 1].slug.as_str()).as_slice(), slug) {
            return Some(courses[i - 1].optional);
        }
        i -= 1;
    }
    None
}

pub open spec fn ordering_view(o: Seq<(String, Option<bool>)>) -> Seq<(Seq<char>, Option<bool>)> {
    o.map_values(|p: (String, Option<bool>)| (p.0@, p.1))
}

/// A path's courses in a new order; each request names a course by slug.
pub fn reorder_path_courses(courses: &Vec<PathCourse>, ordering: &Vec<(String, Option<bool>)>) -> (r: Result<
    Vec<PathCourse>,
    CourseError,
>)
    ensures
        match r {
            Ok(v) => reorder_spec(path_courses_view(courses@), ordering_view(ordering@)) == Ok::<
                Seq<(Seq<char>, bool)>,
                CourseErrorView,
            >(path_courses_view(v@)),
            Err(e) => reorder_spec(path_courses_view(courses@), ordering_view(ordering@)) == Err::<
                Seq<(Seq<char>, bool)>,
                CourseErrorView,
            >(e@),
        },
{
    let ghost cv = path_courses_view(courses@);
    let ghost ov = ordering_view(ordering@);
    let mut out: Vec<PathCourse> = Vec::new();
    let mut i: usize = 0;
    assert(ov.take(0) =~= Seq::<(Seq<char>, Option<bool>)>::empty());
    assert(path_courses_view(out@) =~= Seq::<(Seq<char>, bool)>::empty());
    while i < ordering.len()
        invariant
            i <= ordering@.len(),
            cv == path_courses_view(courses@),
            ov == ordering_view(ordering@),
            reorder_spec(cv, ov.take(i as int)) == Ok::<Seq<(Seq<char>, bool)>, CourseErrorView>(path_courses_view(out@)),
        decreases ordering@.len() - i,
    {
        assert(ov.take(i + 1).drop_last() =~= ov.take(i as int));
        assert(ov.take(i + 1).last() == (ordering@[i as int].0@, ordering@[i as int].1));
        let slug = chars_of(ordering[i].0.as_str());
        let current = match last_optional_exec(courses, slug.as_slice()) {
            None => {
                proof {
                    lemma_reorder_err_stable(cv, ov, i + 1, CourseErrorView::NotInPath(slug@));
                }
                return Err(CourseError::NotInPath(string_of(slug.as_slice())));
            },
            Some(b) => b,
        };
        let ghost prev = path_courses_view(out@);
        let mut present = false;
        let mut j: usize = 0;
        while j < out.len()
            invariant
                j <= out@.len(),
                prev == path_courses_view(out@),
                present <==> prev.map_values(|c: (Seq<char>, bool)| c.0).take(j as int).contains(slug@),
            decreases out@.len() - j,
        {
            let ghost names = prev.map_values(|c: (Seq<char>, bool)| c.0);
            assert(names.take(j + 1) =~= names.take(j as int).push(names[j as int]));
            assert(names[j as int] == out@[j as int].slug@);
            assert(names.take(j + 1).contains(slug@) <==> (names.take(j as int).contains(slug@) || names[j as int] == slug@)) by {
                if names.take(j + 1).contains(slug@) {
                    let k = choose|k: int| 0 <= k < names.take(j + 1).len() && #[trigger] names.take(j + 1)[k] == slug@;
                    if k < j {
                        assert(names.take(j as int)[k] == slug@);
                    }
                }
                if names.take(j as int).contains(slug@) {
                    let k = choose|k: int| 0 <= k < names.take(j as int).len() && #[trigger] names.take(j as int)[k] == slug@;
                    assert(names.take(j + 1)[k] == slug@);
                }
                if names[j as int] == slug@ {
                    assert(names.take(j + 1)[j as int] == slug@);
                }
            }
            if chars_eq(chars_of(out[j].slug.as_str()).as_slice(), slug.as_slice()) {
                present = true;
            }
            j += 1;
        }
        assert(prev.map_values(|c: (Seq<char>, bool)| c.0).take(j as int) =~= prev.map_values(|c: (Seq<char>, bool)| c.0));
        if !present {
            let flag = match ordering[i].1 {
                Some(b) => b,
                None => current,
            };
            out.push(PathCourse { slug: string_of(slug.as_slice()), optional: flag });
            assert(path_courses_view(out@) =~= prev.push((slug@, flag)));
        }
        i += 1;
    }
    assert(ov.take(i as int) =~= ov);
    Ok(out)
}

/// A re-import needs the course's source URL; pasted courses have none.
pub fn require_origin(origin_url: Option<String>) -> (r: Result<String, CourseError>)
    ensures
        match r {
            Ok(u) => origin_url == Some(u),
            Err(e) => origin_url.is_none() && e@ == CourseErrorView::NoSourceUrl,
        },
{
    match origin_url {
        Some(u) => Ok(u),
        None => Err(CourseError::NoSourceUrl),
    }
}

/* The section tree of a course */

/// A section as the index lists it, with its parent.
#[derive(Debug, Clone, PartialEq, Eq)]
pub struct FlatSectionRow {
    pub id: String,
    pub parent_section_id: Option<String>,
    pub canonical_path: String,
    pub title: String,
    pub heading_level: u8,
    pub order_index: usize,
    pub status: ProgressStatus,
    pub completed_at: Option<String>,
}

/// A section with its progress and subsections.
#[derive(Debug, PartialEq, Eq)]
pub struct SectionNode {
    pub id: String,
    pub canonical_path: String,
    pub title: String,
    pub heading_level: u8,
    pub order_index: usize,
    pub status: ProgressStatus,
    pub completed_at: Option<String>,
    pub children: Vec<SectionNode>,
}

pub struct RowView {
    pub id: Seq<char>,
    pub parent: Option<Seq<char>>,
    pub canonical_path: Seq<char>,
    pub title: Seq<char>,
    pub heading_level: u8,
    pub order_index: usize,
    pub status: ProgressStatus,
    pub completed_at: Option<Seq<char>>,
}

impl View for FlatSectionRow {
    type V = RowView;

    open spec fn view(&self) -> RowView {
        RowView {
            id: self.id@,
            parent: opt_view(self.parent_section_id),
            canonical_path: self.canonical_path@,
            title: self.title@,
            heading_level: self.heading_level,
            order_index: self.order_index,
            status: self.status,
            completed_at: opt_view(self.completed_at),
        }
    }
}

pub open spec fn rows_view(rows: Seq<FlatSectionRow>) -> Seq<RowView> {
    rows.map_values(|r: FlatSectionRow| r@)
}

/// The rows whose parent is `parent`, in their order.
pub open spec fn child_rows(rows: Seq<RowView>, parent: Option<Seq<char>>) -> Seq<RowView>
    decreases rows.len(),
{
    if rows.len() == 0 {
        rows
    } else {
        let rest = child_rows(rows.drop_last(), parent);
        if rows.last().parent == parent {
            rest.push(rows.last())
        } else {
            rest
        }
    }
}

/// The children of `parent`, by order index (stable).
pub open spec fn ordered_children(rows: Seq<RowView>, parent: Option<Seq<char>>) -> Seq<RowView> {
    order_sort(child_rows(rows, parent).map_values(|r: RowView| (r.order_index as nat, r))).map_values(
        |p: (nat, RowView)| p.1,
    )
}

/// A node carries its row's fields.
pub open spec fn node_is(n: SectionNode, r: RowView) -> bool {
    &&& n.id@ == r.id
    &&& n.canonical_path@ == r.canonical_path
    &&& n.title@ == r.title
    &&& n.heading_level == r.heading_level
    &&& n.order_index == r.order_index
    &&& n.status == r.status
    &&& opt_view(n.completed_at) == r.completed_at
}

/// `nodes` are the subtrees under `parent`, built `depth` levels deep.
pub open spec fn tree_is(nodes: Seq<SectionNode>, rows: Seq<RowView>, parent: Option<Seq<char>>, depth: nat) -> bool
    decreases depth,
{
    if depth == 0 {
        nodes.len() == 0
    } else {
        let kids = ordered_children(rows, parent);
        &&& nodes.len() == kids.len()
        &&& forall|k: int|
            #![trigger nodes[k]]
            0 <= k < kids.len() ==> node_is(nodes[k], kids[k]) && tree_is(
                nodes[k].children@,
                rows,
                Some(kids[k].id),
                (depth - 1) as nat,
            )
    }
}

spec fn index_rows(rows: Seq<RowView>) -> spec_fn(usize) -> RowView {
    |i: usize| rows[i as int]
}

fn copy_opt(o: &Option<String>) -> (c: Option<String>)
    ensures
        opt_view(c) == opt_view(*o),
{
    match o {
        Some(s) => Some(text(s.as_str())),
        None => None,
    }
}

fn build_tree(rows: &Vec<FlatSectionRow>, parent: Option<&str>, depth: usize) -> (nodes: Vec<SectionNode>)
    ensures
        tree_is(nodes@, rows_view(rows@), opt_str(parent), depth as nat),
    decreases depth,
{
    if depth == 0 {
        return Vec::new();
    }
    let ghost rv = rows_view(rows@);
    let ghost pv = opt_str(parent);
    let mut sorted: Vec<(usize, usize)> = Vec::new();
    let ghost mut raw: Seq<(nat, usize)> = Seq::empty();
    let mut i: usize = 0;
    while i < rows.len()
        invariant
            i <= rows@.len(),
            rv == rows_view(rows@),
            pv == opt_str(parent),
            map_ordered(raw, index_rows(rv)) == child_rows(rv.take(i as int), pv).map_values(
                |r: RowView| (r.order_index as nat, r),
            ),
            forall|t: int| 0 <= t < raw.len() ==> (#[trigger] raw[t]).1 < rows@.len(),
            crate::indexer::ordered_view(sorted@) == order_sort(raw),
        decreases rows@.len() - i,
    {
        assert(rv.take(i + 1).drop_last() =~= rv.take(i as int));
        assert(rv.take(i + 1).last() == rows@[i as int]@);
        let matches = match (&rows[i].parent_section_id, parent) {
            (Some(p), Some(q)) => chars_eq(chars_of(p.as_str()).as_slice(), chars_of(q).as_slice()),
            (None, None) => true,
            _ => false,
        };
        let ghost old_raw = raw;
        if matches {
            proof {
                let item = (rows@[i as int].order_index as nat, i);
                assert(raw.push(item).drop_last() =~= raw);
                assert(map_ordered(raw.push(item), index_rows(rv)) =~= map_ordered(raw, index_rows(rv)).push(
                    (rv[i as int].order_index as nat, rv[i as int]),
                ));
                assert(child_rows(rv.take(i + 1), pv).map_values(|r: RowView| (r.order_index as nat, r))
                    =~= child_rows(rv.take(i as int), pv).map_values(|r: RowView| (r.order_index as nat, r)).push(
                    (rv[i as int].order_index as nat, rv[i as int]),
                ));
                raw = raw.push(item);
            }
            crate::indexer::order_insert_exec(&mut sorted, (rows[i].order_index, i));
            assert(raw.drop_last() =~= old_raw);
        }
        i += 1;
    }
    assert(rv.take(i as int) =~= rv);
    proof {
        lemma_order_sort_map_payload(raw, index_rows(rv));
        crate::indexer::lemma_order_sort_members(raw);
    }
    let ghost sv = crate::indexer::ordered_view(sorted@);
    let ghost kids = ordered_children(rv, pv);
    assert(map_ordered(sv, index_rows(rv)).map_values(|p: (nat, RowView)| p.1) =~= kids);
    assert forall|t: int| 0 <= t < sv.len() implies (#[trigger] sv[t]).1 < rows@.len() && kids[t] == rv[sv[t].1 as int] by {
        assert(raw.contains(sv[t]));
        let u = choose|u: int| 0 <= u < raw.len() && raw[u] == sv[t];
        assert(raw[u].1 < rows@.len());
        assert(kids[t] == map_ordered(sv, index_rows(rv))[t].1);
    }
    let mut nodes: Vec<SectionNode> = Vec::new();
    let mut j: usize = 0;
    while j < sorted.len()
        invariant
            j <= sorted@.len(),
            sv == crate::indexer::ordered_view(sorted@),
            rv == rows_view(rows@),
            kids == ordered_children(rv, pv),
            kids.len() == sv.len(),
            forall|t: int| 0 <= t < sv.len() ==> (#[trigger] sv[t]).1 < rows@.len() && kids[t] == rv[sv[t].1 as int],
            nodes@.len() == j,
            depth > 0,
            forall|t: int|
                #![trigger nodes@[t]]
                0 <= t < j ==> node_is(nodes@[t], kids[t]) && tree_is(
                    nodes@[t].children@,
                    rv,
                    Some(kids[t].id),
                    (depth - 1) as nat,
                ),
        decreases sorted@.len() - j,
    {
        let idx = sorted[j].1;
        assert(sv[j as int] == (sorted@[j as int].0 as nat, sorted@[j as int].1));
        assert(sv[j as int].1 == idx);
        let row = &rows[idx];
        let children = build_tree(rows, Some(row.id.as_str()), depth - 1);
        let node = SectionNode {
            id: text(row.id.as_str()),
            canonical_path: text(row.canonical_path.as_str()),
            title: text(row.title.as_str()),
            heading_level: row.heading_level,
            order_index: row.order_index,
            status: row.status,
            completed_at: copy_opt(&row.completed_at),
            children,
        };
        let ghost before = nodes@;
        assert(kids[j as int] == rv[idx as int]);
        assert(rv[idx as int] == rows@[idx as int]@);
        nodes.push(node);
        assert(nodes@[j as int] == node);
        assert forall|t: int| 0 <= t < j + 1 implies #[trigger] nodes@[t] == (if t < j { before[t] } else { node }) by {}
        j += 1;
    }
    nodes
}

pub open spec fn opt_str(o: Option<&str>) -> Option<Seq<char>> {
    match o {
        Some(s) => Some(s@),
        None => None,
    }
}

/// The subtrees under `parent_id` (the course's top level when `None`), each
/// level by order index. The tree is built as many levels deep as there are
/// rows, which a tree of these rows never exceeds.
pub fn build_section_tree(rows: &Vec<FlatSectionRow>, parent_id: Option<&str>) -> (nodes: Vec<SectionNode>)
    ensures
        tree_is(nodes@, rows_view(rows@), opt_str(parent_id), rows@.len() as nat),
{
    build_tree(rows, parent_id, rows.len())
}

/* Source drift */

/// Whether a course's source changed since it was imported.
#[derive(Debug, Clone, PartialEq, Eq)]
pub struct SourceDriftStatus {
    pub course_id: String,
    pub source_available: bool,
    pub changed: bool,
    pub current_hash: Option<String>,
    pub latest_hash: Option<String>,
    pub origin_url: Option<String>,
    pub checked_at: String,
    pub orphaned_progress_paths: Vec<String>,
}

/// The drift status of a course without a source URL: nothing to compare.
pub fn drift_without_source(course_id: String, current_hash: Option<String>, checked_at: String) -> (d: SourceDriftStatus)
    ensures
        d.course_id == course_id,
        !d.source_available,
        !d.changed,
        d.current_hash == current_hash,
        d.latest_hash.is_none(),
        d.origin_url.is_none(),
        d.checked_at == checked_at,
        d.orphaned_progress_paths@.len() == 0,
{
    SourceDriftStatus {
        course_id,
        source_available: false,
        changed: false,
        current_hash,
        latest_hash: None,
        origin_url: None,
        checked_at,
        orphaned_progress_paths: Vec::new(),
    }
}

/// The drift status of a course whose source was fetched again: changed when
/// the content hash differs, and then the progress paths the new content
/// would orphan.
pub fn drift_after_fetch(
    course_id: String,
    current_hash: Option<String>,
    origin_url: String,
    checked_at: String,
    fetched: &FetchedMarkdown,
    progress_paths: &Vec<String>,
) -> (d: SourceDriftStatus)
    ensures
        d.course_id == course_id,
        d.source_available,
        d.changed == (opt_view(current_hash) != Some(fetched.source.content_hash@)),
        d.current_hash == current_hash,
        opt_view(d.latest_hash) == Some(fetched.source.content_hash@),
        d.origin_url == Some(origin_url),
        d.checked_at == checked_at,
        !d.changed ==> d.orphaned_progress_paths@.len() == 0,
        d.changed ==> exists|course: ParsedCourse|
            #![trigger parsed_course_is(fetched.content@, opt_view(fetched.title_hint), course)]
            parsed_course_is(fetched.content@, opt_view(fetched.title_hint), course) && strs(
                d.orphaned_progress_paths@,
            ) == sorted_strings(
                absent_from(
                    strs(progress_paths@),
                    group_paths(course.sections@, Seq::empty(), course.sections@.len() as int),
                ),
            ),
{
    let latest = text(fetched.source.content_hash.as_str());
    let changed = match &current_hash {
        Some(h) => !chars_eq(chars_of(h.as_str()).as_slice(), chars_of(latest.as_str()).as_slice()),
        None => true,
    };
    let orphaned = if changed {
        let hint: Option<&str> = match &fetched.title_hint {
            Some(h) => Some(h.as_str()),
            None => None,
        };
        assert(hint_view(hint) == opt_view(fetched.title_hint));
        orphaned_progress_paths_for_markdown(progress_paths, fetched.content.as_str(), hint)
    } else {
        Vec::new()
    };
    SourceDriftStatus {
        course_id,
        source_available: true,
        changed,
        current_hash,
        latest_hash: Some(latest),
        origin_url: Some(origin_url),
        checked_at,
        orphaned_progress_paths: orphaned,
    }
}

/* Reading back recorded progress */

proof fn lemma_sorted_distinct<V>(e: Seq<(Seq<char>, V)>, i: int, j: int)
    requires
        keys_sorted(e),
        0 <= i < e.len(),
        0 <= j < e.len(),
        i != j,
    ensures
        e[i].0 != e[j].0,
{
    if i < j {
        assert(seq_lt(e[i].0, e[j].0));
    } else {
        assert(seq_lt(e[j].0, e[i].0));
    }
    crate::vault::lemma_seq_lt_irreflexive(e[i].0);
}

proof fn lemma_get_at<V>(e: Seq<(Seq<char>, V)>, i: int)
    requires
        keys_sorted(e),
        0 <= i < e.len(),
    ensures
        get_key(e, e[i].0) == Some(e[i].1),
    decreases e.len(),
{
    if i < e.len() - 1 {
        lemma_sorted_distinct(e, i, e.len() - 1);
        let d = e.drop_last();
        assert(keys_sorted(d)) by {
            assert forall|a: int, b: int| 0 <= a < b < d.len() implies seq_lt(#[trigger] d[a].0, #[trigger] d[b].0) by {
                assert(d[a] == e[a] && d[b] == e[b]);
            }
        }
        assert(d[i] == e[i]);
        lemma_get_at(d, i);
    }
}

proof fn lemma_get_absent<V>(e: Seq<(Seq<char>, V)>, k: Seq<char>)
    requires
        forall|i: int| 0 <= i < e.len() ==> (#[trigger] e[i]).0 != k,
    ensures
        get_key(e, k).is_none(),
    decreases e.len(),
{
    if e.len() > 0 {
        assert(e[e.len() - 1].0 != k);
        let d = e.drop_last();
        assert forall|i: int| 0 <= i < d.len() implies (#[trigger] d[i]).0 != k by {
            assert(d[i] == e[i]);
        }
        lemma_get_absent(d, k);
    }
}

/// In sorted entries, the value read for a key is that of its entry, if any.
proof fn lemma_get_sorted<V>(e: Seq<(Seq<char>, V)>, k: Seq<char>)
    requires
        keys_sorted(e),
    ensures
        (exists|i: int| 0 <= i < e.len() && (#[trigger] e[i]).0 == k) ==> get_key(e, k) == Some(
            e[choose|i: int| 0 <= i < e.len() && (#[trigger] e[i]).0 == k].1,
        ),
        !(exists|i: int| 0 <= i < e.len() && (#[trigger] e[i]).0 == k) ==> get_key(e, k).is_none(),
{
    if exists|i: int| 0 <= i < e.len() && (#[trigger] e[i]).0 == k {
        let i = choose|i: int| 0 <= i < e.len() && (#[trigger] e[i]).0 == k;
        lemma_get_at(e, i);
    } else {
        lemma_get_absent(e, k);
    }
}

proof fn lemma_lower_bound<V>(e: Seq<(Seq<char>, V)>, key: Seq<char>, j: int)
    requires
        0 <= j <= e.len(),
        forall|t: int| 0 <= t < j ==> seq_lt((#[trigger] e[t]).0, key),
    ensures
        j <= lower_bound(e, key, j) <= e.len(),
        forall|t: int| 0 <= t < lower_bound(e, key, j) ==> seq_lt((#[trigger] e[t]).0, key),
        lower_bound(e, key, j) < e.len() ==> !seq_lt(e[lower_bound(e, key, j)].0, key),
    decreases e.len() - j,
{
    if j < e.len() && seq_lt(e[j].0, key) {
        lemma_lower_bound(e, key, j + 1);
    }
}

#[verifier::rlimit(40)]
proof fn lemma_put_key<V>(e: Seq<(Seq<char>, V)>, key: Seq<char>, v: V, other: Seq<char>)
    requires
        keys_sorted(e),
    ensures
        keys_sorted(put_key(e, key, v)),
        get_key(put_key(e, key, v), key) == Some(v),
        other != key ==> get_key(put_key(e, key, v), other) == get_key(e, other),
{
    lemma_lower_bound(e, key, 0);
    let i = lower_bound(e, key, 0);
    let r = put_key(e, key, v);
    if i < e.len() && e[i].0 == key {
        assert(r == e.update(i, (key, v)));
        assert(keys_sorted(r)) by {
            assert forall|a: int, b: int| 0 <= a < b < r.len() implies seq_lt(#[trigger] r[a].0, #[trigger] r[b].0) by {
                assert(r[a].0 == e[a].0 && r[b].0 == e[b].0);
            }
        }
        assert(r[i] == (key, v));
        lemma_get_at(r, i);
        if other != key {
            lemma_get_sorted(e, other);
            lemma_get_sorted(r, other);
            if exists|t: int| 0 <= t < e.len() && (#[trigger] e[t]).0 == other {
                let t = choose|t: int| 0 <= t < e.len() && (#[trigger] e[t]).0 == other;
                assert(t != i);
                assert(r[t] == e[t]);
                lemma_get_at(r, t);
                lemma_get_at(e, t);
            } else {
                assert forall|t: int| 0 <= t < r.len() implies (#[trigger] r[t]).0 != other by {
                    if t != i {
                        assert(r[t] == e[t]);
                    }
                }
                lemma_get_absent(r, other);
            }
        }
    } else {
        assert(r == e.insert(i, (key, v)));
        if i < e.len() {
            crate::vault::lemma_seq_lt_total(e[i].0, key);
        }
        assert forall|t: int| i <= t < e.len() implies seq_lt(key, (#[trigger] e[t]).0) by {
            if t > i {
                assert(seq_lt(e[i].0, e[t].0));
                crate::vault::lemma_seq_lt_transitive(key, e[i].0, e[t].0);
            }
        }
        assert(keys_sorted(r)) by {
            assert forall|a: int, b: int| 0 <= a < b < r.len() implies seq_lt(#[trigger] r[a].0, #[trigger] r[b].0) by {
                if b < i {
                    assert(r[a] == e[a] && r[b] == e[b]);
                } else if b == i {
                    assert(r[a] == e[a]);
                } else if a < i {
                    assert(r[a] == e[a] && r[b] == e[b - 1]);
                    assert(seq_lt(e[a].0, key));
                    assert(seq_lt(key, e[b - 1].0));
                    crate::vault::lemma_seq_lt_transitive(e[a].0, key, e[b - 1].0);
                } else if a == i {
                    assert(r[b] == e[b - 1]);
                } else {
                    assert(r[a] == e[a - 1] && r[b] == e[b - 1]);
                }
            }
        }
        assert(r[i] == (key, v));
        lemma_get_at(r, i);
        if other != key {
            lemma_get_sorted(e, other);
            lemma_get_sorted(r, other);
            if exists|t: int| 0 <= t < e.len() && (#[trigger] e[t]).0 == other {
                let t = choose|t: int| 0 <= t < e.len() && (#[trigger] e[t]).0 == other;
                if t < i {
                    assert(r[t] == e[t]);
                    lemma_get_at(r, t);
                } else {
                    assert(r[t + 1] == e[t]);
                    lemma_get_at(r, t + 1);
                }
                lemma_get_at(e, t);
            } else {
                assert forall|t: int| 0 <= t < r.len() implies (#[trigger] r[t]).0 != other by {
                    if t < i {
                        assert(r[t] == e[t]);
                    } else if t > i {
                        assert(r[t] == e[t - 1]);
                    }
                }
                lemma_get_absent(r, other);
            }
        }
    }
}

proof fn lemma_remove_key_members<V>(e: Seq<(Seq<char>, V)>, key: Seq<char>)
    ensures
        forall|t: int| 0 <= t < remove_key(e, key).len() ==> (#[trigger] remove_key(e, key)[t]).0 != key,
        forall|t: int|
            0 <= t < e.len() && (#[trigger] e[t]).0 != key ==> remove_key(e, key).contains(e[t]),
        forall|t: int| 0 <= t < remove_key(e, key).len() ==> e.contains(#[trigger] remove_key(e, key)[t]),
    decreases e.len(),
{
    if e.len() > 0 {
        let d = e.drop_last();
        lemma_remove_key_members(d, key);
        let rd = remove_key(d, key);
        let r = remove_key(e, key);
        assert forall|t: int| 0 <= t < r.len() implies (#[trigger] r[t]).0 != key by {
            if t < rd.len() {
                assert(r[t] == rd[t]);
            }
        }
        assert forall|t: int| 0 <= t < e.len() && (#[trigger] e[t]).0 != key implies r.contains(e[t]) by {
            if t < d.len() {
                assert(d[t] == e[t]);
                let u = choose|u: int| 0 <= u < rd.len() && rd[u] == d[t];
                assert(r[u] == rd[u]);
            } else {
                assert(r[r.len() - 1] == e[t]);
            }
        }
        assert forall|t: int| 0 <= t < r.len() implies e.contains(#[trigger] r[t]) by {
            if t < rd.len() {
                assert(r[t] == rd[t]);
                let u = choose|u: int| 0 <= u < d.len() && d[u] == rd[t];
                assert(e[u] == d[u]);
            } else {
                assert(e[e.len() - 1] == r[t]);
            }
        }
    }
}

proof fn lemma_remove_key_ordered<V>(e: Seq<(Seq<char>, V)>, key: Seq<char>)
    requires
        keys_sorted(e),
    ensures
        keys_sorted(remove_key(e, key)),
    decreases e.len(),
{
    if e.len() > 0 {
        let d = e.drop_last();
        assert(keys_sorted(d)) by {
            assert forall|a: int, b: int| 0 <= a < b < d.len() implies seq_lt(#[trigger] d[a].0, #[trigger] d[b].0) by {
                assert(d[a] == e[a] && d[b] == e[b]);
            }
        }
        lemma_remove_key_ordered(d, key);
        lemma_remove_key_members(d, key);
        let rd = remove_key(d, key);
        let r = remove_key(e, key);
        if e.last().0 != key {
            assert forall|a: int, b: int| 0 <= a < b < r.len() implies seq_lt(#[trigger] r[a].0, #[trigger] r[b].0) by {
                if b < rd.len() {
                    assert(r[a] == rd[a] && r[b] == rd[b]);
                } else {
                    assert(r[a] == rd[a]);
                    assert(r[b] == e.last());
                    let u = choose|u: int| 0 <= u < d.len() && d[u] == rd[a];
                    assert(e[u] == d[u]);
                    assert(seq_lt(e[u].0, e[e.len() - 1].0));
                }
            }
        }
    }
}

/// What is read back after a section's progress is recorded: its new status
/// (stamped when completed), or nothing after it is reset to not started; the
/// other sections' entries are unchanged, and the keys stay in order.
pub proof fn lemma_mark_then_read(
    e: Seq<(Seq<char>, (ProgressStatus, Option<Seq<char>>))>,
    path: Seq<char>,
    status: ProgressStatus,
    now: Seq<char>,
    other: Seq<char>,
)
    requires
        keys_sorted(e),
    ensures
        keys_sorted(mark_spec(e, path, status, now)),
        get_key(mark_spec(e, path, status, now), path) == if status == ProgressStatus::NotStarted {
            None
        } else {
            Some((status, if status == ProgressStatus::Completed { Some(now) } else { None }))
        },
        other != path ==> get_key(mark_spec(e, path, status, now), other) == get_key(e, other),
{
    if status == ProgressStatus::NotStarted {
        lemma_remove_key_ordered(e, path);
        lemma_remove_key_members(e, path);
        let r = remove_key(e, path);
        lemma_get_absent(r, path);
        if other != path {
            lemma_get_sorted(e, other);
            lemma_get_sorted(r, other);
            if exists|t: int| 0 <= t < e.len() && (#[trigger] e[t]).0 == other {
                let t = choose|t: int| 0 <= t < e.len() && (#[trigger] e[t]).0 == other;
                assert(r.contains(e[t]));
                let u = choose|u: int| 0 <= u < r.len() && r[u] == e[t];
                lemma_get_at(r, u);
                lemma_get_at(e, t);
            } else {
                assert forall|t: int| 0 <= t < r.len() implies (#[trigger] r[t]).0 != other by {
                    assert(e.contains(r[t]));
                }
                lemma_get_absent(r, other);
            }
        }
    } else {
        lemma_put_key(e, path, (status, if status == ProgressStatus::Completed { Some(now) } else { None }), other);
    }
}

proof fn lemma_courses_without(cs: Seq<(Seq<char>, bool)>, slug: Seq<char>)
    ensures
        forall|i: int| 0 <= i < crate::vault::courses_without(cs, slug).len() ==> (#[trigger] crate::vault::courses_without(cs, slug)[i]).0 != slug,
        crate::vault::courses_without(cs, slug).len() <= cs.len(),
    decreases cs.len(),
{
    if cs.len() > 0 {
        lemma_courses_without(cs.drop_last(), slug);
        let r = crate::vault::courses_without(cs, slug);
        let p = crate::vault::courses_without(cs.drop_last(), slug);
        assert forall|i: int| 0 <= i < r.len() implies (#[trigger] r[i]).0 != slug by {
            if i < p.len() {
                assert(r[i] == p[i]);
            }
        }
    }
}

/// After a course is added to a path, the path holds it exactly once, at the
/// requested position (or at the end).
pub proof fn lemma_add_to_path(cs: Seq<(Seq<char>, bool)>, slug: Seq<char>, order_index: Option<usize>, optional: Option<bool>)
    ensures
        ({
            let r = add_to_path_spec(cs, slug, order_index, optional);
            let rest = crate::vault::courses_without(cs, slug);
            let at = match order_index {
                Some(i) => if i < rest.len() { i as int } else { rest.len() as int },
                None => rest.len() as int,
            };
            &&& 0 <= at < r.len()
            &&& r[at].0 == slug
            &&& forall|i: int| 0 <= i < r.len() && (#[trigger] r[i]).0 == slug ==> i == at
        }),
{
    lemma_courses_without(cs, slug);
    let rest = crate::vault::courses_without(cs, slug);
    let r = add_to_path_spec(cs, slug, order_index, optional);
    let at = match order_index {
        Some(i) => if i < rest.len() { i as int } else { rest.len() as int },
        None => rest.len() as int,
    };
    assert forall|i: int| 0 <= i < r.len() && (#[trigger] r[i]).0 == slug implies i == at by {
        if i < at {
            assert(r[i] == rest[i]);
        } else if i > at {
            assert(r[i] == rest[i - 1]);
        }
    }
}

} // verus!
