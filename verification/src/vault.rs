//! The vault: its catalog of categories, the references courses hold to them,
//! the section files a course is written as, and course progress.
use vstd::prelude::*;

use crate::models::{AppStatus, Category, CourseManifest, PathCourse, SectionProgressEntry, WrittenCourse};
use crate::source_fetch::FetchedMarkdown;
use crate::parser::{
    document_headings, hint_view, kids_upto, parents_of, parse_markdown_course, parsed_course_is, section_is,
    HeadingView, ParsedCourse, ParsedSection,
};
use crate::slugs::{contains_chars, first_free, first_free_name, first_free_numbered, numbered_name, slugify, slugify_of};
use crate::text::{chars_eq, chars_of, concat3, decimal2, decimal2_chars, join, slice_chars, string_of, trim, trim_str};

verus! {

/* Vault status */

/// Which of the vault's fixed entries exist on disk.
#[derive(Debug, Clone, PartialEq, Eq)]
pub struct VaultLayout {
    pub courses_dir: bool,
    pub paths_dir: bool,
    pub categories_file: bool,
    pub vault_git_dir: bool,
}

/// The status of the vault at `vault_path`.
pub fn status(vault_path: &str, layout: &VaultLayout) -> (s: AppStatus)
    ensures
        s.vault_path@ == vault_path@,
        s.courses_dir_exists == layout.courses_dir,
        s.paths_dir_exists == layout.paths_dir,
        s.categories_file_exists == layout.categories_file,
        s.vault_git_initialized == layout.vault_git_dir,
{
    AppStatus {
        vault_path: string_of(chars_of(vault_path).as_slice()),
        courses_dir_exists: layout.courses_dir,
        paths_dir_exists: layout.paths_dir,
        categories_file_exists: layout.categories_file,
        vault_git_initialized: layout.vault_git_dir,
    }
}

/* Slugs */

/// The slug of a title, or `fallback` when it has none.
pub open spec fn vault_slug(title: Seq<char>, fallback: Seq<char>) -> Seq<char> {
    if slugify_of(title).len() == 0 {
        fallback
    } else {
        slugify_of(title)
    }
}

pub fn vault_slug_chars(title: &str, fallback: &str) -> (out: Vec<char>)
    ensures
        out@ == vault_slug(title@, fallback@),
        fallback@.len() > 0 ==> out@.len() > 0,
        !fallback@.contains('.') ==> !out@.contains('.'),
        !fallback@.contains('/') ==> !out@.contains('/'),
{
    let raw = slugify(title);
    if raw.as_str().is_empty() {
        chars_of(fallback)
    } else {
        let out = chars_of(raw.as_str());
        assert forall|i: int| 0 <= i < out@.len() implies out@[i] != '.' && out@[i] != '/' by {
            assert('a' <= out@[i] <= 'z' || '0' <= out@[i] <= '9' || out@[i] == '-');
        }
        out
    }
}

/* Ordering */

/// Lexicographic order of strings by code point (the order of `String`).
pub open spec fn seq_lt(a: Seq<char>, b: Seq<char>) -> bool
    decreases a.len(),
{
    if b.len() == 0 {
        false
    } else if a.len() == 0 {
        true
    } else if a[0] != b[0] {
        a[0] < b[0]
    } else {
        seq_lt(a.drop_first(), b.drop_first())
    }
}

pub fn chars_lt(a: &[char], b: &[char]) -> (r: bool)
    ensures
        r == seq_lt(a@, b@),
{
    let mut i: usize = 0;
    assert(a@.skip(0) =~= a@);
    assert(b@.skip(0) =~= b@);
    while i < a.len() && i < b.len() && a[i] == b[i]
        invariant
            i <= a@.len(),
            i <= b@.len(),
            seq_lt(a@, b@) == seq_lt(a@.skip(i as int), b@.skip(i as int)),
        decreases a@.len() - i,
    {
        assert(a@.skip(i as int).drop_first() =~= a@.skip(i + 1));
        assert(b@.skip(i as int).drop_first() =~= b@.skip(i + 1));
        i += 1;
    }
    if i == b.len() {
        false
    } else if i == a.len() {
        true
    } else {
        a[i] < b[i]
    }
}

/// Items with their sort keys.
pub open spec fn keyed_view<T>(v: Seq<(Vec<char>, T)>) -> Seq<(Seq<char>, T)> {
    v.map_values(|p: (Vec<char>, T)| (p.0@, p.1))
}

/// Inserts `x` after every item whose key is not greater than its own.
pub open spec fn keyed_insert<T>(s: Seq<(Seq<char>, T)>, x: (Seq<char>, T)) -> Seq<(Seq<char>, T)>
    decreases s.len(),
{
    if s.len() == 0 {
        seq![x]
    } else if seq_lt(x.0, s.last().0) {
        keyed_insert(s.drop_last(), x).push(s.last())
    } else {
        s.push(x)
    }
}

/// Stable sort by key (`sort_by_key`).
pub open spec fn keyed_sort<T>(s: Seq<(Seq<char>, T)>) -> Seq<(Seq<char>, T)>
    decreases s.len(),
{
    if s.len() == 0 {
        s
    } else {
        keyed_insert(keyed_sort(s.drop_last()), s.last())
    }
}

fn keyed_insert_exec<T>(s: &mut Vec<(Vec<char>, T)>, x: (Vec<char>, T))
    ensures
        keyed_view(final(s)@) == keyed_insert(keyed_view(old(s)@), (x.0@, x.1)),
    decreases old(s)@.len(),
{
    let n = s.len();
    if n == 0 {
        s.push(x);
        assert(keyed_view(s@) =~= seq![(x.0@, x.1)]);
        return;
    }
    let ghost before = keyed_view(s@);
    if chars_lt(x.0.as_slice(), s[n - 1].0.as_slice()) {
        let last = s.pop().unwrap();
        assert(keyed_view(s@) =~= before.drop_last());
        keyed_insert_exec(s, x);
        let ghost mid = keyed_view(s@);
        s.push(last);
        assert(keyed_view(s@) =~= mid.push(before.last()));
    } else {
        s.push(x);
        assert(keyed_view(s@) =~= before.push((x.0@, x.1)));
    }
}

/// Stable sort of `items` by key.
pub fn keyed_sort_exec<T>(items: Vec<(Vec<char>, T)>) -> (out: Vec<(Vec<char>, T)>)
    ensures
        keyed_view(out@) == keyed_sort(keyed_view(items@)),
{
    let ghost all = keyed_view(items@);
    let mut rest = items;
    let mut out: Vec<(Vec<char>, T)> = Vec::new();
    let ghost mut k: int = 0;
    while rest.len() > 0
        invariant
            0 <= k <= all.len(),
            keyed_view(rest@) == all.skip(k),
            keyed_view(out@) == keyed_sort(all.take(k)),
        decreases rest@.len(),
    {
        let ghost rv = rest@;
        let ghost r0 = keyed_view(rv);
        let x = rest.remove(0);
        assert(keyed_view(rest@) =~= r0.drop_first());
        assert(r0[0] == (rv[0].0@, rv[0].1));
        assert(all.skip(k)[0] == all[k]);
        assert((x.0@, x.1) == all[k]);
        assert(all.take(k + 1).drop_last() =~= all.take(k));
        keyed_insert_exec(&mut out, x);
        proof {
            k = k + 1;
        }
        assert(all.skip(k) =~= r0.drop_first());
    }
    assert(all.take(k) =~= all);
    out
}

/// Replaces the payloads of keyed items, keeping their keys.
pub open spec fn map_payload<T, U>(s: Seq<(Seq<char>, T)>, f: spec_fn(T) -> U) -> Seq<(Seq<char>, U)> {
    s.map_values(|p: (Seq<char>, T)| (p.0, f(p.1)))
}

proof fn lemma_insert_map_payload<T, U>(s: Seq<(Seq<char>, T)>, x: (Seq<char>, T), f: spec_fn(T) -> U)
    ensures
        keyed_insert(map_payload(s, f), (x.0, f(x.1))) == map_payload(keyed_insert(s, x), f),
    decreases s.len(),
{
    let ms = map_payload(s, f);
    if s.len() == 0 {
        assert(map_payload(keyed_insert(s, x), f) =~= seq![(x.0, f(x.1))]);
    } else {
        assert(ms.drop_last() =~= map_payload(s.drop_last(), f));
        assert(ms.last() == (s.last().0, f(s.last().1)));
        if seq_lt(x.0, s.last().0) {
            lemma_insert_map_payload(s.drop_last(), x, f);
            assert(map_payload(keyed_insert(s.drop_last(), x).push(s.last()), f)
                =~= map_payload(keyed_insert(s.drop_last(), x), f).push((s.last().0, f(s.last().1))));
        } else {
            assert(map_payload(s.push(x), f) =~= ms.push((x.0, f(x.1))));
        }
    }
}

/// Sorting by key does not look at the payloads.
pub proof fn lemma_sort_map_payload<T, U>(s: Seq<(Seq<char>, T)>, f: spec_fn(T) -> U)
    ensures
        keyed_sort(map_payload(s, f)) == map_payload(keyed_sort(s), f),
    decreases s.len(),
{
    if s.len() == 0 {
        assert(map_payload(s, f) =~= Seq::<(Seq<char>, U)>::empty());
    } else {
        let ms = map_payload(s, f);
        assert(ms.drop_last() =~= map_payload(s.drop_last(), f));
        lemma_sort_map_payload(s.drop_last(), f);
        lemma_insert_map_payload(keyed_sort(s.drop_last()), s.last(), f);
    }
}

/* The category catalog */

/// What `str::to_lowercase` returns (full Unicode lowercase mapping).
pub uninterp spec fn lowercase_of(s: Seq<char>) -> Seq<char>;

/// `str::to_lowercase`. Trusted: the result is the named lowercase form of the input.
#[verifier::external_body]
fn lowercase(s: &str) -> (out: String)
    ensures
        out@ == lowercase_of(s@),
{
    s.to_lowercase()
}

pub open spec fn category_view(c: Category) -> (Seq<char>, Seq<char>) {
    (c.slug@, c.name@)
}

pub open spec fn catalog_view(cats: Seq<Category>) -> Seq<(Seq<char>, Seq<char>)> {
    cats.map_values(|c: Category| category_view(c))
}

/// Catalog entries keyed by lowercase name.
pub open spec fn keyed_by_name(cats: Seq<(Seq<char>, Seq<char>)>) -> Seq<(Seq<char>, (Seq<char>, Seq<char>))> {
    cats.map_values(|c: (Seq<char>, Seq<char>)| (lowercase_of(c.1), c))
}

pub open spec fn payloads<T>(s: Seq<(Seq<char>, T)>) -> Seq<T> {
    s.map_values(|p: (Seq<char>, T)| p.1)
}

/// The catalog as it is written: sorted by lowercase name, keeping the order of equal names.
pub open spec fn sorted_catalog(cats: Seq<(Seq<char>, Seq<char>)>) -> Seq<(Seq<char>, Seq<char>)> {
    payloads(keyed_sort(keyed_by_name(cats)))
}

spec fn entry_views(s: Seq<(Seq<char>, Category)>) -> Seq<(Seq<char>, (Seq<char>, Seq<char>))> {
    map_payload(s, |c: Category| category_view(c))
}

/// Sorts the catalog by lowercase name, as it is written to disk.
pub fn sort_catalog(catalog: Vec<Category>) -> (out: Vec<Category>)
    ensures
        catalog_view(out@) == sorted_catalog(catalog_view(catalog@)),
{
    let ghost cv = catalog_view(catalog@);
    let mut rest = catalog;
    let mut items: Vec<(Vec<char>, Category)> = Vec::new();
    let ghost mut k: int = 0;
    while rest.len() > 0
        invariant
            0 <= k <= cv.len(),
            catalog_view(rest@) == cv.skip(k),
            entry_views(keyed_view(items@)) == keyed_by_name(cv.take(k)),
        decreases rest@.len(),
    {
        let ghost rv = rest@;
        assert(catalog_view(rv).len() == rv.len());
        assert(k < cv.len());
        let c = rest.remove(0);
        assert(catalog_view(rv)[0] == category_view(c));
        assert(cv.skip(k)[0] == cv[k]);
        let key = lowercase(c.name.as_str());
        let ghost before = keyed_view(items@);
        items.push((chars_of(key.as_str()), c));
        assert(keyed_view(items@) =~= before.push((lowercase_of(cv[k].1), c)));
        assert(cv.take(k + 1) =~= cv.take(k).push(cv[k]));
        assert(entry_views(keyed_view(items@)) =~= entry_views(before).push(
            (lowercase_of(cv[k].1), category_view(c)),
        ));
        assert(keyed_by_name(cv.take(k + 1)) =~= keyed_by_name(cv.take(k)).push(
            (lowercase_of(cv[k].1), cv[k]),
        ));
        assert forall|i: int| 0 <= i < rest@.len() implies #[trigger] catalog_view(rest@)[i] == cv.skip(k + 1)[i] by {
            assert(rest@[i] == rv[i + 1]);
            assert(catalog_view(rv)[i + 1] == cv.skip(k)[i + 1]);
        }
        assert(catalog_view(rest@) =~= cv.skip(k + 1));
        proof {
            k = k + 1;
        }
    }
    assert(cv.take(k) =~= cv);
    let ghost keyed = keyed_view(items@);
    let sorted = keyed_sort_exec(items);
    proof {
        lemma_sort_map_payload(keyed, |c: Category| category_view(c));
    }
    let ghost sv = keyed_view(sorted@);
    assert(entry_views(sv) == keyed_sort(keyed_by_name(cv)));
    let mut rest2 = sorted;
    let mut out: Vec<Category> = Vec::new();
    let ghost mut j: int = 0;
    while rest2.len() > 0
        invariant
            0 <= j <= sv.len(),
            keyed_view(rest2@) == sv.skip(j),
            catalog_view(out@) == payloads(entry_views(sv.take(j))),
        decreases rest2@.len(),
    {
        let ghost rv = rest2@;
        assert(keyed_view(rv).len() == rv.len());
        assert(j < sv.len());
        let p = rest2.remove(0);
        assert(keyed_view(rv)[0] == (p.0@, p.1));
        assert(sv.skip(j)[0] == sv[j]);
        let ghost o = catalog_view(out@);
        out.push(p.1);
        assert(sv.take(j + 1) =~= sv.take(j).push(sv[j]));
        assert(catalog_view(out@) =~= o.push(category_view(sv[j].1)));
        assert(payloads(entry_views(sv.take(j + 1))) =~= payloads(entry_views(sv.take(j))).push(category_view(sv[j].1)));
        assert forall|i: int| 0 <= i < rest2@.len() implies #[trigger] keyed_view(rest2@)[i] == sv.skip(j + 1)[i] by {
            assert(rest2@[i] == rv[i + 1]);
            assert(keyed_view(rv)[i + 1] == sv.skip(j)[i + 1]);
        }
        assert(keyed_view(rest2@) =~= sv.skip(j + 1));
        proof {
            j = j + 1;
        }
    }
    assert(sv.take(j) =~= sv);
    out
}

/* Errors */

/// Why a vault operation is refused.
#[derive(Debug, Clone, PartialEq, Eq)]
pub enum VaultError {
    EmptyCategoryName,
    CategoryNotFound(String),
    CategoryExists(String),
}

pub enum VaultErrorView {
    EmptyCategoryName,
    CategoryNotFound(Seq<char>),
    CategoryExists(Seq<char>),
}

impl View for VaultError {
    type V = VaultErrorView;

    open spec fn view(&self) -> VaultErrorView {
        match self {
            VaultError::EmptyCategoryName => VaultErrorView::EmptyCategoryName,
            VaultError::CategoryNotFound(s) => VaultErrorView::CategoryNotFound(s@),
            VaultError::CategoryExists(s) => VaultErrorView::CategoryExists(s@),
        }
    }
}

pub open spec fn vault_error_message(e: VaultErrorView) -> Seq<char> {
    match e {
        VaultErrorView::EmptyCategoryName => "category name cannot be empty"@,
        VaultErrorView::CategoryNotFound(s) => "category `"@ + s + "` not found"@,
        VaultErrorView::CategoryExists(s) => "category `"@ + s + "` already exists"@,
    }
}

impl VaultError {
    /// The human-readable message of the error.
    pub fn message(&self) -> (m: String)
        ensures
            m@ == vault_error_message(self@),
    {
        match self {
            VaultError::EmptyCategoryName => string_of(chars_of("category name cannot be empty").as_slice()),
            VaultError::CategoryNotFound(s) => concat3("category `", s.as_str(), "` not found"),
            VaultError::CategoryExists(s) => concat3("category `", s.as_str(), "` already exists"),
        }
    }
}

/* Category references held by courses */

pub open spec fn strs(v: Seq<String>) -> Seq<Seq<char>> {
    v.map_values(|s: String| s@)
}

pub open spec fn opt_str_view(o: Option<&str>) -> Option<Seq<char>> {
    match o {
        Some(s) => Some(s@),
        None => None,
    }
}

/// A course's categories after `old` is replaced by `rep` (or dropped when `rep`
/// is `None`) and repeats are dropped, with whether anything changed.
pub open spec fn refs_update(cats: Seq<Seq<char>>, old: Seq<char>, rep: Option<Seq<char>>) -> (Seq<Seq<char>>, bool)
    decreases cats.len(),
{
    if cats.len() == 0 {
        (Seq::empty(), false)
    } else {
        let prev = refs_update(cats.drop_last(), old, rep);
        let c = cats.last();
        let hit = c == old;
        let next = if hit { rep } else { Some(c) };
        match next {
            None => (prev.0, true),
            Some(n) => if prev.0.contains(n) {
                (prev.0, true)
            } else {
                (prev.0.push(n), prev.1 || hit)
            },
        }
    }
}

fn contains_string(v: &Vec<String>, s: &String) -> (r: bool)
    ensures
        r == strs(v@).contains(s@),
{
    let mut i: usize = 0;
    while i < v.len()
        invariant
            i <= v@.len(),
            forall|j: int| 0 <= j < i ==> (#[trigger] v@[j])@ != s@,
        decreases v@.len() - i,
    {
        if v[i] == *s {
            assert(strs(v@)[i as int] == s@);
            return true;
        }
        i += 1;
    }
    assert forall|j: int| 0 <= j < strs(v@).len() implies strs(v@)[j] != s@ by {
        assert(v@[j]@ != s@);
    }
    false
}

/// A course's categories with `old` replaced by `rep` (or dropped), without repeats.
pub fn update_category_refs(cats: &Vec<String>, old: &str, rep: Option<&str>) -> (r: (Vec<String>, bool))
    ensures
        (strs(r.0@), r.1) == refs_update(strs(cats@), old@, opt_str_view(rep)),
{
    let ghost cv = strs(cats@);
    let mut next: Vec<String> = Vec::new();
    let mut changed = false;
    let mut i: usize = 0;
    while i < cats.len()
        invariant
            i <= cats@.len(),
            cv == strs(cats@),
            (strs(next@), changed) == refs_update(cv.take(i as int), old@, opt_str_view(rep)),
        decreases cats@.len() - i,
    {
        assert(cv.take(i + 1).drop_last() =~= cv.take(i as int));
        assert(cv.take(i + 1).last() == cats@[i as int]@);
        let c = &cats[i];
        let hit = chars_eq(chars_of(c.as_str()).as_slice(), chars_of(old).as_slice());
        let candidate: Option<String> = if hit {
            match rep {
                Some(r) => Some(string_of(chars_of(r).as_slice())),
                None => None,
            }
        } else {
            Some(string_of(chars_of(c.as_str()).as_slice()))
        };
        match candidate {
            None => {
                changed = true;
            },
            Some(n) => {
                if contains_string(&next, &n) {
                    changed = true;
                } else {
                    let ghost before = strs(next@);
                    next.push(n);
                    assert(strs(next@) =~= before.push(n@));
                    changed = changed || hit;
                }
            },
        }
        i += 1;
    }
    assert(cv.take(i as int) =~= cv);
    (next, changed)
}

pub open spec fn course_refs_view(courses: Seq<Vec<String>>) -> Seq<Seq<Seq<char>>> {
    courses.map_values(|c: Vec<String>| strs(c@))
}

pub open spec fn refs_after(courses: Seq<Seq<Seq<char>>>, old: Seq<char>, rep: Option<Seq<char>>) -> Seq<Seq<Seq<char>>> {
    courses.map_values(|c: Seq<Seq<char>>| refs_update(c, old, rep).0)
}

/// How many courses' categories change.
pub open spec fn changed_count(courses: Seq<Seq<Seq<char>>>, old: Seq<char>, rep: Option<Seq<char>>) -> nat
    decreases courses.len(),
{
    if courses.len() == 0 {
        0
    } else {
        changed_count(courses.drop_last(), old, rep) + if refs_update(courses.last(), old, rep).1 {
            1nat
        } else {
            0nat
        }
    }
}

/// Rewrites every course's categories; returns how many changed.
pub fn update_course_references(courses: &mut Vec<Vec<String>>, old_slug: &str, rep: Option<&str>) -> (n: usize)
    ensures
        course_refs_view(final(courses)@) == refs_after(course_refs_view(old(courses)@), old_slug@, opt_str_view(rep)),
        n == changed_count(course_refs_view(old(courses)@), old_slug@, opt_str_view(rep)),
{
    let ghost c0 = course_refs_view(courses@);
    let mut count: usize = 0;
    let mut i: usize = 0;
    while i < courses.len()
        invariant
            i <= courses@.len(),
            c0.len() == courses@.len(),
            count <= i,
            count == changed_count(c0.take(i as int), old_slug@, opt_str_view(rep)),
            forall|j: int| 0 <= j < i ==> #[trigger] course_refs_view(courses@)[j] == refs_update(c0[j], old_slug@, opt_str_view(rep)).0,
            forall|j: int| i <= j < courses@.len() ==> #[trigger] course_refs_view(courses@)[j] == c0[j],
        decreases courses@.len() - i,
    {
        assert(course_refs_view(courses@)[i as int] == c0[i as int]);
        let (next, changed) = update_category_refs(&courses[i], old_slug, rep);
        let ghost before = courses@;
        courses.set(i, next);
        assert forall|j: int| 0 <= j < courses@.len() && j != i implies #[trigger] course_refs_view(courses@)[j] == course_refs_view(before)[j] by {
            assert(courses@[j] == before[j]);
        }
        assert(c0.take(i + 1).drop_last() =~= c0.take(i as int));
        if changed {
            count = count + 1;
        }
        i += 1;
    }
    assert(c0.take(i as int) =~= c0);
    assert(course_refs_view(courses@) =~= refs_after(c0, old_slug@, opt_str_view(rep)));
    count
}

/* Renaming and deleting categories */

/// The first position at or after `j` of the entry with this slug, or -1.
pub open spec fn find_slug(cats: Seq<(Seq<char>, Seq<char>)>, slug: Seq<char>, j: int) -> int
    decreases cats.len() - j,
{
    if j < 0 || j >= cats.len() {
        -1
    } else if cats[j].0 == slug {
        j
    } else {
        find_slug(cats, slug, j + 1)
    }
}

fn find_category(catalog: &Vec<Category>, slug: &[char]) -> (r: Option<usize>)
    ensures
        match r {
            Some(i) => find_slug(catalog_view(catalog@), slug@, 0) == i as int && i < catalog@.len(),
            None => find_slug(catalog_view(catalog@), slug@, 0) == -1,
        },
{
    let ghost cv = catalog_view(catalog@);
    let mut i: usize = 0;
    while i < catalog.len()
        invariant
            i <= catalog@.len(),
            cv == catalog_view(catalog@),
            find_slug(cv, slug@, 0) == find_slug(cv, slug@, i as int),
        decreases catalog@.len() - i,
    {
        assert(cv[i as int] == category_view(catalog@[i as int]));
        if chars_eq(chars_of(catalog[i].slug.as_str()).as_slice(), slug) {
            return Some(i);
        }
        i += 1;
    }
    None
}

/// The new entry of a renamed category, or why the rename is refused.
pub open spec fn rename_outcome(cats: Seq<(Seq<char>, Seq<char>)>, slug: Seq<char>, name: Seq<char>) -> Result<
    (Seq<char>, Seq<char>),
    VaultErrorView,
> {
    let n = trim(name);
    if n.len() == 0 {
        Err(VaultErrorView::EmptyCategoryName)
    } else if find_slug(cats, slug, 0) < 0 {
        Err(VaultErrorView::CategoryNotFound(slug))
    } else {
        let new_slug = vault_slug(n, "category"@);
        if new_slug != slug && find_slug(cats, new_slug, 0) >= 0 {
            Err(VaultErrorView::CategoryExists(new_slug))
        } else {
            Ok((new_slug, n))
        }
    }
}

/// Renames a category: its entry takes the new name and the slug of that name,
/// the catalog is re-sorted, and courses that referred to the old slug refer to
/// the new one.
pub fn rename_category(
    catalog: &mut Vec<Category>,
    courses: &mut Vec<Vec<String>>,
    category_slug: &str,
    name: &str,
) -> (r: Result<Category, VaultError>)
    ensures
        match r {
            Ok(c) => {
                let cv = catalog_view(old(catalog)@);
                &&& rename_outcome(cv, category_slug@, name@) == Ok::<(Seq<char>, Seq<char>), VaultErrorView>(
                    category_view(c),
                )
                &&& catalog_view(final(catalog)@) == sorted_catalog(
                    cv.update(find_slug(cv, category_slug@, 0), category_view(c)),
                )
                &&& course_refs_view(final(courses)@) == if c.slug@ == category_slug@ {
                    course_refs_view(old(courses)@)
                } else {
                    refs_after(course_refs_view(old(courses)@), category_slug@, Some(c.slug@))
                }
            },
            Err(e) => {
                &&& rename_outcome(catalog_view(old(catalog)@), category_slug@, name@) == Err::<
                    (Seq<char>, Seq<char>),
                    VaultErrorView,
                >(e@)
                &&& final(catalog)@ == old(catalog)@
                &&& final(courses)@ == old(courses)@
            },
        },
{
    let ghost cv = catalog_view(catalog@);
    let trimmed = trim_str(name);
    if trimmed.len() == 0 {
        return Err(VaultError::EmptyCategoryName);
    }
    let old_slug = chars_of(category_slug);
    let idx = match find_category(catalog, old_slug.as_slice()) {
        Some(i) => i,
        None => return Err(VaultError::CategoryNotFound(string_of(old_slug.as_slice()))),
    };
    let trimmed_name = string_of(trimmed.as_slice());
    let new_slug = vault_slug_chars(trimmed_name.as_str(), "category");
    let same = chars_eq(new_slug.as_slice(), old_slug.as_slice());
    if !same {
        match find_category(catalog, new_slug.as_slice()) {
            Some(_) => return Err(VaultError::CategoryExists(string_of(new_slug.as_slice()))),
            None => {},
        }
    }
    let entry = Category { slug: string_of(new_slug.as_slice()), name: string_of(trimmed.as_slice()) };
    let renamed = Category { slug: string_of(new_slug.as_slice()), name: string_of(trimmed.as_slice()) };
    let ghost updated = cv.update(idx as int, category_view(renamed));
    catalog.set(idx, entry);
    assert(catalog_view(catalog@) =~= updated);
    let mut taken: Vec<Category> = Vec::new();
    std::mem::swap(&mut taken, catalog);
    *catalog = sort_catalog(taken);
    if !same {
        update_course_references(courses, category_slug, Some(renamed.slug.as_str()));
    }
    Ok(renamed)
}

/// The catalog without the entries with this slug.
pub open spec fn without_slug(cats: Seq<(Seq<char>, Seq<char>)>, slug: Seq<char>) -> Seq<(Seq<char>, Seq<char>)>
    decreases cats.len(),
{
    if cats.len() == 0 {
        cats
    } else {
        let rest = without_slug(cats.drop_last(), slug);
        if cats.last().0 == slug {
            rest
        } else {
            rest.push(cats.last())
        }
    }
}

/// Deletes a category from the catalog and from every course; returns how many
/// courses changed.
pub fn delete_category(catalog: &mut Vec<Category>, courses: &mut Vec<Vec<String>>, category_slug: &str) -> (r:
    Result<usize, VaultError>)
    ensures
        match r {
            Ok(n) => {
                let cv = catalog_view(old(catalog)@);
                &&& find_slug(cv, category_slug@, 0) >= 0
                &&& catalog_view(final(catalog)@) == sorted_catalog(without_slug(cv, category_slug@))
                &&& course_refs_view(final(courses)@) == refs_after(course_refs_view(old(courses)@), category_slug@, None)
                &&& n == changed_count(course_refs_view(old(courses)@), category_slug@, None)
            },
            Err(e) => {
                &&& find_slug(catalog_view(old(catalog)@), category_slug@, 0) < 0
                &&& e@ == VaultErrorView::CategoryNotFound(category_slug@)
                &&& final(catalog)@ == old(catalog)@
                &&& final(courses)@ == old(courses)@
            },
        },
{
    let ghost cv = catalog_view(catalog@);
    let slug = chars_of(category_slug);
    if find_category(catalog, slug.as_slice()).is_none() {
        return Err(VaultError::CategoryNotFound(string_of(slug.as_slice())));
    }
    let mut rest: Vec<Category> = Vec::new();
    std::mem::swap(&mut rest, catalog);
    let mut kept: Vec<Category> = Vec::new();
    let ghost mut k: int = 0;
    while rest.len() > 0
        invariant
            0 <= k <= cv.len(),
            catalog_view(rest@) == cv.skip(k),
            catalog_view(kept@) == without_slug(cv.take(k), slug@),
        decreases rest@.len(),
    {
        let ghost rv = rest@;
        assert(catalog_view(rv).len() == rv.len());
        assert(k < cv.len());
        let c = rest.remove(0);
        assert(catalog_view(rv)[0] == category_view(c));
        assert(cv.skip(k)[0] == cv[k]);
        assert(cv.take(k + 1).drop_last() =~= cv.take(k));
        let ghost before = catalog_view(kept@);
        if !chars_eq(chars_of(c.slug.as_str()).as_slice(), slug.as_slice()) {
            kept.push(c);
            assert(catalog_view(kept@) =~= before.push(cv[k]));
        }
        assert forall|i: int| 0 <= i < rest@.len() implies #[trigger] catalog_view(rest@)[i] == cv.skip(k + 1)[i] by {
            assert(rest@[i] == rv[i + 1]);
            assert(catalog_view(rv)[i + 1] == cv.skip(k)[i + 1]);
        }
        assert(catalog_view(rest@) =~= cv.skip(k + 1));
        proof {
            k = k + 1;
        }
    }
    assert(cv.take(k) =~= cv);
    *catalog = sort_catalog(kept);
    let n = update_course_references(courses, category_slug, None);
    Ok(n)
}

/* Section slugs and canonical paths */

pub open spec fn titles_of(sections: Seq<ParsedSection>) -> Seq<Seq<char>> {
    sections.map_values(|s: ParsedSection| s.title@)
}

/// The slugs of sibling sections: each title's slug (`section` when it has
/// none), numbered past the slugs of the siblings before it.
pub open spec fn sibling_slugs(titles: Seq<Seq<char>>) -> Seq<Seq<char>>
    decreases titles.len(),
{
    if titles.len() == 0 {
        Seq::empty()
    } else {
        let prev = sibling_slugs(titles.drop_last());
        prev.push(first_free(vault_slug(titles.last(), "section"@), Seq::empty(), prev))
    }
}

/// Every title gets a slug, and the slugs of a prefix of the titles are a prefix of the slugs.
pub proof fn lemma_sibling_slugs_prefix(titles: Seq<Seq<char>>, j: int)
    requires
        0 <= j <= titles.len(),
    ensures
        sibling_slugs(titles).len() == titles.len(),
        sibling_slugs(titles.take(j)) == sibling_slugs(titles).take(j),
    decreases titles.len(),
{
    if titles.len() > 0 {
        if j == titles.len() {
            assert(titles.take(j) =~= titles);
            lemma_sibling_slugs_prefix(titles.drop_last(), j - 1);
        } else {
            assert(titles.take(j) =~= titles.drop_last().take(j));
            lemma_sibling_slugs_prefix(titles.drop_last(), j);
        }
        assert(sibling_slugs(titles).take(j) =~= sibling_slugs(titles.drop_last()).take(j) || j == titles.len());
    }
}

/// The canonical paths of a group of sibling sections and all their
/// descendants, in document order; `parent` holds the slugs above them.
pub open spec fn group_paths(sections: Seq<ParsedSection>, parent: Seq<Seq<char>>, k: int) -> Seq<Seq<char>>
    decreases sections, k,
{
    if k <= 0 || k > sections.len() {
        Seq::empty()
    } else {
        group_paths(sections, parent, k - 1) + section_paths(
            sections[k - 1],
            parent.push(sibling_slugs(titles_of(sections))[k - 1]),
        )
    }
}

/// The canonical path of a section (its slugs joined by `/`) and those of its descendants.
pub open spec fn section_paths(s: ParsedSection, parts: Seq<Seq<char>>) -> Seq<Seq<char>>
    decreases s, 0int,
{
    seq![join(parts, "/"@)] + group_paths(s.children@, parts, s.children@.len() as int)
}

pub open spec fn parts_view(parts: Seq<Vec<char>>) -> Seq<Seq<char>> {
    parts.map_values(|p: Vec<char>| p@)
}

fn extend_parts(parent: &Vec<Vec<char>>, slug: &[char]) -> (out: Vec<Vec<char>>)
    ensures
        parts_view(out@) == parts_view(parent@).push(slug@),
{
    let mut out: Vec<Vec<char>> = Vec::new();
    let mut i: usize = 0;
    while i < parent.len()
        invariant
            i <= parent@.len(),
            parts_view(out@) == parts_view(parent@).take(i as int),
        decreases parent@.len() - i,
    {
        let p = &parent[i];
        let copy = slice_chars(p.as_slice(), 0, p.len());
        assert(copy@ =~= parent@[i as int]@);
        let ghost before = parts_view(out@);
        out.push(copy);
        assert(parts_view(out@) =~= before.push(parent@[i as int]@));
        assert(parts_view(parent@).take(i + 1) =~= parts_view(parent@).take(i as int).push(parent@[i as int]@));
        i += 1;
    }
    assert(parts_view(parent@).take(i as int) =~= parts_view(parent@));
    let ghost before = parts_view(out@);
    let last = slice_chars(slug, 0, slug.len());
    assert(last@ =~= slug@);
    out.push(last);
    assert(parts_view(out@) =~= before.push(slug@));
    out
}

fn slash() -> (out: Vec<char>)
    ensures
        out@ == "/"@,
{
    let out = chars_of("/");
    proof {
        reveal_strlit("/");
    }
    out
}

/// Appends the canonical paths of `sections` and their descendants, in document order.
fn collect_section_paths(sections: &Vec<ParsedSection>, parent: &Vec<Vec<char>>, out: &mut Vec<String>)
    ensures
        strs(final(out)@) == strs(old(out)@) + group_paths(sections@, parts_view(parent@), sections@.len() as int),
    decreases sections@,
{
    let ghost t = titles_of(sections@);
    let ghost o0 = strs(out@);
    let mut used: Vec<String> = Vec::new();
    let empty: Vec<char> = Vec::new();
    let mut i: usize = 0;
    proof {
        lemma_sibling_slugs_prefix(t, 0);
    }
    assert(strs(used@) =~= sibling_slugs(t.take(0)));
    while i < sections.len()
        invariant
            i <= sections@.len(),
            t == titles_of(sections@),
            empty@ == Seq::<char>::empty(),
            strs(used@) == sibling_slugs(t.take(i as int)),
            strs(out@) == o0 + group_paths(sections@, parts_view(parent@), i as int),
        decreases sections@.len() - i,
    {
        let section = &sections[i];
        let base = vault_slug_chars(section.title.as_str(), "section");
        let slug = first_free_numbered(base.as_slice(), empty.as_slice(), &used);
        proof {
            assert(t.take(i + 1).drop_last() =~= t.take(i as int));
            assert(t[i as int] == section.title@);
            assert(strs(used@) =~= used@.map_values(|s: String| s@));
            lemma_sibling_slugs_prefix(t, i + 1);
            lemma_sibling_slugs_prefix(t, i as int);
        }
        let ghost before_used = strs(used@);
        assert(sibling_slugs(t.take(i + 1)) == before_used.push(slug@));
        used.push(string_of(slug.as_slice()));
        assert(strs(used@) =~= before_used.push(slug@));
        assert(sibling_slugs(t)[i as int] == slug@) by {
            assert(sibling_slugs(t.take(i + 1)) == sibling_slugs(t).take(i + 1));
            assert(sibling_slugs(t).take(i + 1)[i as int] == sibling_slugs(t)[i as int]);
        }
        let parts = extend_parts(parent, slug.as_slice());
        let path = crate::text::join_chars(&parts, slash().as_slice());
        assert(parts@.map_values(|p: Vec<char>| p@) =~= parts_view(parts@));
        let ghost o1 = strs(out@);
        out.push(string_of(path.as_slice()));
        assert(strs(out@) =~= o1.push(path@));
        assert(decreases_to!(sections@ => sections@[i as int]));
        assert(decreases_to!(sections@[i as int] => sections@[i as int].children@));
        collect_section_paths(&section.children, &parts, out);
        proof {
            let sp = section_paths(sections@[i as int], parts_view(parent@).push(sibling_slugs(titles_of(sections@))[i as int]));
            assert(parts_view(parts@) == parts_view(parent@).push(sibling_slugs(titles_of(sections@))[i as int]));
            assert(sp == seq![path@] + group_paths(section.children@, parts_view(parts@), section.children@.len() as int));
            assert(group_paths(sections@, parts_view(parent@), i + 1) == group_paths(sections@, parts_view(parent@), i as int) + sp);
        }
        i += 1;
        assert(strs(out@) =~= o0 + group_paths(sections@, parts_view(parent@), i as int));
    }
}

/// The canonical path of every section of the course that this Markdown parses
/// to, in document order.
pub fn canonical_paths_for_markdown(markdown: &str, title_hint: Option<&str>) -> (paths: Vec<String>)
    ensures
        exists|course: ParsedCourse|
            #![trigger parsed_course_is(markdown@, hint_view(title_hint), course)]
            parsed_course_is(markdown@, hint_view(title_hint), course) && strs(paths@) == group_paths(
                course.sections@,
                Seq::empty(),
                course.sections@.len() as int,
            ),
{
    let course = parse_markdown_course(markdown, title_hint);
    let mut paths: Vec<String> = Vec::new();
    let parent: Vec<Vec<char>> = Vec::new();
    assert(parts_view(parent@) =~= Seq::<Seq<char>>::empty());
    collect_section_paths(&course.sections, &parent, &mut paths);
    assert(strs(paths@) =~= group_paths(course.sections@, Seq::empty(), course.sections@.len() as int));
    paths
}

/* Progress kept for sections that no longer exist */

/// Strings sorted in `String` order.
pub open spec fn sorted_strings(v: Seq<Seq<char>>) -> Seq<Seq<char>> {
    payloads(keyed_sort(v.map_values(|x: Seq<char>| (x, x))))
}

spec fn string_entries(s: Seq<(Seq<char>, String)>) -> Seq<(Seq<char>, Seq<char>)> {
    map_payload(s, |x: String| x@)
}

/// Sorts strings in `String` order.
pub fn sort_strings(v: Vec<String>) -> (out: Vec<String>)
    ensures
        strs(out@) == sorted_strings(strs(v@)),
{
    let ghost sv0 = strs(v@);
    let mut rest = v;
    let mut items: Vec<(Vec<char>, String)> = Vec::new();
    let ghost mut k: int = 0;
    while rest.len() > 0
        invariant
            0 <= k <= sv0.len(),
            strs(rest@) == sv0.skip(k),
            string_entries(keyed_view(items@)) == sv0.take(k).map_values(|x: Seq<char>| (x, x)),
        decreases rest@.len(),
    {
        let ghost rv = rest@;
        assert(strs(rv).len() == rv.len());
        assert(k < sv0.len());
        let x = rest.remove(0);
        assert(strs(rv)[0] == x@);
        assert(sv0.skip(k)[0] == sv0[k]);
        let ghost before = keyed_view(items@);
        let key = chars_of(x.as_str());
        items.push((key, x));
        assert(keyed_view(items@) =~= before.push((sv0[k], x)));
        assert(string_entries(keyed_view(items@)) =~= string_entries(before).push((sv0[k], sv0[k])));
        assert(sv0.take(k + 1) =~= sv0.take(k).push(sv0[k]));
        assert(sv0.take(k + 1).map_values(|x: Seq<char>| (x, x)) =~= sv0.take(k).map_values(
            |x: Seq<char>| (x, x),
        ).push((sv0[k], sv0[k])));
        assert forall|i: int| 0 <= i < rest@.len() implies #[trigger] strs(rest@)[i] == sv0.skip(k + 1)[i] by {
            assert(rest@[i] == rv[i + 1]);
            assert(strs(rv)[i + 1] == sv0.skip(k)[i + 1]);
        }
        assert(strs(rest@) =~= sv0.skip(k + 1));
        proof {
            k = k + 1;
        }
    }
    assert(sv0.take(k) =~= sv0);
    let ghost keyed = keyed_view(items@);
    let sorted = keyed_sort_exec(items);
    proof {
        lemma_sort_map_payload(keyed, |x: String| x@);
    }
    let ghost sv = keyed_view(sorted@);
    assert(string_entries(sv) == keyed_sort(sv0.map_values(|x: Seq<char>| (x, x))));
    let mut rest2 = sorted;
    let mut out: Vec<String> = Vec::new();
    let ghost mut j: int = 0;
    while rest2.len() > 0
        invariant
            0 <= j <= sv.len(),
            keyed_view(rest2@) == sv.skip(j),
            strs(out@) == payloads(string_entries(sv.take(j))),
        decreases rest2@.len(),
    {
        let ghost rv = rest2@;
        assert(keyed_view(rv).len() == rv.len());
        assert(j < sv.len());
        let p = rest2.remove(0);
        assert(keyed_view(rv)[0] == (p.0@, p.1));
        assert(sv.skip(j)[0] == sv[j]);
        let ghost o = strs(out@);
        out.push(p.1);
        assert(sv.take(j + 1) =~= sv.take(j).push(sv[j]));
        assert(strs(out@) =~= o.push(sv[j].1@));
        assert(payloads(string_entries(sv.take(j + 1))) =~= payloads(string_entries(sv.take(j))).push(sv[j].1@));
        assert forall|i: int| 0 <= i < rest2@.len() implies #[trigger] keyed_view(rest2@)[i] == sv.skip(j + 1)[i] by {
            assert(rest2@[i] == rv[i + 1]);
            assert(keyed_view(rv)[i + 1] == sv.skip(j)[i + 1]);
        }
        assert(keyed_view(rest2@) =~= sv.skip(j + 1));
        proof {
            j = j + 1;
        }
    }
    assert(sv.take(j) =~= sv);
    out
}

/// The keys that `paths` does not hold, in their order.
pub open spec fn absent_from(keys: Seq<Seq<char>>, paths: Seq<Seq<char>>) -> Seq<Seq<char>>
    decreases keys.len(),
{
    if keys.len() == 0 {
        keys
    } else {
        let rest = absent_from(keys.drop_last(), paths);
        if paths.contains(keys.last()) {
            rest
        } else {
            rest.push(keys.last())
        }
    }
}

fn keys_absent_from(keys: &Vec<String>, paths: &Vec<String>) -> (out: Vec<String>)
    ensures
        strs(out@) == absent_from(strs(keys@), strs(paths@)),
{
    let ghost kv = strs(keys@);
    let mut out: Vec<String> = Vec::new();
    let mut i: usize = 0;
    while i < keys.len()
        invariant
            i <= keys@.len(),
            kv == strs(keys@),
            strs(out@) == absent_from(kv.take(i as int), strs(paths@)),
        decreases keys@.len() - i,
    {
        assert(kv.take(i + 1).drop_last() =~= kv.take(i as int));
        assert(kv.take(i + 1).last() == keys@[i as int]@);
        if !contains_string(paths, &keys[i]) {
            let ghost before = strs(out@);
            out.push(string_of(chars_of(keys[i].as_str()).as_slice()));
            assert(strs(out@) =~= before.push(keys@[i as int]@));
        }
        i += 1;
    }
    assert(kv.take(i as int) =~= kv);
    out
}

/// The recorded progress paths that name no section of the course this
/// Markdown parses to, sorted.
pub fn orphaned_progress_paths_for_markdown(
    progress_paths: &Vec<String>,
    markdown: &str,
    title_hint: Option<&str>,
) -> (orphaned: Vec<String>)
    ensures
        exists|course: ParsedCourse|
            #![trigger parsed_course_is(markdown@, hint_view(title_hint), course)]
            parsed_course_is(markdown@, hint_view(title_hint), course) && strs(orphaned@) == sorted_strings(
                absent_from(
                    strs(progress_paths@),
                    group_paths(course.sections@, Seq::empty(), course.sections@.len() as int),
                ),
            ),
{
    let canonical = canonical_paths_for_markdown(markdown, title_hint);
    let absent = keys_absent_from(progress_paths, &canonical);
    sort_strings(absent)
}

/// Drops the progress entries of paths that `canonical` does not hold; returns
/// those paths, sorted.
pub fn prune_progress<E>(entries: &mut Vec<(String, E)>, canonical: &Vec<String>) -> (orphaned: Vec<String>)
    ensures
        strs(orphaned@) == sorted_strings(absent_from(entry_keys(old(entries)@), strs(canonical@))),
        forall|i: int| 0 <= i < final(entries)@.len() ==> strs(canonical@).contains(#[trigger] final(entries)@[i].0@),
        final(entries)@ == kept_entries(old(entries)@, strs(canonical@)),
{
    let ghost ev = entry_keys(entries@);
    let ghost es = entries@;
    let mut rest: Vec<(String, E)> = Vec::new();
    std::mem::swap(&mut rest, entries);
    let mut absent: Vec<String> = Vec::new();
    let ghost mut k: int = 0;
    while rest.len() > 0
        invariant
            0 <= k <= ev.len(),
            entry_keys(rest@) == ev.skip(k),
            strs(absent@) == absent_from(ev.take(k), strs(canonical@)),
            ev == entry_keys(es),
            rest@ == es.skip(k),
            entries@ == kept_entries(es.take(k), strs(canonical@)),
            forall|i: int| 0 <= i < entries@.len() ==> strs(canonical@).contains(#[trigger] entries@[i].0@),
        decreases rest@.len(),
    {
        let ghost rv = rest@;
        assert(entry_keys(rv).len() == rv.len());
        assert(k < ev.len());
        let e = rest.remove(0);
        assert(entry_keys(rv)[0] == e.0@);
        assert(ev.skip(k)[0] == ev[k]);
        assert(ev.take(k + 1).drop_last() =~= ev.take(k));
        assert(ev.take(k + 1).last() == ev[k]);
        assert(es.take(k + 1).drop_last() =~= es.take(k));
        assert(es.skip(k)[0] == es[k]);
        assert(e == es[k]);
        assert(es[k].0@ == ev[k]);
        if contains_string(canonical, &e.0) {
            entries.push(e);
        } else {
            let ghost before = strs(absent@);
            absent.push(e.0);
            assert(strs(absent@) =~= before.push(ev[k]));
        }
        assert forall|i: int| 0 <= i < rest@.len() implies #[trigger] entry_keys(rest@)[i] == ev.skip(k + 1)[i] by {
            assert(rest@[i] == rv[i + 1]);
            assert(entry_keys(rv)[i + 1] == ev.skip(k)[i + 1]);
        }
        assert(entry_keys(rest@) =~= ev.skip(k + 1));
        assert(rest@ =~= es.skip(k + 1));
        proof {
            k = k + 1;
        }
    }
    assert(ev.take(k) =~= ev);
    assert(es.take(k) =~= es);
    sort_strings(absent)
}

/// The entries whose key `paths` holds, in their order.
pub open spec fn kept_entries<E>(entries: Seq<(String, E)>, paths: Seq<Seq<char>>) -> Seq<(String, E)>
    decreases entries.len(),
{
    if entries.len() == 0 {
        entries
    } else {
        let rest = kept_entries(entries.drop_last(), paths);
        if paths.contains(entries.last().0@) {
            rest.push(entries.last())
        } else {
            rest
        }
    }
}

pub open spec fn entry_keys<E>(entries: Seq<(String, E)>) -> Seq<Seq<char>> {
    entries.map_values(|e: (String, E)| e.0@)
}

/* Writing a course */

/// The slug of a new course: the title's slug (`course` when it has none),
/// numbered past the entries already in the courses folder.
pub fn unique_course_slug(title: &str, existing: &Vec<String>) -> (slug: String)
    ensures
        slug@ == first_free(vault_slug(title@, "course"@), Seq::empty(), strs(existing@)),
{
    let base = vault_slug_chars(title, "course");
    let empty: Vec<char> = Vec::new();
    let out = first_free_numbered(base.as_slice(), empty.as_slice(), existing);
    assert(existing@.map_values(|s: String| s@) =~= strs(existing@));
    assert(empty@ =~= Seq::<char>::empty());
    string_of(out.as_slice())
}

/// A section as it is to be written: a `NN-slug.md` file, or a `NN-slug` folder
/// holding `_index.md` and the subsections.
#[derive(Debug)]
pub struct SectionPlan {
    pub title: String,
    pub slug: String,
    /// `NN-slug`, numbered from 01 among its siblings.
    pub file_stem: String,
    pub canonical_path: String,
    pub heading_level: u8,
    pub order_index: usize,
    pub body: String,
    pub children: Vec<SectionPlan>,
}

/// `p` is the plan of section `s`, the `index`-th of its siblings, whose slug is
/// `slug` and whose ancestors have the slugs `parent`.
pub open spec fn plan_is(p: SectionPlan, s: ParsedSection, parent: Seq<Seq<char>>, slug: Seq<char>, index: nat) -> bool
    decreases s, 0int,
{
    &&& p.title@ == s.title@
    &&& p.slug@ == slug
    &&& slug.len() > 0
    &&& !slug.contains('.')
    &&& !slug.contains('/')
    &&& p.file_stem@ == decimal2(index + 1) + "-"@ + slug
    &&& p.canonical_path@ == join(parent.push(slug), "/"@)
    &&& p.heading_level == s.level
    &&& p.order_index == index
    &&& p.body@ == s.body@
    &&& plans_are(p.children@, s.children@, parent.push(slug))
}

/// `ps` are the plans of the sibling sections `ss`.
pub open spec fn plans_are(ps: Seq<SectionPlan>, ss: Seq<ParsedSection>, parent: Seq<Seq<char>>) -> bool
    decreases ss, 1int,
{
    &&& ps.len() == ss.len()
    &&& forall|k: int|
        #![trigger ps[k]]
        0 <= k < ss.len() ==> plan_is(ps[k], ss[k], parent, sibling_slugs(titles_of(ss))[k], k as nat)
}

fn dash() -> (out: Vec<char>)
    ensures
        out@ == "-"@,
{
    let out = chars_of("-");
    proof {
        reveal_strlit("-");
    }
    out
}

/// Plans the files of sibling sections and their descendants.
pub fn plan_sections(sections: &Vec<ParsedSection>, parent: &Vec<Vec<char>>) -> (plans: Vec<SectionPlan>)
    ensures
        plans_are(plans@, sections@, parts_view(parent@)),
    decreases sections@,
{
    let ghost t = titles_of(sections@);
    let mut used: Vec<String> = Vec::new();
    let empty: Vec<char> = Vec::new();
    let mut plans: Vec<SectionPlan> = Vec::new();
    let mut i: usize = 0;
    proof {
        lemma_sibling_slugs_prefix(t, 0);
    }
    assert(strs(used@) =~= sibling_slugs(t.take(0)));
    while i < sections.len()
        invariant
            i <= sections@.len(),
            t == titles_of(sections@),
            empty@ == Seq::<char>::empty(),
            strs(used@) == sibling_slugs(t.take(i as int)),
            plans@.len() == i,
            forall|k: int|
                #![trigger plans@[k]]
                0 <= k < i ==> plan_is(plans@[k], sections@[k], parts_view(parent@), sibling_slugs(t)[k], k as nat),
        decreases sections@.len() - i,
    {
        let section = &sections[i];
        let base = vault_slug_chars(section.title.as_str(), "section");
        let slug = first_free_numbered(base.as_slice(), empty.as_slice(), &used);
        proof {
            assert(t.take(i + 1).drop_last() =~= t.take(i as int));
            assert(t[i as int] == section.title@);
            assert(strs(used@) =~= used@.map_values(|s: String| s@));
            lemma_sibling_slugs_prefix(t, i + 1);
            lemma_sibling_slugs_prefix(t, i as int);
        }
        let ghost before_used = strs(used@);
        assert(sibling_slugs(t.take(i + 1)) == before_used.push(slug@));
        used.push(string_of(slug.as_slice()));
        assert(strs(used@) =~= before_used.push(slug@));
        assert(sibling_slugs(t)[i as int] == slug@) by {
            assert(sibling_slugs(t.take(i + 1)) == sibling_slugs(t).take(i + 1));
            assert(sibling_slugs(t).take(i + 1)[i as int] == sibling_slugs(t)[i as int]);
        }
        proof {
            reveal_strlit("section");
            assert("section"@.len() > 0);
            assert(!"section"@.contains('.') && !"section"@.contains('/')) by {
                assert forall|j: int| 0 <= j < "section"@.len() implies "section"@[j] != '.' && "section"@[j] != '/' by {}
            }
            let k = choose|k: nat|
                #![trigger numbered_name(base@, k)]
                1 <= k && slug@ == numbered_name(base@, k) && !before_used.contains(slug@ + empty@) && forall|j: nat|
                    #![trigger numbered_name(base@, j)]
                    1 <= j < k ==> before_used.contains(numbered_name(base@, j) + empty@);
            crate::slugs::lemma_numbered_name_chars(base@, k);
            if slug@.contains('.') {
                assert(base@.contains('.'));
            }
            if slug@.contains('/') {
                assert(base@.contains('/'));
            }
        }
        let parts = extend_parts(parent, slug.as_slice());
        let path = crate::text::join_chars(&parts, slash().as_slice());
        assert(parts@.map_values(|p: Vec<char>| p@) =~= parts_view(parts@));
        let mut stem = decimal2_chars((i + 1) as u64);
        let d = dash();
        crate::text::append_chars(&mut stem, d.as_slice());
        crate::text::append_chars(&mut stem, slug.as_slice());
        assert(decreases_to!(sections@ => sections@[i as int]));
        assert(decreases_to!(sections@[i as int] => sections@[i as int].children@));
        let children = plan_sections(&section.children, &parts);
        let plan = SectionPlan {
            title: string_of(chars_of(section.title.as_str()).as_slice()),
            slug: string_of(slug.as_slice()),
            file_stem: string_of(stem.as_slice()),
            canonical_path: string_of(path.as_slice()),
            heading_level: section.level,
            order_index: i,
            body: string_of(chars_of(section.body.as_str()).as_slice()),
            children,
        };
        assert(plan_is(plan, sections@[i as int], parts_view(parent@), sibling_slugs(t)[i as int], i as nat));
        plans.push(plan);
        i += 1;
    }
    plans
}

/// The canonical paths of planned sections and their descendants, in document order.
pub open spec fn plan_paths(ps: Seq<SectionPlan>, k: int) -> Seq<Seq<char>>
    decreases ps, k,
{
    if k <= 0 || k > ps.len() {
        Seq::empty()
    } else {
        plan_paths(ps, k - 1) + plan_tree_paths(ps[k - 1])
    }
}

pub open spec fn plan_tree_paths(p: SectionPlan) -> Seq<Seq<char>>
    decreases p, 0int,
{
    seq![p.canonical_path@] + plan_paths(p.children@, p.children@.len() as int)
}

/// Appends the canonical paths of planned sections and their descendants.
pub fn collect_plan_paths(plans: &Vec<SectionPlan>, out: &mut Vec<String>)
    ensures
        strs(final(out)@) == strs(old(out)@) + plan_paths(plans@, plans@.len() as int),
    decreases plans@,
{
    let ghost o0 = strs(out@);
    let mut i: usize = 0;
    while i < plans.len()
        invariant
            i <= plans@.len(),
            strs(out@) == o0 + plan_paths(plans@, i as int),
        decreases plans@.len() - i,
    {
        let p = &plans[i];
        let ghost o1 = strs(out@);
        out.push(string_of(chars_of(p.canonical_path.as_str()).as_slice()));
        assert(strs(out@) =~= o1.push(p.canonical_path@));
        assert(decreases_to!(plans@ => plans@[i as int]));
        assert(decreases_to!(plans@[i as int] => plans@[i as int].children@));
        collect_plan_paths(&p.children, out);
        proof {
            assert(plan_tree_paths(plans@[i as int]) == seq![p.canonical_path@] + plan_paths(p.children@, p.children@.len() as int));
            assert(plan_paths(plans@, i + 1) == plan_paths(plans@, i as int) + plan_tree_paths(plans@[i as int]));
        }
        i += 1;
        assert(strs(out@) =~= o0 + plan_paths(plans@, i as int));
    }
}

/// A course ready to be written: its slug, manifest, source snapshot and sections.
#[derive(Debug)]
pub struct CoursePlan {
    pub slug: String,
    pub manifest: CourseManifest,
    pub content: String,
    pub sections: Vec<SectionPlan>,
}

pub open spec fn opt_view(o: Option<String>) -> Option<Seq<char>> {
    match o {
        Some(s) => Some(s@),
        None => None,
    }
}

fn hint_of(hint: &Option<String>) -> (r: Option<&str>)
    ensures
        hint_view(r) == opt_view(*hint),
{
    match hint {
        Some(h) => Some(h.as_str()),
        None => None,
    }
}

/// Plans a fetched course: the parsed course's title and sections, a slug
/// numbered past the existing course folders, and a manifest with no
/// description or categories.
pub fn plan_course(fetched: FetchedMarkdown, existing_courses: &Vec<String>) -> (plan: CoursePlan)
    ensures
        plan.content@ == fetched.content@,
        plan.manifest.source == fetched.source,
        exists|course: ParsedCourse|
            #![trigger parsed_course_is(fetched.content@, opt_view(fetched.title_hint), course)]
            {
                &&& parsed_course_is(fetched.content@, opt_view(fetched.title_hint), course)
                &&& plan.slug@ == first_free(vault_slug(course.title@, "course"@), Seq::empty(), strs(existing_courses@))
                &&& plan.manifest.title@ == course.title@
                &&& plan.manifest.slug@ == plan.slug@
                &&& plan.manifest.description.is_none()
                &&& plan.manifest.categories@.len() == 0
                &&& plans_are(plan.sections@, course.sections@, Seq::empty())
            },
{
    let FetchedMarkdown { content, title_hint, source } = fetched;
    let course = parse_markdown_course(content.as_str(), hint_of(&title_hint));
    let slug = unique_course_slug(course.title.as_str(), existing_courses);
    let parent: Vec<Vec<char>> = Vec::new();
    assert(parts_view(parent@) =~= Seq::<Seq<char>>::empty());
    let sections = plan_sections(&course.sections, &parent);
    let manifest = CourseManifest {
        title: string_of(chars_of(course.title.as_str()).as_slice()),
        slug: string_of(chars_of(slug.as_str()).as_slice()),
        description: None,
        categories: Vec::new(),
        source,
    };
    CoursePlan { slug, manifest, content, sections }
}

/// Re-plans a course from freshly fetched Markdown: new sections under the same
/// manifest (with the new provenance), and the progress entries of vanished
/// sections dropped; returns those entries' paths, sorted.
pub fn plan_reimport(
    manifest: &mut CourseManifest,
    fetched: FetchedMarkdown,
    progress: &mut Vec<(String, SectionProgressEntry)>,
) -> (r: (Vec<SectionPlan>, String, Vec<String>))
    ensures
        final(manifest).title == old(manifest).title,
        final(manifest).slug == old(manifest).slug,
        final(manifest).description == old(manifest).description,
        final(manifest).categories == old(manifest).categories,
        final(manifest).source == fetched.source,
        r.1@ == fetched.content@,
        exists|course: ParsedCourse|
            #![trigger parsed_course_is(fetched.content@, opt_view(fetched.title_hint), course)]
            {
                &&& parsed_course_is(fetched.content@, opt_view(fetched.title_hint), course)
                &&& plans_are(r.0@, course.sections@, Seq::empty())
            },
        strs(r.2@) == sorted_strings(absent_from(entry_keys(old(progress)@), plan_paths(r.0@, r.0@.len() as int))),
        final(progress)@ == kept_entries(old(progress)@, plan_paths(r.0@, r.0@.len() as int)),
{
    let FetchedMarkdown { content, title_hint, source } = fetched;
    let course = parse_markdown_course(content.as_str(), hint_of(&title_hint));
    let parent: Vec<Vec<char>> = Vec::new();
    assert(parts_view(parent@) =~= Seq::<Seq<char>>::empty());
    let sections = plan_sections(&course.sections, &parent);
    let mut canonical: Vec<String> = Vec::new();
    collect_plan_paths(&sections, &mut canonical);
    assert(strs(canonical@) =~= plan_paths(sections@, sections@.len() as int));
    let orphaned = prune_progress(progress, &canonical);
    manifest.source = source;
    (sections, content, orphaned)
}

/// A re-imported course, with the progress paths it no longer has.
#[derive(Debug, PartialEq, Eq)]
pub struct ReimportedCourse {
    pub written: WrittenCourse,
    pub orphaned_progress_paths: Vec<String>,
}

/* Learning paths */

pub open spec fn path_course_view(c: PathCourse) -> (Seq<char>, bool) {
    (c.slug@, c.optional)
}

pub open spec fn path_courses_view(cs: Seq<PathCourse>) -> Seq<(Seq<char>, bool)> {
    cs.map_values(|c: PathCourse| path_course_view(c))
}

/// The courses of a path without those with this slug.
pub open spec fn courses_without(cs: Seq<(Seq<char>, bool)>, slug: Seq<char>) -> Seq<(Seq<char>, bool)>
    decreases cs.len(),
{
    if cs.len() == 0 {
        cs
    } else {
        let rest = courses_without(cs.drop_last(), slug);
        if cs.last().0 == slug {
            rest
        } else {
            rest.push(cs.last())
        }
    }
}

/// Removes a course from a path; whether the path held it.
pub fn remove_course_from_path(courses: &mut Vec<PathCourse>, course_slug: &str) -> (removed: bool)
    ensures
        path_courses_view(final(courses)@) == courses_without(path_courses_view(old(courses)@), course_slug@),
        removed == (courses_without(path_courses_view(old(courses)@), course_slug@).len() < old(courses)@.len()),
{
    let ghost cv = path_courses_view(courses@);
    let slug = chars_of(course_slug);
    let before_len = courses.len();
    let mut rest: Vec<PathCourse> = Vec::new();
    std::mem::swap(&mut rest, courses);
    let ghost mut k: int = 0;
    while rest.len() > 0
        invariant
            0 <= k <= cv.len(),
            before_len == cv.len(),
            path_courses_view(rest@) == cv.skip(k),
            path_courses_view(courses@) == courses_without(cv.take(k), slug@),
        decreases rest@.len(),
    {
        let ghost rv = rest@;
        assert(path_courses_view(rv).len() == rv.len());
        assert(k < cv.len());
        let c = rest.remove(0);
        assert(path_courses_view(rv)[0] == path_course_view(c));
        assert(cv.skip(k)[0] == cv[k]);
        assert(cv.take(k + 1).drop_last() =~= cv.take(k));
        let ghost before = path_courses_view(courses@);
        if !chars_eq(chars_of(c.slug.as_str()).as_slice(), slug.as_slice()) {
            courses.push(c);
            assert(path_courses_view(courses@) =~= before.push(cv[k]));
        }
        assert forall|i: int| 0 <= i < rest@.len() implies #[trigger] path_courses_view(rest@)[i] == cv.skip(k + 1)[i] by {
            assert(rest@[i] == rv[i + 1]);
            assert(path_courses_view(rv)[i + 1] == cv.skip(k)[i + 1]);
        }
        assert(path_courses_view(rest@) =~= cv.skip(k + 1));
        proof {
            k = k + 1;
        }
    }
    assert(cv.take(k) =~= cv);
    courses.len() < before_len
}

/* What is written is what is reported */

/// The sections planned for a course have exactly the canonical paths that
/// `canonical_paths_for_markdown` reports for it, in the same order: the paths
/// a re-import keeps progress for are the ones a drift check compares against.
pub proof fn lemma_planned_paths_are_canonical(ps: Seq<SectionPlan>, ss: Seq<ParsedSection>, parent: Seq<Seq<char>>)
    requires
        plans_are(ps, ss, parent),
    ensures
        plan_paths(ps, ps.len() as int) == group_paths(ss, parent, ss.len() as int),
    decreases ss, ss.len() + 1,
{
    lemma_planned_paths_prefix(ps, ss, parent, ss.len() as int);
}

proof fn lemma_planned_paths_prefix(ps: Seq<SectionPlan>, ss: Seq<ParsedSection>, parent: Seq<Seq<char>>, k: int)
    requires
        plans_are(ps, ss, parent),
        0 <= k <= ss.len(),
    ensures
        plan_paths(ps, k) == group_paths(ss, parent, k),
    decreases ss, k,
{
    if k > 0 {
        lemma_planned_paths_prefix(ps, ss, parent, k - 1);
        let p = ps[k - 1];
        let s = ss[k - 1];
        let slug = sibling_slugs(titles_of(ss))[k - 1];
        assert(plan_is(p, s, parent, slug, (k - 1) as nat));
        assert(decreases_to!(ss => ss[k - 1]));
        assert(decreases_to!(ss[k - 1] => ss[k - 1].children@));
        lemma_planned_paths_are_canonical(p.children@, s.children@, parent.push(slug));
        assert(plan_tree_paths(p) == seq![p.canonical_path@] + plan_paths(p.children@, p.children@.len() as int));
        assert(section_paths(s, parent.push(slug)) == seq![join(parent.push(slug), "/"@)] + group_paths(
            s.children@,
            parent.push(slug),
            s.children@.len() as int,
        ));
        assert(plan_paths(ps, k) == plan_paths(ps, k - 1) + plan_tree_paths(p));
        assert(group_paths(ss, parent, k) == group_paths(ss, parent, k - 1) + section_paths(s, parent.push(slug)));
    }
}

/* The order of strings */

/// Two sections that both parse heading `i` have the same canonical paths.
proof fn lemma_same_section_paths(
    md: Seq<char>,
    hs: Seq<HeadingView>,
    i: int,
    s1: ParsedSection,
    s2: ParsedSection,
    parts: Seq<Seq<char>>,
)
    requires
        section_is(md, hs, i, s1),
        section_is(md, hs, i, s2),
    ensures
        section_paths(s1, parts) == section_paths(s2, parts),
    decreases hs.len() - i, 1int, 0int,
{
    let kids = kids_upto(parents_of(hs), Some(i), hs.len() as int);
    assert forall|j: int| 0 <= j < kids.len() implies i < #[trigger] kids[j] < hs.len() && section_is(
        md,
        hs,
        kids[j],
        s1.children@[j],
    ) && section_is(md, hs, kids[j], s2.children@[j]) by {
        assert(section_is(md, hs, kids[j], s1.children@[j]));
        assert(section_is(md, hs, kids[j], s2.children@[j]));
    }
    lemma_same_group_paths(md, hs, i, kids, s1.children@, s2.children@, parts, kids.len() as int);
}

/// Sibling sections that parse the same headings have the same canonical paths.
proof fn lemma_same_group_paths(
    md: Seq<char>,
    hs: Seq<HeadingView>,
    bound: int,
    kids: Seq<int>,
    c1: Seq<ParsedSection>,
    c2: Seq<ParsedSection>,
    parent: Seq<Seq<char>>,
    k: int,
)
    requires
        -1 <= bound,
        c1.len() == kids.len(),
        c2.len() == kids.len(),
        0 <= k <= kids.len(),
        forall|j: int|
            0 <= j < kids.len() ==> bound < #[trigger] kids[j] < hs.len() && section_is(md, hs, kids[j], c1[j])
                && section_is(md, hs, kids[j], c2[j]),
    ensures
        group_paths(c1, parent, k) == group_paths(c2, parent, k),
    decreases hs.len() - bound, 0int, k,
{
    if k > 0 {
        lemma_same_group_paths(md, hs, bound, kids, c1, c2, parent, k - 1);
        assert(titles_of(c1) =~= titles_of(c2)) by {
            assert forall|j: int| 0 <= j < c1.len() implies titles_of(c1)[j] == titles_of(c2)[j] by {
                assert(section_is(md, hs, kids[j], c1[j]));
            }
        }
        let slug = sibling_slugs(titles_of(c1))[k - 1];
        assert(section_is(md, hs, kids[k - 1], c1[k - 1]));
        lemma_same_section_paths(md, hs, kids[k - 1], c1[k - 1], c2[k - 1], parent.push(slug));
    }
}

/// The sections the course writer plans for a document (`plan_course`,
/// `plan_reimport`) have exactly the canonical paths, in the same order, that
/// `canonical_paths_for_markdown` reports for it: both read the same parse.
pub proof fn lemma_written_paths_are_reported(
    md: Seq<char>,
    hint: Option<Seq<char>>,
    reported: ParsedCourse,
    planned: ParsedCourse,
    plans: Seq<SectionPlan>,
)
    requires
        parsed_course_is(md, hint, reported),
        parsed_course_is(md, hint, planned),
        plans_are(plans, planned.sections@, Seq::empty()),
    ensures
        plan_paths(plans, plans.len() as int) == group_paths(
            reported.sections@,
            Seq::empty(),
            reported.sections@.len() as int,
        ),
{
    lemma_planned_paths_are_canonical(plans, planned.sections@, Seq::empty());
    let hs = document_headings(md);
    let c1 = reported.sections@;
    let c2 = planned.sections@;
    if hs.len() == 0 {
        assert(titles_of(c1) =~= titles_of(c2));
        let slug = sibling_slugs(titles_of(c1))[0];
        assert(group_paths(c1, Seq::empty(), 0) == group_paths(c2, Seq::empty(), 0));
        assert(group_paths(c1[0].children@, seq![slug], 0) == group_paths(c2[0].children@, seq![slug], 0));
        assert(section_paths(c1[0], seq![slug]) == section_paths(c2[0], seq![slug]));
        assert(Seq::<Seq<char>>::empty().push(slug) =~= seq![slug]);
    } else {
        let roots = kids_upto(parents_of(hs), None, hs.len() as int);
        assert forall|j: int| 0 <= j < roots.len() implies -1 < #[trigger] roots[j] < hs.len() && section_is(
            md,
            hs,
            roots[j],
            c1[j],
        ) && section_is(md, hs, roots[j], c2[j]) by {
            assert(section_is(md, hs, roots[j], c1[j]));
            assert(section_is(md, hs, roots[j], c2[j]));
        }
        lemma_same_group_paths(md, hs, -1, roots, c1, c2, Seq::empty(), roots.len() as int);
    }
}

/* No two planned sections share a canonical path */

/// `x` is the path `base` or a path below it.
pub open spec fn under(x: Seq<char>, base: Seq<char>) -> bool {
    x == base || (x.len() > base.len() && x.take(base.len() as int) == base && x[base.len() as int] == '/')
}

proof fn lemma_slash()
    ensures
        "/"@ == seq!['/'],
{
    reveal_strlit("/");
}

proof fn lemma_join_push_slash(parts: Seq<Seq<char>>, c: Seq<char>)
    requires
        parts.len() > 0,
    ensures
        join(parts.push(c), "/"@) == join(parts, "/"@) + seq!['/'] + c,
{
    lemma_slash();
    assert(parts.push(c).drop_last() =~= parts);
    assert(parts.push(c).last() == c);
}

proof fn lemma_under_prefix(x: Seq<char>, base: Seq<char>)
    requires
        under(x, base),
    ensures
        forall|i: int| 0 <= i < base.len() ==> x[i] == #[trigger] base[i],
        x.len() >= base.len(),
{
    if x != base {
        assert forall|i: int| 0 <= i < base.len() implies x[i] == #[trigger] base[i] by {
            assert(x.take(base.len() as int)[i] == x[i]);
        }
    }
}

proof fn lemma_under_parent(x: Seq<char>, parts: Seq<Seq<char>>, c: Seq<char>)
    requires
        parts.len() > 0,
        under(x, join(parts.push(c), "/"@)),
    ensures
        under(x, join(parts, "/"@)),
        x.len() > join(parts, "/"@).len(),
{
    let b = join(parts, "/"@);
    lemma_join_push_slash(parts, c);
    let full = b + seq!['/'] + c;
    lemma_under_prefix(x, full);
    assert(full[b.len() as int] == '/');
    assert(x[b.len() as int] == full[b.len() as int]);
    assert forall|i: int| 0 <= i < b.len() implies #[trigger] x.take(b.len() as int)[i] == b[i] by {
        assert(full[i] == b[i]);
        assert(x[i] == full[i]);
    }
    assert(x.take(b.len() as int) =~= b);
}

proof fn lemma_siblings_apart(q: Seq<Seq<char>>, a: Seq<char>, b: Seq<char>, x: Seq<char>, y: Seq<char>)
    requires
        a != b,
        !a.contains('/'),
        !b.contains('/'),
        under(x, join(q.push(a), "/"@)),
        under(y, join(q.push(b), "/"@)),
    ensures
        x != y,
{
    let pre = if q.len() == 0 {
        Seq::<char>::empty()
    } else {
        join(q, "/"@) + seq!['/']
    };
    if q.len() == 0 {
        assert(q.push(a) =~= seq![a]);
        assert(q.push(b) =~= seq![b]);
        assert(join(q.push(a), "/"@) =~= pre + a);
        assert(join(q.push(b), "/"@) =~= pre + b);
    } else {
        lemma_join_push_slash(q, a);
        lemma_join_push_slash(q, b);
    }
    let fa = pre + a;
    let fb = pre + b;
    assert(join(q.push(a), "/"@) == fa);
    assert(join(q.push(b), "/"@) == fb);
    lemma_under_prefix(x, fa);
    lemma_under_prefix(y, fb);
    let n = pre.len() as int;
    if x == y {
        assert forall|i: int| 0 <= i < a.len() && i < b.len() implies a[i] == b[i] by {
            assert(fa[n + i] == a[i]);
            assert(fb[n + i] == b[i]);
        }
        if a.len() == b.len() {
            assert(a =~= b);
        } else if a.len() < b.len() {
            assert(x != fa);
            assert(x[fa.len() as int] == '/');
            assert(fb[n + a.len()] == b[a.len() as int]);
            assert(b.contains(b[a.len() as int]));
        } else {
            assert(y != fb);
            assert(y[fb.len() as int] == '/');
            assert(fa[n + b.len()] == a[b.len() as int]);
            assert(a.contains(a[b.len() as int]));
        }
    }
}

proof fn lemma_concat_distinct(a: Seq<Seq<char>>, b: Seq<Seq<char>>)
    requires
        a.no_duplicates(),
        b.no_duplicates(),
        forall|i: int, j: int| 0 <= i < a.len() && 0 <= j < b.len() ==> #[trigger] a[i] != #[trigger] b[j],
    ensures
        (a + b).no_duplicates(),
{
    let c = a + b;
    assert forall|i: int, j: int| 0 <= i < c.len() && 0 <= j < c.len() && i != j implies c[i] != c[j] by {
        if i < a.len() && j < a.len() {
            assert(c[i] == a[i] && c[j] == a[j]);
        } else if i >= a.len() && j >= a.len() {
            assert(c[i] == b[i - a.len()] && c[j] == b[j - a.len()]);
        } else if i < a.len() {
            assert(c[i] == a[i] && c[j] == b[j - a.len()]);
        } else {
            assert(c[j] == a[j] && c[i] == b[i - a.len()]);
        }
    }
}

proof fn lemma_paths_apart_prefix(ps: Seq<SectionPlan>, ss: Seq<ParsedSection>, parent: Seq<Seq<char>>, k: int)
    requires
        plans_are(ps, ss, parent),
        0 <= k <= ss.len(),
    ensures
        plan_paths(ps, k).no_duplicates(),
        forall|t: int|
            0 <= t < plan_paths(ps, k).len() ==> exists|j: int|
                #![trigger ps[j]]
                0 <= j < k && under(#[trigger] plan_paths(ps, k)[t], join(parent.push(ps[j].slug@), "/"@)),
    decreases ss, k,
{
    if k > 0 {
        lemma_paths_apart_prefix(ps, ss, parent, k - 1);
        let titles = titles_of(ss);
        let p = ps[k - 1];
        let s = ss[k - 1];
        let slug = sibling_slugs(titles)[k - 1];
        assert(plan_is(p, s, parent, slug, (k - 1) as nat));
        assert(decreases_to!(ss => ss[k - 1]));
        assert(decreases_to!(ss[k - 1] => ss[k - 1].children@));
        let big = parent.push(slug);
        lemma_paths_apart(p.children@, s.children@, big);
        let cp = plan_paths(p.children@, p.children@.len() as int);
        let top = p.canonical_path@;
        assert(top == join(big, "/"@));
        assert forall|t: int| 0 <= t < cp.len() implies under(#[trigger] cp[t], join(big, "/"@)) && cp[t].len() > join(
            big,
            "/"@,
        ).len() by {
            let j = choose|j: int|
                #![trigger p.children@[j]]
                0 <= j < p.children@.len() && under(cp[t], join(big.push(p.children@[j].slug@), "/"@));
            lemma_under_parent(cp[t], big, p.children@[j].slug@);
        }
        let tree = plan_tree_paths(p);
        assert(tree == seq![top] + cp);
        assert(seq![top].no_duplicates());
        lemma_concat_distinct(seq![top], cp);
        assert forall|t: int| 0 <= t < tree.len() implies under(#[trigger] tree[t], join(big, "/"@)) by {
            if t > 0 {
                assert(tree[t] == cp[t - 1]);
            }
        }
        let prev = plan_paths(ps, k - 1);
        lemma_sibling_slugs_distinct(titles);
        lemma_sibling_slugs_prefix(titles, 0);
        assert forall|i: int, t: int| 0 <= i < prev.len() && 0 <= t < tree.len() implies #[trigger] prev[i]
            != #[trigger] tree[t] by {
            let j = choose|j: int|
                #![trigger ps[j]]
                0 <= j < k - 1 && under(prev[i], join(parent.push(ps[j].slug@), "/"@));
            assert(plan_is(ps[j], ss[j], parent, sibling_slugs(titles)[j], j as nat));
            assert(sibling_slugs(titles)[j] != sibling_slugs(titles)[k - 1]);
            lemma_siblings_apart(parent, ps[j].slug@, slug, prev[i], tree[t]);
        }
        lemma_concat_distinct(prev, tree);
        let all = plan_paths(ps, k);
        assert(all == prev + tree);
        assert forall|t: int| 0 <= t < all.len() implies exists|j: int|
            #![trigger ps[j]]
            0 <= j < k && under(#[trigger] all[t], join(parent.push(ps[j].slug@), "/"@)) by {
            if t < prev.len() {
                assert(all[t] == prev[t]);
                let j = choose|j: int|
                    #![trigger ps[j]]
                    0 <= j < k - 1 && under(prev[t], join(parent.push(ps[j].slug@), "/"@));
                assert(0 <= j < k && under(all[t], join(parent.push(ps[j].slug@), "/"@)));
            } else {
                assert(all[t] == tree[t - prev.len()]);
                assert(ps[k - 1].slug@ == slug);
                assert(under(all[t], join(parent.push(ps[k - 1].slug@), "/"@)));
            }
        }
    }
}

proof fn lemma_paths_apart(ps: Seq<SectionPlan>, ss: Seq<ParsedSection>, parent: Seq<Seq<char>>)
    requires
        plans_are(ps, ss, parent),
    ensures
        plan_paths(ps, ps.len() as int).no_duplicates(),
        forall|t: int|
            0 <= t < plan_paths(ps, ps.len() as int).len() ==> exists|j: int|
                #![trigger ps[j]]
                0 <= j < ps.len() && under(
                    #[trigger] plan_paths(ps, ps.len() as int)[t],
                    join(parent.push(ps[j].slug@), "/"@),
                ),
    decreases ss, ss.len() + 1,
{
    lemma_paths_apart_prefix(ps, ss, parent, ss.len() as int);
}

/// No two sections that the course writer plans share a canonical path, so no
/// two sections of a course share a progress key.
pub proof fn lemma_planned_paths_distinct(ps: Seq<SectionPlan>, ss: Seq<ParsedSection>)
    requires
        plans_are(ps, ss, Seq::empty()),
    ensures
        plan_paths(ps, ps.len() as int).no_duplicates(),
{
    lemma_paths_apart(ps, ss, Seq::empty());
}

/// The sections that `plan_course` plans for fetched Markdown carry, in
/// document order, exactly the canonical paths that
/// `canonical_paths_for_markdown` reports for that Markdown and hint, so the
/// two give the same set of paths; and no two of those paths are the same.
pub proof fn lemma_course_plan_paths(fetched: FetchedMarkdown, plan: CoursePlan, reported: Seq<Seq<char>>)
    requires
        exists|course: ParsedCourse|
            #![trigger parsed_course_is(fetched.content@, opt_view(fetched.title_hint), course)]
            parsed_course_is(fetched.content@, opt_view(fetched.title_hint), course) && plans_are(
                plan.sections@,
                course.sections@,
                Seq::empty(),
            ),
        exists|course: ParsedCourse|
            #![trigger parsed_course_is(fetched.content@, opt_view(fetched.title_hint), course)]
            parsed_course_is(fetched.content@, opt_view(fetched.title_hint), course) && reported == group_paths(
                course.sections@,
                Seq::empty(),
                course.sections@.len() as int,
            ),
    ensures
        plan_paths(plan.sections@, plan.sections@.len() as int) == reported,
        plan_paths(plan.sections@, plan.sections@.len() as int).to_set() == reported.to_set(),
        reported.no_duplicates(),
{
    let md = fetched.content@;
    let hint = opt_view(fetched.title_hint);
    let planned = choose|course: ParsedCourse|
        #![trigger parsed_course_is(md, hint, course)]
        parsed_course_is(md, hint, course) && plans_are(plan.sections@, course.sections@, Seq::empty());
    let seen = choose|course: ParsedCourse|
        #![trigger parsed_course_is(md, hint, course)]
        parsed_course_is(md, hint, course) && reported == group_paths(
            course.sections@,
            Seq::empty(),
            course.sections@.len() as int,
        );
    lemma_written_paths_are_reported(md, hint, seen, planned, plan.sections@);
    lemma_planned_paths_distinct(plan.sections@, planned.sections@);
}

/// No string comes before itself.
pub proof fn lemma_seq_lt_irreflexive(a: Seq<char>)
    ensures
        !seq_lt(a, a),
    decreases a.len(),
{
    if a.len() > 0 {
        lemma_seq_lt_irreflexive(a.drop_first());
    }
}

/// The order is transitive.
pub proof fn lemma_seq_lt_transitive(a: Seq<char>, b: Seq<char>, c: Seq<char>)
    requires
        seq_lt(a, b),
        seq_lt(b, c),
    ensures
        seq_lt(a, c),
    decreases a.len(),
{
    if a.len() > 0 && b.len() > 0 && c.len() > 0 && a[0] == b[0] && b[0] == c[0] {
        lemma_seq_lt_transitive(a.drop_first(), b.drop_first(), c.drop_first());
    }
}

/// Of two different strings, one comes first.
pub proof fn lemma_seq_lt_total(a: Seq<char>, b: Seq<char>)
    requires
        a != b,
    ensures
        seq_lt(a, b) || seq_lt(b, a),
    decreases a.len(),
{
    if a.len() > 0 && b.len() > 0 && a[0] == b[0] {
        if a.drop_first() == b.drop_first() {
            assert(a =~= seq![a[0]] + a.drop_first());
            assert(b =~= seq![b[0]] + b.drop_first());
        }
        lemma_seq_lt_total(a.drop_first(), b.drop_first());
    } else if a.len() == 0 && b.len() == 0 {
        assert(a =~= b);
    } else if a.len() > 0 && b.len() > 0 {
        assert(a[0] != b[0]);
    }
}

/// The order is asymmetric.
pub proof fn lemma_seq_lt_asymmetric(a: Seq<char>, b: Seq<char>)
    requires
        seq_lt(a, b),
    ensures
        !seq_lt(b, a),
    decreases a.len(),
{
    if a.len() > 0 && b.len() > 0 && a[0] == b[0] {
        lemma_seq_lt_asymmetric(a.drop_first(), b.drop_first());
    }
}

/// Keys in non-decreasing order.
pub open spec fn keys_nondecreasing<T>(s: Seq<(Seq<char>, T)>) -> bool {
    forall|i: int, j: int| 0 <= i < j < s.len() ==> !seq_lt(#[trigger] s[j].0, #[trigger] s[i].0)
}

proof fn lemma_keyed_insert_members<T>(s: Seq<(Seq<char>, T)>, x: (Seq<char>, T))
    ensures
        keyed_insert(s, x).len() == s.len() + 1,
        forall|t: int|
            0 <= t < keyed_insert(s, x).len() ==> (s.contains(#[trigger] keyed_insert(s, x)[t]) || keyed_insert(s, x)[t]
                == x),
    decreases s.len(),
{
    if s.len() > 0 && seq_lt(x.0, s.last().0) {
        lemma_keyed_insert_members(s.drop_last(), x);
        let r = keyed_insert(s.drop_last(), x);
        assert forall|t: int| 0 <= t < keyed_insert(s, x).len() implies (s.contains(#[trigger] keyed_insert(s, x)[t])
            || keyed_insert(s, x)[t] == x) by {
            if t < r.len() {
                assert(keyed_insert(s, x)[t] == r[t]);
                if s.drop_last().contains(r[t]) {
                    let u = choose|u: int| 0 <= u < s.drop_last().len() && s.drop_last()[u] == r[t];
                    assert(s[u] == r[t]);
                }
            } else {
                assert(s[s.len() - 1] == keyed_insert(s, x)[t]);
            }
        }
    } else if s.len() > 0 {
        assert forall|t: int| 0 <= t < keyed_insert(s, x).len() implies (s.contains(#[trigger] keyed_insert(s, x)[t])
            || keyed_insert(s, x)[t] == x) by {
            if t < s.len() {
                assert(keyed_insert(s, x)[t] == s[t]);
            }
        }
    }
}

proof fn lemma_keyed_insert_sorted<T>(s: Seq<(Seq<char>, T)>, x: (Seq<char>, T))
    requires
        keys_nondecreasing(s),
    ensures
        keys_nondecreasing(keyed_insert(s, x)),
    decreases s.len(),
{
    let r = keyed_insert(s, x);
    if s.len() == 0 {
    } else if seq_lt(x.0, s.last().0) {
        let d = s.drop_last();
        assert(keys_nondecreasing(d)) by {
            assert forall|i: int, j: int| 0 <= i < j < d.len() implies !seq_lt(#[trigger] d[j].0, #[trigger] d[i].0) by {
                assert(d[i] == s[i] && d[j] == s[j]);
            }
        }
        lemma_keyed_insert_sorted(d, x);
        lemma_keyed_insert_members(d, x);
        let q = keyed_insert(d, x);
        assert forall|i: int, j: int| 0 <= i < j < r.len() implies !seq_lt(#[trigger] r[j].0, #[trigger] r[i].0) by {
            if j < q.len() {
                assert(r[i] == q[i] && r[j] == q[j]);
            } else {
                assert(r[j] == s.last());
                assert(r[i] == q[i]);
                if d.contains(q[i]) {
                    let u = choose|u: int| 0 <= u < d.len() && d[u] == q[i];
                    assert(s[u] == q[i]);
                    assert(!seq_lt(s[s.len() - 1].0, s[u].0));
                } else {
                    assert(q[i] == x);
                    lemma_seq_lt_asymmetric(x.0, s.last().0);
                }
            }
        }
    } else {
        assert forall|i: int, j: int| 0 <= i < j < r.len() implies !seq_lt(#[trigger] r[j].0, #[trigger] r[i].0) by {
            if j < s.len() {
                assert(r[i] == s[i] && r[j] == s[j]);
            } else {
                assert(r[j] == x);
                assert(r[i] == s[i]);
                if i < s.len() - 1 {
                    assert(!seq_lt(s[s.len() - 1].0, s[i].0));
                    if seq_lt(x.0, s[i].0) {
                        lemma_seq_lt_total(s[i].0, s.last().0);
                        if s[i].0 == s.last().0 {
                        } else if seq_lt(s[i].0, s.last().0) {
                            lemma_seq_lt_transitive(x.0, s[i].0, s.last().0);
                        }
                    }
                }
            }
        }
    }
}

/// A stable sort by key leaves the keys in order.
pub proof fn lemma_keyed_sort_sorted<T>(s: Seq<(Seq<char>, T)>)
    ensures
        keys_nondecreasing(keyed_sort(s)),
    decreases s.len(),
{
    if s.len() > 0 {
        lemma_keyed_sort_sorted(s.drop_last());
        lemma_keyed_insert_sorted(keyed_sort(s.drop_last()), s.last());
    }
}

proof fn lemma_keyed_sort_members<T>(s: Seq<(Seq<char>, T)>)
    ensures
        keyed_sort(s).len() == s.len(),
        forall|t: int| 0 <= t < keyed_sort(s).len() ==> s.contains(#[trigger] keyed_sort(s)[t]),
    decreases s.len(),
{
    if s.len() > 0 {
        lemma_keyed_sort_members(s.drop_last());
        lemma_keyed_insert_members(keyed_sort(s.drop_last()), s.last());
        assert forall|t: int| 0 <= t < keyed_sort(s).len() implies s.contains(#[trigger] keyed_sort(s)[t]) by {
            let e = keyed_sort(s)[t];
            if keyed_sort(s.drop_last()).contains(e) {
                let u = choose|u: int| 0 <= u < keyed_sort(s.drop_last()).len() && keyed_sort(s.drop_last())[u] == e;
                let w = choose|w: int| 0 <= w < s.drop_last().len() && s.drop_last()[w] == keyed_sort(s.drop_last())[u];
                assert(s[w] == e);
            } else {
                assert(s[s.len() - 1] == e);
            }
        }
    }
}

/// Inserting keeps every item and adds the new one.
pub(crate) proof fn lemma_keyed_insert_keeps<T>(s: Seq<(Seq<char>, T)>, x: (Seq<char>, T))
    ensures
        keyed_insert(s, x).contains(x),
        forall|e: (Seq<char>, T)| s.contains(e) ==> #[trigger] keyed_insert(s, x).contains(e),
    decreases s.len(),
{
    let r = keyed_insert(s, x);
    if s.len() == 0 {
        assert(r[0] == x);
    } else if seq_lt(x.0, s.last().0) {
        lemma_keyed_insert_keeps(s.drop_last(), x);
        let q = keyed_insert(s.drop_last(), x);
        assert(r == q.push(s.last()));
        let u = choose|u: int| 0 <= u < q.len() && q[u] == x;
        assert(r[u] == x);
        assert forall|e: (Seq<char>, T)| s.contains(e) implies #[trigger] r.contains(e) by {
            let w = choose|w: int| 0 <= w < s.len() && s[w] == e;
            if w == s.len() - 1 {
                assert(r[r.len() - 1] == e);
            } else {
                assert(s.drop_last()[w] == e);
                assert(s.drop_last().contains(e));
                assert(keyed_insert(s.drop_last(), x).contains(e));
                let v = choose|v: int| 0 <= v < q.len() && q[v] == e;
                assert(r[v] == e);
            }
        }
    } else {
        assert(r == s.push(x));
        assert(r[s.len() as int] == x);
        assert forall|e: (Seq<char>, T)| s.contains(e) implies #[trigger] r.contains(e) by {
            let w = choose|w: int| 0 <= w < s.len() && s[w] == e;
            assert(r[w] == e);
        }
    }
}

/// Sorting keeps every item.
pub(crate) proof fn lemma_keyed_sort_keeps<T>(s: Seq<(Seq<char>, T)>)
    ensures
        forall|e: (Seq<char>, T)| s.contains(e) ==> #[trigger] keyed_sort(s).contains(e),
    decreases s.len(),
{
    if s.len() > 0 {
        lemma_keyed_sort_keeps(s.drop_last());
        lemma_keyed_insert_keeps(keyed_sort(s.drop_last()), s.last());
        assert forall|e: (Seq<char>, T)| s.contains(e) implies #[trigger] keyed_sort(s).contains(e) by {
            let w = choose|w: int| 0 <= w < s.len() && s[w] == e;
            if w < s.len() - 1 {
                assert(s.drop_last()[w] == e);
                assert(s.drop_last().contains(e));
                assert(keyed_sort(s.drop_last()).contains(e));
            }
        }
    }
}

/// The catalog as written is in order of lowercase name.
pub proof fn lemma_catalog_sorted_by_name(cats: Seq<(Seq<char>, Seq<char>)>)
    ensures
        sorted_catalog(cats).len() == cats.len(),
        forall|i: int, j: int|
            0 <= i < j < cats.len() ==> !seq_lt(
                lowercase_of(#[trigger] sorted_catalog(cats)[j].1),
                lowercase_of(#[trigger] sorted_catalog(cats)[i].1),
            ),
{
    let k = keyed_by_name(cats);
    lemma_keyed_sort_sorted(k);
    lemma_keyed_sort_members(k);
    let r = keyed_sort(k);
    assert forall|t: int| 0 <= t < r.len() implies (#[trigger] r[t]).0 == lowercase_of(r[t].1.1) by {
        assert(k.contains(r[t]));
        let u = choose|u: int| 0 <= u < k.len() && k[u] == r[t];
        assert(k[u] == (lowercase_of(cats[u].1), cats[u]));
    }
    assert forall|i: int, j: int| 0 <= i < j < cats.len() implies !seq_lt(
        lowercase_of(#[trigger] sorted_catalog(cats)[j].1),
        lowercase_of(#[trigger] sorted_catalog(cats)[i].1),
    ) by {
        assert(sorted_catalog(cats)[i] == r[i].1);
        assert(sorted_catalog(cats)[j] == r[j].1);
        assert(r[i].0 == lowercase_of(r[i].1.1));
        assert(r[j].0 == lowercase_of(r[j].1.1));
    }
}

/// Strings sorted by `sort_strings` are in order.
pub proof fn lemma_sorted_strings_ordered(v: Seq<Seq<char>>)
    ensures
        sorted_strings(v).len() == v.len(),
        forall|i: int, j: int|
            0 <= i < j < v.len() ==> !seq_lt(#[trigger] sorted_strings(v)[j], #[trigger] sorted_strings(v)[i]),
{
    let k = v.map_values(|x: Seq<char>| (x, x));
    lemma_keyed_sort_sorted(k);
    lemma_keyed_sort_members(k);
    let r = keyed_sort(k);
    assert forall|t: int| 0 <= t < r.len() implies (#[trigger] r[t]).0 == r[t].1 by {
        assert(k.contains(r[t]));
        let u = choose|u: int| 0 <= u < k.len() && k[u] == r[t];
        assert(k[u] == (v[u], v[u]));
    }
    assert forall|i: int, j: int| 0 <= i < j < v.len() implies !seq_lt(#[trigger] sorted_strings(v)[j], #[trigger] sorted_strings(v)[i]) by {
        assert(sorted_strings(v)[i] == r[i].1);
        assert(sorted_strings(v)[j] == r[j].1);
    }
}

proof fn lemma_absent_from_facts(keys: Seq<Seq<char>>, paths: Seq<Seq<char>>)
    ensures
        forall|x: Seq<char>| #[trigger] absent_from(keys, paths).contains(x) <==> keys.contains(x) && !paths.contains(x),
        keys.no_duplicates() ==> absent_from(keys, paths).no_duplicates(),
    decreases keys.len(),
{
    if keys.len() > 0 {
        let init = keys.drop_last();
        let k = keys.last();
        lemma_absent_from_facts(init, paths);
        let rest = absent_from(init, paths);
        assert(keys =~= init.push(k));
        assert forall|x: Seq<char>| #[trigger] absent_from(keys, paths).contains(x) <==> keys.contains(x)
            && !paths.contains(x) by {
            vstd::seq_lib::lemma_seq_contains_after_push(init, k, x);
            vstd::seq_lib::lemma_seq_contains_after_push(rest, k, x);
        }
        if keys.no_duplicates() {
            assert(init.no_duplicates()) by {
                assert forall|i: int, j: int| 0 <= i < init.len() && 0 <= j < init.len() && i != j implies init[i]
                    != init[j] by {
                    assert(init[i] == keys[i] && init[j] == keys[j]);
                }
            }
            if !paths.contains(k) {
                assert(!init.contains(k)) by {
                    if init.contains(k) {
                        let u = choose|u: int| 0 <= u < init.len() && init[u] == k;
                        assert(keys[u] == keys[keys.len() - 1]);
                    }
                }
                assert(!rest.contains(k));
                let all = rest.push(k);
                assert forall|i: int, j: int| 0 <= i < all.len() && 0 <= j < all.len() && i != j implies all[i]
                    != all[j] by {
                    if i < rest.len() && j < rest.len() {
                        assert(all[i] == rest[i] && all[j] == rest[j]);
                    } else if i < rest.len() {
                        assert(all[i] == rest[i]);
                        assert(rest.contains(rest[i]));
                    } else if j < rest.len() {
                        assert(all[j] == rest[j]);
                        assert(rest.contains(rest[j]));
                    }
                }
            }
        }
    }
}

proof fn lemma_sorted_strings_members(v: Seq<Seq<char>>)
    ensures
        forall|x: Seq<char>| #[trigger] sorted_strings(v).contains(x) <==> v.contains(x),
        v.no_duplicates() ==> sorted_strings(v).no_duplicates(),
{
    let k = v.map_values(|x: Seq<char>| (x, x));
    lemma_keyed_sort_members(k);
    lemma_keyed_sort_keeps(k);
    let r = keyed_sort(k);
    let out = sorted_strings(v);
    assert(out.len() == v.len());
    assert forall|x: Seq<char>| #[trigger] out.contains(x) <==> v.contains(x) by {
        if out.contains(x) {
            let t = choose|t: int| 0 <= t < out.len() && out[t] == x;
            assert(out[t] == r[t].1);
            assert(k.contains(r[t]));
            let u = choose|u: int| 0 <= u < k.len() && k[u] == r[t];
            assert(k[u] == (v[u], v[u]));
            assert(v[u] == x);
        }
        if v.contains(x) {
            let u = choose|u: int| 0 <= u < v.len() && v[u] == x;
            assert(k[u] == (x, x));
            assert(k.contains((x, x)));
            assert(r.contains((x, x)));
            let t = choose|t: int| 0 <= t < r.len() && r[t] == (x, x);
            assert(out[t] == x);
        }
    }
    if v.no_duplicates() {
        assert(out.to_set() =~= v.to_set());
        v.unique_seq_to_set();
        out.lemma_no_dup_set_cardinality();
    }
}

/// For distinct progress keys (those of a progress file), the paths reported
/// as orphaned (`orphaned_progress_paths_for_markdown`, `prune_progress`,
/// `plan_reimport`) are exactly the keys that are none of the course's
/// canonical paths, each once, in strictly ascending order.
pub proof fn lemma_orphans_are_stale_keys(keys: Seq<Seq<char>>, paths: Seq<Seq<char>>)
    requires
        keys.no_duplicates(),
    ensures
        forall|x: Seq<char>|
            #[trigger] sorted_strings(absent_from(keys, paths)).contains(x) <==> keys.contains(x) && !paths.contains(x),
        forall|i: int, j: int|
            0 <= i < j < sorted_strings(absent_from(keys, paths)).len() ==> seq_lt(
                #[trigger] sorted_strings(absent_from(keys, paths))[i],
                #[trigger] sorted_strings(absent_from(keys, paths))[j],
            ),
{
    let a = absent_from(keys, paths);
    lemma_absent_from_facts(keys, paths);
    lemma_sorted_strings_members(a);
    lemma_sorted_strings_ordered(a);
    let out = sorted_strings(a);
    assert forall|i: int, j: int| 0 <= i < j < out.len() implies seq_lt(#[trigger] out[i], #[trigger] out[j]) by {
        assert(out[i] != out[j]);
        lemma_seq_lt_total(out[i], out[j]);
    }
}

/// Sibling sections get pairwise different slugs, so no two sections of a
/// course share a canonical path.
pub proof fn lemma_sibling_slugs_distinct(titles: Seq<Seq<char>>)
    ensures
        sibling_slugs(titles).no_duplicates(),
    decreases titles.len(),
{
    if titles.len() > 0 {
        let prev = sibling_slugs(titles.drop_last());
        lemma_sibling_slugs_distinct(titles.drop_last());
        let base = vault_slug(titles.last(), "section"@);
        crate::slugs::lemma_first_free_exists(base, Seq::empty(), prev);
        let new = first_free(base, Seq::empty(), prev);
        assert(new + Seq::<char>::empty() =~= new);
        assert(!prev.contains(new));
        let all = prev.push(new);
        assert forall|i: int, j: int| 0 <= i < all.len() && 0 <= j < all.len() && i != j implies all[i] != all[j] by {
            if i < prev.len() && j < prev.len() {
            } else if i == prev.len() {
                assert(all[j] == prev[j]);
            } else {
                assert(all[i] == prev[i]);
            }
        }
    }
}

/// After a category is renamed or deleted, a course lists each category once
/// and no longer lists the old slug (unless it is the replacement).
pub proof fn lemma_refs_update(cats: Seq<Seq<char>>, old_slug: Seq<char>, rep: Option<Seq<char>>)
    ensures
        refs_update(cats, old_slug, rep).0.no_duplicates(),
        rep != Some(old_slug) ==> !refs_update(cats, old_slug, rep).0.contains(old_slug),
    decreases cats.len(),
{
    if cats.len() > 0 {
        lemma_refs_update(cats.drop_last(), old_slug, rep);
        let prev = refs_update(cats.drop_last(), old_slug, rep).0;
        let r = refs_update(cats, old_slug, rep).0;
        let c = cats.last();
        let next = if c == old_slug { rep } else { Some(c) };
        if let Some(n) = next {
            if !prev.contains(n) {
                assert(r == prev.push(n));
                assert forall|i: int, j: int| 0 <= i < r.len() && 0 <= j < r.len() && i != j implies r[i] != r[j] by {
                    if i == prev.len() {
                        assert(r[j] == prev[j]);
                    } else if j == prev.len() {
                        assert(r[i] == prev[i]);
                    } else {
                        assert(r[i] == prev[i] && r[j] == prev[j]);
                    }
                }
                if rep != Some(old_slug) && r.contains(old_slug) {
                    let i = choose|i: int| 0 <= i < r.len() && r[i] == old_slug;
                    if i < prev.len() {
                        assert(prev[i] == old_slug);
                    }
                }
            }
        }
    }
}

/// A new course never takes the folder of an existing one.
pub proof fn lemma_new_course_slug_is_free(title: Seq<char>, existing: Seq<Seq<char>>)
    ensures
        !existing.contains(first_free(vault_slug(title, "course"@), Seq::empty(), existing)),
{
    let base = vault_slug(title, "course"@);
    crate::slugs::lemma_first_free_exists(base, Seq::empty(), existing);
    let out = first_free(base, Seq::empty(), existing);
    assert(out + Seq::<char>::empty() =~= out);
}

} // verus!
