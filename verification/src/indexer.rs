//! Rebuilding the index from the vault: record identifiers, how section files
//! are named and ordered, and what a section file says about itself.
use vstd::prelude::*;

use crate::hashing::{sha256, sha256_of};
use crate::source_fetch::SourceType;
use crate::text::{
    all_digits, append_chars, chars_eq, chars_of, digits_value, char_is_whitespace, concat2, concat3, concat4, has_suffix,
    is_whitespace, join, join_chars, parse_u64, parse_u64_spec, slice_chars, split, split_chars,
    string_of, trim, trim_chars, trim_start,
};

verus! {

/// What a reindex counted.
#[derive(Debug, Clone, Copy, PartialEq, Eq)]
pub struct ReindexSummary {
    pub courses: usize,
    pub sections: usize,
    pub categories: usize,
    pub paths: usize,
}

impl ReindexSummary {
    /// Counts of one course: the course and its sections.
    pub fn for_course(sections: usize) -> (s: Self)
        ensures
            s.courses == 1,
            s.sections == sections,
            s.categories == 0,
            s.paths == 0,
    {
        ReindexSummary { courses: 1, sections, categories: 0, paths: 0 }
    }

    /// Nothing indexed.
    pub fn empty() -> (s: Self)
        ensures
            s.courses == 0 && s.sections == 0 && s.categories == 0 && s.paths == 0,
    {
        ReindexSummary { courses: 0, sections: 0, categories: 0, paths: 0 }
    }

    /// Adds a course's counts to a vault's.
    pub fn add_course(&mut self, course: &ReindexSummary)
        requires
            old(self).courses + course.courses <= usize::MAX,
            old(self).sections + course.sections <= usize::MAX,
        ensures
            final(self).courses == old(self).courses + course.courses,
            final(self).sections == old(self).sections + course.sections,
            final(self).categories == old(self).categories,
            final(self).paths == old(self).paths,
    {
        self.courses = self.courses + course.courses;
        self.sections = self.sections + course.sections;
    }
}

/* Identifiers */

pub open spec fn course_id_spec(slug: Seq<char>) -> Seq<char> {
    "course:"@ + slug
}

/// The index ID of a course.
pub fn course_id(slug: &str) -> (id: String)
    ensures
        id@ == course_id_spec(slug@),
{
    concat2("course:", slug)
}

pub open spec fn category_id_spec(slug: Seq<char>) -> Seq<char> {
    "category:"@ + slug
}

/// The index ID of a category.
pub fn category_id(slug: &str) -> (id: String)
    ensures
        id@ == category_id_spec(slug@),
{
    concat2("category:", slug)
}

pub open spec fn section_id_spec(course_slug: Seq<char>, canonical_path: Seq<char>) -> Seq<char> {
    "section:"@ + course_slug + ":"@ + canonical_path
}

/// The index ID of a section.
pub fn section_id(course_slug: &str, canonical_path: &str) -> (id: String)
    ensures
        id@ == section_id_spec(course_slug@, canonical_path@),
{
    concat4("section:", course_slug, ":", canonical_path)
}

pub open spec fn path_id_spec(slug: Seq<char>) -> Seq<char> {
    "path:"@ + slug
}

/// The index ID of a learning path.
pub fn path_id(slug: &str) -> (id: String)
    ensures
        id@ == path_id_spec(slug@),
{
    concat2("path:", slug)
}

/// The status of a section without recorded progress.
pub fn not_started() -> (s: String)
    ensures
        s@ == "not_started"@,
{
    string_of(chars_of("not_started").as_slice())
}

pub open spec fn source_type_name(t: SourceType) -> Seq<char> {
    match t {
        SourceType::Github => "github"@,
        SourceType::Gitlab => "gitlab"@,
        SourceType::Codeberg => "codeberg"@,
        SourceType::Pasted => "pasted"@,
    }
}

/// How a source type is stored in the index.
pub fn source_type_str(source_type: SourceType) -> (s: &'static str)
    ensures
        s@ == source_type_name(source_type),
{
    match source_type {
        SourceType::Github => "github",
        SourceType::Gitlab => "gitlab",
        SourceType::Codeberg => "codeberg",
        SourceType::Pasted => "pasted",
    }
}

/// The big-endian value of the bytes.
pub open spec fn be_value(b: Seq<u8>) -> nat
    decreases b.len(),
{
    if b.len() == 0 {
        0
    } else {
        be_value(b.drop_last()) * 256 + b.last() as nat
    }
}

/// `256^n`.
pub open spec fn pow256(n: nat) -> nat
    decreases n,
{
    if n == 0 {
        1
    } else {
        256 * pow256((n - 1) as nat)
    }
}

proof fn lemma_pow256_mono(a: nat, b: nat)
    requires
        a <= b,
    ensures
        pow256(a) <= pow256(b),
    decreases b,
{
    if a < b {
        lemma_pow256_mono(a, (b - 1) as nat);
    }
}

/// The full-text-search row of a record: the first 8 bytes of the SHA-256 of its
/// ID, big-endian, without the sign bit.
pub open spec fn fts_rowid_spec(id: Seq<char>) -> int {
    (be_value(sha256_of(crate::hashing::utf8(id)).take(8)) % 0x8000_0000_0000_0000) as int
}

/// The full-text-search row ID of a record.
pub fn fts_rowid(id: &str) -> (rowid: i64)
    ensures
        rowid as int == fts_rowid_spec(id@),
        rowid >= 0,
{
    let digest = crate::hashing::sha256_str(id);
    let ghost d = digest@;
    let mut value: u64 = 0;
    let mut i: usize = 0;
    assert(pow256(7) == 0x100_0000_0000_0000) by {
        reveal_with_fuel(pow256, 8);
    }
    while i < 8
        invariant
            i <= 8,
            d == digest@,
            d.len() == 32,
            value as nat == be_value(d.take(i as int)),
            value < pow256(i as nat),
            pow256(7) == 0x100_0000_0000_0000,
        decreases 8 - i,
    {
        proof {
            assert(d.take(i + 1).drop_last() =~= d.take(i as int));
            lemma_pow256_mono(i as nat, 7);
        }
        value = value * 256 + digest[i] as u64;
        i += 1;
    }
    let masked = value & 0x7fff_ffff_ffff_ffffu64;
    assert(value & 0x7fff_ffff_ffff_ffffu64 == value % 0x8000_0000_0000_0000u64) by (bit_vector);
    masked as i64
}

/* Section files */

/// The end of the run of ASCII digits that starts at `i`.
pub open spec fn digit_run(s: Seq<char>, i: int) -> int
    decreases s.len() - i,
{
    if i < 0 || i >= s.len() || !is_digit(s[i]) {
        i
    } else {
        digit_run(s, i + 1)
    }
}

/// A file or folder name without its `.md` extension and its order prefix (a
/// run of ASCII digits and a `-`, when something follows it).
pub open spec fn slug_from_prefixed_name_spec(name: Seq<char>) -> Seq<char> {
    let stem = if has_suffix(name, ".md"@) {
        name.take(name.len() - 3)
    } else {
        name
    };
    let lead = digit_run(stem, 0);
    if lead >= 1 && lead + 1 < stem.len() && stem[lead] == '-' {
        stem.skip(lead + 1)
    } else {
        stem
    }
}

pub open spec fn is_digit(c: char) -> bool {
    '0' <= c <= '9'
}

/// The end of the leading run of ASCII digits of `s`.
fn leading_digits(s: &[char]) -> (k: usize)
    ensures
        k as int == digit_run(s@, 0),
        k <= s@.len(),
        forall|j: int| 0 <= j < k ==> is_digit(#[trigger] s@[j]),
{
    let mut k: usize = 0;
    while k < s.len() && '0' <= s[k] && s[k] <= '9'
        invariant
            k <= s@.len(),
            digit_run(s@, 0) == digit_run(s@, k as int),
            forall|j: int| 0 <= j < k ==> is_digit(#[trigger] s@[j]),
        decreases s@.len() - k,
    {
        k += 1;
    }
    k
}

/// The section slug a file or folder name carries.
pub fn slug_from_prefixed_name(name: &str) -> (slug: String)
    ensures
        slug@ == slug_from_prefixed_name_spec(name@),
{
    let n = chars_of(name);
    let md = chars_of(".md");
    let stem = if crate::text::ends_with(n.as_slice(), md.as_slice()) {
        proof {
            reveal_strlit(".md");
        }
        slice_chars(n.as_slice(), 0, n.len() - 3)
    } else {
        slice_chars(n.as_slice(), 0, n.len())
    };
    assert(stem@ =~= (if has_suffix(name@, ".md"@) { name@.take(name@.len() - 3) } else { name@ }));
    let lead = leading_digits(stem.as_slice());
    if lead >= 1 && lead < stem.len() && lead + 1 < stem.len() && stem[lead] == '-' {
        let rest = slice_chars(stem.as_slice(), lead + 1, stem.len());
        assert(rest@ =~= stem@.skip(lead + 1));
        string_of(rest.as_slice())
    } else {
        string_of(stem.as_slice())
    }
}

/// The canonical path of a section file or folder: its slug, under the
/// canonical path of the section that holds it.
pub open spec fn child_canonical_path_spec(parent: Option<Seq<char>>, name: Seq<char>) -> Seq<char> {
    match parent {
        None => slug_from_prefixed_name_spec(name),
        Some(p) => p + "/"@ + slug_from_prefixed_name_spec(name),
    }
}

/// The canonical path of a section file or folder named `name` inside the
/// section at `parent` (the course's top level when `None`).
pub fn child_canonical_path(parent: Option<&str>, name: &str) -> (path: String)
    ensures
        path@ == child_canonical_path_spec(
            match parent {
                Some(p) => Some(p@),
                None => None,
            },
            name@,
        ),
{
    let slug = slug_from_prefixed_name(name);
    match parent {
        None => slug,
        Some(p) => concat3(p, "/", slug.as_str()),
    }
}

/// The progress status a section is indexed with: the recorded one, else `not_started`.
pub fn indexed_status(recorded: Option<&str>) -> (status: String)
    ensures
        status@ == match recorded {
            Some(r) => r@,
            None => "not_started"@,
        },
{
    match recorded {
        Some(r) => string_of(chars_of(r).as_slice()),
        None => not_started(),
    }
}

/// The order a numeric prefix gives a file or folder: the value of its leading
/// ASCII digits; names without one, or whose value exceeds `usize::MAX`, sort last.
pub open spec fn order_from_name_spec(name: Seq<char>) -> nat {
    let lead = digit_run(name, 0);
    if lead >= 1 && digits_value(name.take(lead)) <= usize::MAX {
        digits_value(name.take(lead))
    } else {
        usize::MAX as nat
    }
}

/// The order of a file or folder name among its siblings.
pub fn order_from_name(name: &str) -> (order: usize)
    ensures
        order as nat == order_from_name_spec(name@),
{
    let n = chars_of(name);
    let lead = leading_digits(n.as_slice());
    if lead == 0 {
        return usize::MAX;
    }
    let mut value: usize = 0;
    let mut over = false;
    let mut i: usize = 0;
    while i < lead
        invariant
            i <= lead <= n@.len(),
            lead as int == digit_run(n@, 0),
            n@ == name@,
            forall|j: int| 0 <= j < lead ==> is_digit(#[trigger] n@[j]),
            over ==> digits_value(n@.take(i as int)) > usize::MAX,
            !over ==> value as nat == digits_value(n@.take(i as int)),
        decreases lead - i,
    {
        let ghost before = n@.take(i as int);
        assert(n@.take(i + 1).drop_last() =~= before);
        assert(n@.take(i + 1).last() == n@[i as int]);
        let d: u32 = (n[i] as u32) - 48;
        if !over {
            let w: u128 = (value as u128) * 10 + (d as u128);
            if w > usize::MAX as u128 {
                over = true;
            } else {
                value = w as usize;
            }
        }
        i += 1;
    }
    assert(n@.take(lead as int) =~= name@.take(lead as int));
    if over {
        usize::MAX
    } else {
        value
    }
}

/* Titles */

/// What `char::to_uppercase` yields for a character (full Unicode mapping).
pub uninterp spec fn uppercase_of(c: char) -> Seq<char>;

/// `char::to_uppercase`, collected. Trusted: the result is the named mapping.
#[verifier::external_body]
fn uppercase(c: char) -> (out: String)
    ensures
        out@ == uppercase_of(c),
{
    c.to_uppercase().collect()
}

/// A word with its first character uppercased.
pub open spec fn capitalized(w: Seq<char>) -> Seq<char> {
    if w.len() == 0 {
        w
    } else {
        uppercase_of(w[0]) + w.drop_first()
    }
}

/// The non-empty parts of a string between separators.
pub open spec fn nonempty_parts(parts: Seq<Seq<char>>) -> Seq<Seq<char>>
    decreases parts.len(),
{
    if parts.len() == 0 {
        parts
    } else {
        let rest = nonempty_parts(parts.drop_last());
        if parts.last().len() > 0 {
            rest.push(parts.last())
        } else {
            rest
        }
    }
}

/// `titleize_slug`: the words between dashes, capitalized, joined by spaces.
pub open spec fn titleize_spec(slug: Seq<char>) -> Seq<char> {
    join(nonempty_parts(split(slug, '-')).map_values(|w: Seq<char>| capitalized(w)), " "@)
}

/// A display title made from a slug.
pub fn titleize_slug(slug: &str) -> (title: String)
    ensures
        title@ == titleize_spec(slug@),
{
    let parts = split_chars(chars_of(slug).as_slice(), '-');
    let ghost pv = split(slug@, '-');
    assert(parts@.map_values(|p: Vec<char>| p@) =~= pv);
    let mut words: Vec<Vec<char>> = Vec::new();
    let mut i: usize = 0;
    while i < parts.len()
        invariant
            i <= parts@.len(),
            pv == parts@.map_values(|p: Vec<char>| p@),
            words@.map_values(|w: Vec<char>| w@) == nonempty_parts(pv.take(i as int)).map_values(
                |w: Seq<char>| capitalized(w),
            ),
        decreases parts@.len() - i,
    {
        assert(pv.take(i + 1).drop_last() =~= pv.take(i as int));
        assert(pv.take(i + 1).last() == parts@[i as int]@);
        let p = &parts[i];
        if p.len() > 0 {
            let mut w = chars_of(uppercase(p[0]).as_str());
            let tail = slice_chars(p.as_slice(), 1, p.len());
            append_chars(&mut w, tail.as_slice());
            assert(w@ =~= capitalized(p@));
            let ghost before = words@.map_values(|w: Vec<char>| w@);
            words.push(w);
            assert(words@.map_values(|w: Vec<char>| w@) =~= before.push(capitalized(p@)));
            assert(nonempty_parts(pv.take(i + 1)) == nonempty_parts(pv.take(i as int)).push(p@));
            assert(nonempty_parts(pv.take(i + 1)).map_values(|w: Seq<char>| capitalized(w)) =~= nonempty_parts(
                pv.take(i as int),
            ).map_values(|w: Seq<char>| capitalized(w)).push(capitalized(p@)));
        }
        i += 1;
    }
    assert(pv.take(i as int) =~= pv);
    let space = chars_of(" ");
    let out = join_chars(&words, space.as_slice());
    string_of(out.as_slice())
}

/* A section file's own title */

/// `str::lines`: the text split at line feeds, without a final empty line, each
/// line without a trailing carriage return.
pub open spec fn lines(s: Seq<char>) -> Seq<Seq<char>> {
    let parts = split(s, '\n');
    let kept = if s.len() == 0 {
        Seq::empty()
    } else if s.last() == '\n' {
        parts.drop_last()
    } else {
        parts
    };
    kept.map_values(|l: Seq<char>| without_cr(l))
}

pub open spec fn without_cr(l: Seq<char>) -> Seq<char> {
    if l.len() > 0 && l.last() == '\r' {
        l.drop_last()
    } else {
        l
    }
}

/// The number of `#` that open a string.
pub open spec fn hash_run(s: Seq<char>) -> nat
    decreases s.len(),
{
    if s.len() > 0 && s[0] == '#' {
        1 + hash_run(s.drop_first())
    } else {
        0
    }
}

/// `s` without leading `#`.
pub open spec fn strip_leading_hashes(s: Seq<char>) -> Seq<char>
    decreases s.len(),
{
    if s.len() > 0 && s[0] == '#' {
        strip_leading_hashes(s.drop_first())
    } else {
        s
    }
}

/// `s` without trailing `#`.
pub open spec fn strip_trailing_hashes(s: Seq<char>) -> Seq<char>
    decreases s.len(),
{
    if s.len() > 0 && s.last() == '#' {
        strip_trailing_hashes(s.drop_last())
    } else {
        s
    }
}

/// The title and level of an ATX heading line (`#` to `######`, a space, a
/// non-empty title; closing `#` dropped).
pub open spec fn heading_of_line(line: Seq<char>) -> Option<(Seq<char>, nat)> {
    let t = trim_start(line);
    let level = hash_run(t);
    if t.len() == 0 || t[0] != '#' {
        None
    } else if 1 <= level <= 6 && level < t.len() && t[level as int] == ' ' {
        let title = trim(strip_trailing_hashes(strip_leading_hashes(trim(t.skip(level as int)))));
        if title.len() > 0 {
            Some((title, level))
        } else {
            None
        }
    } else {
        None
    }
}

/// The first heading among the lines from `i`.
pub open spec fn first_heading(ls: Seq<Seq<char>>, i: int) -> Option<(Seq<char>, nat)>
    decreases ls.len() - i,
{
    if i < 0 || i >= ls.len() {
        None
    } else {
        match heading_of_line(ls[i]) {
            Some(h) => Some(h),
            None => first_heading(ls, i + 1),
        }
    }
}

/// `markdown_section_metadata`: the first heading's title and level, else the
/// titleized slug at level 1.
pub open spec fn section_metadata_spec(content: Seq<char>, fallback_slug: Seq<char>) -> (Seq<char>, nat) {
    match first_heading(lines(content), 0) {
        Some(h) => h,
        None => (titleize_spec(fallback_slug), 1),
    }
}

fn trim_start_exec(s: &[char]) -> (out: Vec<char>)
    ensures
        out@ == trim_start(s@),
{
    let mut i: usize = 0;
    assert(s@.skip(0) =~= s@);
    while i < s.len() && char_is_whitespace(s[i])
        invariant
            i <= s@.len(),
            trim_start(s@) == trim_start(s@.skip(i as int)),
        decreases s@.len() - i,
    {
        assert(s@.skip(i as int).drop_first() =~= s@.skip(i + 1));
        i += 1;
    }
    let out = slice_chars(s, i, s.len());
    assert(out@ =~= s@.skip(i as int));
    out
}

fn strip_hashes(s: &[char]) -> (out: Vec<char>)
    ensures
        out@ == strip_trailing_hashes(strip_leading_hashes(s@)),
{
    let mut i: usize = 0;
    assert(s@.skip(0) =~= s@);
    while i < s.len() && s[i] == '#'
        invariant
            i <= s@.len(),
            strip_leading_hashes(s@) == strip_leading_hashes(s@.skip(i as int)),
        decreases s@.len() - i,
    {
        assert(s@.skip(i as int).drop_first() =~= s@.skip(i + 1));
        i += 1;
    }
    let mut j: usize = s.len();
    let ghost lead = s@.skip(i as int);
    assert(s@.subrange(i as int, j as int) =~= lead);
    while j > i && s[j - 1] == '#'
        invariant
            i <= j <= s@.len(),
            lead == s@.skip(i as int),
            strip_leading_hashes(s@) == lead,
            strip_trailing_hashes(lead) == strip_trailing_hashes(s@.subrange(i as int, j as int)),
        decreases j,
    {
        assert(s@.subrange(i as int, j as int).drop_last() =~= s@.subrange(i as int, j - 1));
        j -= 1;
    }
    slice_chars(s, i, j)
}

fn heading_of(line: &[char]) -> (r: Option<(Vec<char>, u8)>)
    ensures
        match r {
            Some((title, level)) => heading_of_line(line@) == Some((title@, level as nat)),
            None => heading_of_line(line@).is_none(),
        },
{
    let t = trim_start_exec(line);
    if t.len() == 0 || t[0] != '#' {
        return None;
    }
    let mut level: usize = 0;
    assert(t@.skip(0) =~= t@);
    while level < t.len() && t[level] == '#'
        invariant
            level <= t@.len(),
            hash_run(t@) == level + hash_run(t@.skip(level as int)),
        decreases t@.len() - level,
    {
        assert(t@.skip(level as int).drop_first() =~= t@.skip(level + 1));
        level += 1;
    }
    assert(hash_run(t@.skip(level as int)) == 0);
    if level >= 1 && level <= 6 && level < t.len() && t[level] == ' ' {
        let rest = slice_chars(t.as_slice(), level, t.len());
        assert(rest@ =~= t@.skip(level as int));
        let inner = trim_chars(rest.as_slice());
        let stripped = strip_hashes(inner.as_slice());
        let title = trim_chars(stripped.as_slice());
        if title.len() > 0 {
            return Some((title, level as u8));
        }
    }
    None
}

/// The title and heading level a section file gives itself.
pub fn markdown_section_metadata(content: &str, fallback_slug: &str) -> (r: (String, u8))
    ensures
        (r.0@, r.1 as nat) == section_metadata_spec(content@, fallback_slug@),
{
    let c = chars_of(content);
    let parts = split_chars(c.as_slice(), '\n');
    let ghost pv = split(content@, '\n');
    let ghost ls = lines(content@);
    proof {
        crate::text::lemma_split_nonempty(content@, '\n');
    }
    let count = if c.len() == 0 {
        0
    } else if c[c.len() - 1] == '\n' {
        parts.len() - 1
    } else {
        parts.len()
    };
    assert(count == ls.len());
    let mut i: usize = 0;
    while i < count
        invariant
            i <= count == ls.len(),
            count <= parts@.len(),
            ls == lines(content@),
            pv == split(content@, '\n'),
            parts@.len() == pv.len(),
            forall|k: int| 0 <= k < parts@.len() ==> #[trigger] parts@[k]@ == pv[k],
            first_heading(ls, 0) == first_heading(ls, i as int),
        decreases count - i,
    {
        let p = &parts[i];
        let line = if p.len() > 0 && p[p.len() - 1] == '\r' {
            slice_chars(p.as_slice(), 0, p.len() - 1)
        } else {
            slice_chars(p.as_slice(), 0, p.len())
        };
        assert(line@ =~= ls[i as int]);
        match heading_of(line.as_slice()) {
            Some((title, level)) => {
                return (string_of(title.as_slice()), level);
            },
            None => {},
        }
        i += 1;
    }
    (titleize_slug(fallback_slug), 1)
}

/* What a heading line says */

/// `n` copies of `#`.
pub open spec fn hashes(n: nat) -> Seq<char> {
    Seq::new(n, |_i: int| '#')
}

proof fn lemma_hash_run_prefix(n: nat, s: Seq<char>)
    requires
        s.len() == 0 || s[0] != '#',
    ensures
        hash_run(hashes(n) + s) == n,
    decreases n,
{
    if n == 0 {
        assert(hashes(0) + s =~= s);
    } else {
        assert((hashes(n) + s).drop_first() =~= hashes((n - 1) as nat) + s);
        lemma_hash_run_prefix((n - 1) as nat, s);
    }
}

/// The first part of a split is everything before the first separator.
proof fn lemma_split_first(s: Seq<char>, sep: char, k: int)
    requires
        0 <= k <= s.len(),
        forall|j: int| 0 <= j < k ==> s[j] != sep,
        k == s.len() || s[k] == sep,
    ensures
        split(s, sep).len() >= 1,
        split(s, sep)[0] == s.take(k),
        k == s.len() ==> split(s, sep).len() == 1,
        k < s.len() ==> split(s, sep).len() >= 2,
    decreases s.len(),
{
    if s.len() == 0 {
        assert(s.take(0) =~= Seq::<char>::empty());
    } else {
        let d = s.drop_last();
        if k == s.len() {
            lemma_split_first(d, sep, k - 1);
            assert(d.take(k - 1) =~= d);
            assert(s.last() != sep);
            assert(d.push(s.last()) =~= s.take(k));
        } else if k == s.len() - 1 {
            lemma_split_first(d, sep, k);
            assert(d.take(k) =~= s.take(k));
        } else {
            lemma_split_first(d, sep, k);
            assert(d.take(k) =~= s.take(k));
            crate::text::lemma_split_nonempty(d, sep);
        }
    }
}

/// A section file whose first line is a heading (spaces or tabs, one to six
/// `#`, a space, then a title that is trimmed, not empty, neither starts nor
/// ends with `#` and holds no line break) takes that title and that heading
/// level, whatever follows the line.
pub proof fn lemma_heading_line_gives_metadata(
    indent: Seq<char>,
    n: nat,
    title: Seq<char>,
    rest: Seq<char>,
    fallback_slug: Seq<char>,
)
    requires
        1 <= n <= 6,
        forall|i: int| 0 <= i < indent.len() ==> #[trigger] indent[i] == ' ' || indent[i] == '\t',
        title.len() > 0,
        !is_whitespace(title[0]),
        !is_whitespace(title.last()),
        title[0] != '#',
        title.last() != '#',
        !title.contains('\n'),
    ensures
        section_metadata_spec(indent + hashes(n) + seq![' '] + title, fallback_slug) == (title, n),
        section_metadata_spec(indent + hashes(n) + seq![' '] + title + seq!['\n'] + rest, fallback_slug) == (
            title,
            n,
        ),
{
    let line = indent + hashes(n) + seq![' '] + title;
    let t = hashes(n) + seq![' '] + title;
    assert(line.skip(indent.len() as int) =~= t);
    crate::text::lemma_trim_start_skip(line, indent.len() as int);
    assert(trim_start(t) == t);
    lemma_hash_run_prefix(n, seq![' '] + title);
    assert(seq![' '] + title =~= seq![' '] + title);
    assert(t =~= hashes(n) + (seq![' '] + title));
    assert(t[n as int] == ' ');
    let after = t.skip(n as int);
    assert(after =~= seq![' '] + title);
    assert(after.drop_first() =~= title);
    assert(trim_start(after) == trim_start(title));
    assert(trim_start(title) == title);
    assert(crate::text::trim_end(title) == title);
    assert(trim(after) == title);
    assert(strip_leading_hashes(title) == title);
    assert(strip_trailing_hashes(title) == title);
    assert(trim(title) == title);
    assert(heading_of_line(line) == Some((title, n)));
    assert(line.len() > 0 && line.last() == title.last());
    assert(without_cr(line) == line);
    assert forall|j: int| 0 <= j < line.len() implies line[j] != '\n' by {
        if j >= indent.len() + n + 1 {
            assert(line[j] == title[j - indent.len() - n - 1]);
            assert(title.contains(title[j - indent.len() - n - 1]));
        } else if j >= indent.len() {
            assert(line[j] == t[j - indent.len()]);
        }
    }
    lemma_split_first(line, '\n', line.len() as int);
    assert(line.take(line.len() as int) =~= line);
    assert(lines(line)[0] == line);
    let full = line + seq!['\n'] + rest;
    assert forall|j: int| 0 <= j < line.len() implies full[j] != '\n' by {
        assert(full[j] == line[j]);
    }
    lemma_split_first(full, '\n', line.len() as int);
    assert(full.take(line.len() as int) =~= line);
    assert(lines(full)[0] == line);
}

/* Ordering section files */

/// Inserts `x` after every item whose order is not greater than its own.
pub open spec fn order_insert<T>(s: Seq<(nat, T)>, x: (nat, T)) -> Seq<(nat, T)>
    decreases s.len(),
{
    if s.len() == 0 {
        seq![x]
    } else if x.0 < s.last().0 {
        order_insert(s.drop_last(), x).push(s.last())
    } else {
        s.push(x)
    }
}

/// Stable sort by order (`sort_by_key`).
pub open spec fn order_sort<T>(s: Seq<(nat, T)>) -> Seq<(nat, T)>
    decreases s.len(),
{
    if s.len() == 0 {
        s
    } else {
        order_insert(order_sort(s.drop_last()), s.last())
    }
}

pub open spec fn ordered_view<T>(v: Seq<(usize, T)>) -> Seq<(nat, T)> {
    v.map_values(|p: (usize, T)| (p.0 as nat, p.1))
}

pub fn order_insert_exec<T>(s: &mut Vec<(usize, T)>, x: (usize, T))
    ensures
        ordered_view(final(s)@) == order_insert(ordered_view(old(s)@), (x.0 as nat, x.1)),
    decreases old(s)@.len(),
{
    let n = s.len();
    let ghost before = ordered_view(s@);
    if n == 0 {
        s.push(x);
        assert(ordered_view(s@) =~= seq![(x.0 as nat, x.1)]);
        return;
    }
    if x.0 < s[n - 1].0 {
        let last = s.pop().unwrap();
        assert(ordered_view(s@) =~= before.drop_last());
        order_insert_exec(s, x);
        let ghost mid = ordered_view(s@);
        s.push(last);
        assert(ordered_view(s@) =~= mid.push(before.last()));
    } else {
        s.push(x);
        assert(ordered_view(s@) =~= before.push((x.0 as nat, x.1)));
    }
}

/// Whether a folder entry is a section: not hidden or underscored, and a
/// folder or a Markdown file.
pub open spec fn is_section_entry(name: Seq<char>, is_dir: bool) -> bool {
    !(name.len() > 0 && (name[0] == '_' || name[0] == '.')) && (is_dir || has_suffix(name, ".md"@))
}

/// The section entries of a folder.
pub open spec fn section_entries(entries: Seq<(Seq<char>, bool)>) -> Seq<(Seq<char>, bool)>
    decreases entries.len(),
{
    if entries.len() == 0 {
        entries
    } else {
        let rest = section_entries(entries.drop_last());
        if is_section_entry(entries.last().0, entries.last().1) {
            rest.push(entries.last())
        } else {
            rest
        }
    }
}

/// The section entries of a folder in their order: by `NN-` prefix, keeping
/// the listing's order among equal prefixes.
pub open spec fn ordered_section_entries_spec(entries: Seq<(Seq<char>, bool)>) -> Seq<(Seq<char>, bool)> {
    order_sort(
        section_entries(entries).map_values(|e: (Seq<char>, bool)| (order_from_name_spec(e.0), e)),
    ).map_values(|p: (nat, (Seq<char>, bool))| p.1)
}

pub open spec fn entries_view(v: Seq<(String, bool)>) -> Seq<(Seq<char>, bool)> {
    v.map_values(|e: (String, bool)| (e.0@, e.1))
}

spec fn ordered_entries(s: Seq<(nat, (String, bool))>) -> Seq<(nat, (Seq<char>, bool))> {
    s.map_values(|p: (nat, (String, bool))| (p.0, (p.1.0@, p.1.1)))
}

proof fn lemma_order_insert_map(s: Seq<(nat, (String, bool))>, x: (nat, (String, bool)))
    ensures
        order_insert(ordered_entries(s), (x.0, (x.1.0@, x.1.1))) == ordered_entries(order_insert(s, x)),
    decreases s.len(),
{
    let ms = ordered_entries(s);
    if s.len() == 0 {
        assert(ordered_entries(order_insert(s, x)) =~= seq![(x.0, (x.1.0@, x.1.1))]);
    } else {
        assert(ms.drop_last() =~= ordered_entries(s.drop_last()));
        if x.0 < s.last().0 {
            lemma_order_insert_map(s.drop_last(), x);
            assert(ordered_entries(order_insert(s.drop_last(), x).push(s.last())) =~= ordered_entries(
                order_insert(s.drop_last(), x),
            ).push(ms.last()));
        } else {
            assert(ordered_entries(s.push(x)) =~= ms.push((x.0, (x.1.0@, x.1.1))));
        }
    }
}

proof fn lemma_order_sort_map(s: Seq<(nat, (String, bool))>)
    ensures
        order_sort(ordered_entries(s)) == ordered_entries(order_sort(s)),
    decreases s.len(),
{
    if s.len() == 0 {
        assert(ordered_entries(s) =~= Seq::<(nat, (Seq<char>, bool))>::empty());
    } else {
        assert(ordered_entries(s).drop_last() =~= ordered_entries(s.drop_last()));
        lemma_order_sort_map(s.drop_last());
        lemma_order_insert_map(order_sort(s.drop_last()), s.last());
    }
}

/// The section entries of a folder listing (names, and whether each is a
/// folder), in section order.
pub fn ordered_section_entries(entries: Vec<(String, bool)>) -> (out: Vec<(String, bool)>)
    ensures
        entries_view(out@) == ordered_section_entries_spec(entries_view(entries@)),
{
    let ghost ev = entries_view(entries@);
    let ghost keyed = section_entries(ev).map_values(|e: (Seq<char>, bool)| (order_from_name_spec(e.0), e));
    let mut rest = entries;
    let mut sorted: Vec<(usize, (String, bool))> = Vec::new();
    let ghost mut raw: Seq<(nat, (String, bool))> = Seq::empty();
    let ghost mut k: int = 0;
    while rest.len() > 0
        invariant
            0 <= k <= ev.len(),
            entries_view(rest@) == ev.skip(k),
            ordered_entries(raw) == section_entries(ev.take(k)).map_values(
                |e: (Seq<char>, bool)| (order_from_name_spec(e.0), e),
            ),
            ordered_view(sorted@) == order_sort(raw),
        decreases rest@.len(),
    {
        let ghost rv = rest@;
        assert(entries_view(rv).len() == rv.len());
        assert(k < ev.len());
        let e = rest.remove(0);
        assert(entries_view(rv)[0] == (e.0@, e.1));
        assert(ev.skip(k)[0] == ev[k]);
        assert(ev.take(k + 1).drop_last() =~= ev.take(k));
        assert(ev.take(k + 1).last() == ev[k]);
        let name = chars_of(e.0.as_str());
        let hidden = name.len() > 0 && (name[0] == '_' || name[0] == '.');
        let md = chars_of(".md");
        if !hidden && (e.1 || crate::text::ends_with(name.as_slice(), md.as_slice())) {
            let order = order_from_name(e.0.as_str());
            proof {
                let item = (order as nat, e);
                assert(ordered_entries(raw.push(item)) =~= ordered_entries(raw).push((order as nat, (e.0@, e.1))));
                assert(section_entries(ev.take(k + 1)) == section_entries(ev.take(k)).push(ev[k]));
                assert(section_entries(ev.take(k + 1)).map_values(|e: (Seq<char>, bool)| (order_from_name_spec(e.0), e))
                    =~= section_entries(ev.take(k)).map_values(|e: (Seq<char>, bool)| (order_from_name_spec(e.0), e)).push(
                    (order_from_name_spec(ev[k].0), ev[k]),
                ));
                assert(raw.push(item).drop_last() =~= raw);
                raw = raw.push(item);
            }
            order_insert_exec(&mut sorted, (order, e));
        } else {
            assert(section_entries(ev.take(k + 1)) == section_entries(ev.take(k)));
        }
        assert forall|i: int| 0 <= i < rest@.len() implies #[trigger] entries_view(rest@)[i] == ev.skip(k + 1)[i] by {
            assert(rest@[i] == rv[i + 1]);
            assert(entries_view(rv)[i + 1] == ev.skip(k)[i + 1]);
        }
        assert(entries_view(rest@) =~= ev.skip(k + 1));
        proof {
            k = k + 1;
        }
    }
    assert(ev.take(k) =~= ev);
    proof {
        lemma_order_sort_map(raw);
    }
    let ghost sv = ordered_view(sorted@);
    let mut rest2 = sorted;
    let mut out: Vec<(String, bool)> = Vec::new();
    let ghost mut j: int = 0;
    while rest2.len() > 0
        invariant
            0 <= j <= sv.len(),
            ordered_view(rest2@) == sv.skip(j),
            entries_view(out@) == ordered_entries(sv.take(j)).map_values(|p: (nat, (Seq<char>, bool))| p.1),
        decreases rest2@.len(),
    {
        let ghost rv = rest2@;
        assert(ordered_view(rv).len() == rv.len());
        assert(j < sv.len());
        let p = rest2.remove(0);
        assert(ordered_view(rv)[0] == (p.0 as nat, p.1));
        assert(sv.skip(j)[0] == sv[j]);
        let ghost o = entries_view(out@);
        out.push(p.1);
        assert(sv.take(j + 1) =~= sv.take(j).push(sv[j]));
        assert(entries_view(out@) =~= o.push((sv[j].1.0@, sv[j].1.1)));
        assert(ordered_entries(sv.take(j + 1)).map_values(|p: (nat, (Seq<char>, bool))| p.1) =~= ordered_entries(
            sv.take(j),
        ).map_values(|p: (nat, (Seq<char>, bool))| p.1).push((sv[j].1.0@, sv[j].1.1)));
        assert forall|i: int| 0 <= i < rest2@.len() implies #[trigger] ordered_view(rest2@)[i] == sv.skip(j + 1)[i] by {
            assert(rest2@[i] == rv[i + 1]);
            assert(ordered_view(rv)[i + 1] == sv.skip(j)[i + 1]);
        }
        assert(ordered_view(rest2@) =~= sv.skip(j + 1));
        proof {
            j = j + 1;
        }
    }
    assert(sv.take(j) =~= sv);
    out
}

/// Replaces the payloads of ordered items, keeping their orders.
pub open spec fn map_ordered<T, U>(s: Seq<(nat, T)>, f: spec_fn(T) -> U) -> Seq<(nat, U)> {
    s.map_values(|p: (nat, T)| (p.0, f(p.1)))
}

proof fn lemma_order_insert_map_payload<T, U>(s: Seq<(nat, T)>, x: (nat, T), f: spec_fn(T) -> U)
    ensures
        order_insert(map_ordered(s, f), (x.0, f(x.1))) == map_ordered(order_insert(s, x), f),
    decreases s.len(),
{
    let ms = map_ordered(s, f);
    if s.len() == 0 {
        assert(map_ordered(order_insert(s, x), f) =~= seq![(x.0, f(x.1))]);
    } else {
        assert(ms.drop_last() =~= map_ordered(s.drop_last(), f));
        if x.0 < s.last().0 {
            lemma_order_insert_map_payload(s.drop_last(), x, f);
            assert(map_ordered(order_insert(s.drop_last(), x).push(s.last()), f) =~= map_ordered(
                order_insert(s.drop_last(), x),
                f,
            ).push(ms.last()));
        } else {
            assert(map_ordered(s.push(x), f) =~= ms.push((x.0, f(x.1))));
        }
    }
}

/// Sorting by order does not look at the payloads.
pub proof fn lemma_order_sort_map_payload<T, U>(s: Seq<(nat, T)>, f: spec_fn(T) -> U)
    ensures
        order_sort(map_ordered(s, f)) == map_ordered(order_sort(s), f),
    decreases s.len(),
{
    if s.len() == 0 {
        assert(map_ordered(s, f) =~= Seq::<(nat, U)>::empty());
    } else {
        assert(map_ordered(s, f).drop_last() =~= map_ordered(s.drop_last(), f));
        lemma_order_sort_map_payload(s.drop_last(), f);
        lemma_order_insert_map_payload(order_sort(s.drop_last()), s.last(), f);
    }
}

proof fn lemma_order_insert_members<T>(s: Seq<(nat, T)>, x: (nat, T))
    ensures
        order_insert(s, x).len() == s.len() + 1,
        forall|t: int| 0 <= t < order_insert(s, x).len() ==> (s.contains(#[trigger] order_insert(s, x)[t]) || order_insert(s, x)[t] == x),
    decreases s.len(),
{
    if s.len() > 0 && x.0 < s.last().0 {
        lemma_order_insert_members(s.drop_last(), x);
        let r = order_insert(s.drop_last(), x);
        assert forall|t: int| 0 <= t < order_insert(s, x).len() implies (s.contains(#[trigger] order_insert(s, x)[t]) || order_insert(s, x)[t] == x) by {
            if t < r.len() {
                assert(order_insert(s, x)[t] == r[t]);
                if s.drop_last().contains(r[t]) {
                    let u = choose|u: int| 0 <= u < s.drop_last().len() && s.drop_last()[u] == r[t];
                    assert(s[u] == r[t]);
                }
            } else {
                assert(order_insert(s, x)[t] == s.last());
                assert(s[s.len() - 1] == s.last());
            }
        }
    } else if s.len() > 0 {
        assert forall|t: int| 0 <= t < order_insert(s, x).len() implies (s.contains(#[trigger] order_insert(s, x)[t]) || order_insert(s, x)[t] == x) by {
            if t < s.len() {
                assert(order_insert(s, x)[t] == s[t]);
            }
        }
    }
}

/// A stable sort by order keeps the items: same length, each item from the input.
pub proof fn lemma_order_sort_members<T>(s: Seq<(nat, T)>)
    ensures
        order_sort(s).len() == s.len(),
        forall|t: int| 0 <= t < order_sort(s).len() ==> s.contains(#[trigger] order_sort(s)[t]),
    decreases s.len(),
{
    if s.len() > 0 {
        lemma_order_sort_members(s.drop_last());
        lemma_order_insert_members(order_sort(s.drop_last()), s.last());
        assert forall|t: int| 0 <= t < order_sort(s).len() implies s.contains(#[trigger] order_sort(s)[t]) by {
            let e = order_sort(s)[t];
            if order_sort(s.drop_last()).contains(e) {
                let u = choose|u: int| 0 <= u < order_sort(s.drop_last()).len() && order_sort(s.drop_last())[u] == e;
                let w = choose|w: int| 0 <= w < s.drop_last().len() && s.drop_last()[w] == order_sort(s.drop_last())[u];
                assert(s[w] == e);
            } else {
                assert(e == s.last());
                assert(s[s.len() - 1] == e);
            }
        }
    }
}

/* What the index reads back from the vault */

/// The digits of a run end where the run of digits ends.
proof fn lemma_digit_run_at(s: Seq<char>, i: int, k: int)
    requires
        0 <= i <= k <= s.len(),
        forall|j: int| i <= j < k ==> is_digit(#[trigger] s[j]),
        k == s.len() || !is_digit(s[k]),
    ensures
        digit_run(s, i) == k,
    decreases k - i,
{
    if i < k {
        lemma_digit_run_at(s, i + 1, k);
    }
}

/// The indexer reads back what the writer put in a section's name: a section
/// file `NN-<slug>.md` or folder `NN-<slug>`, numbered from 01 among its
/// siblings (three digits and more from the hundredth on), gives back `<slug>`,
/// so progress recorded by canonical path survives a reindex; and its number
/// is its order among its siblings.
pub proof fn lemma_section_names_give_slugs(index: nat, slug: Seq<char>)
    requires
        index + 1 <= usize::MAX,
        slug.len() > 0,
        !slug.contains('.'),
    ensures
        slug_from_prefixed_name_spec(crate::text::decimal2(index + 1) + "-"@ + slug + ".md"@) == slug,
        slug_from_prefixed_name_spec(crate::text::decimal2(index + 1) + "-"@ + slug) == slug,
        order_from_name_spec(crate::text::decimal2(index + 1) + "-"@ + slug + ".md"@) == index + 1,
        order_from_name_spec(crate::text::decimal2(index + 1) + "-"@ + slug) == index + 1,
{
    let n = (index + 1) as nat;
    let d = crate::text::decimal2(n);
    crate::text::lemma_decimal_digits(n);
    crate::text::lemma_decimal_value(n);
    reveal_strlit("-");
    reveal_strlit(".md");
    assert(d.len() >= 1);
    assert(forall|j: int| 0 <= j < d.len() ==> is_digit(#[trigger] d[j])) by {
        if n < 10 {
            assert(crate::text::decimal(n)[0] == crate::text::digit_char(n));
            assert(crate::text::is_ascii_digit(crate::text::decimal(n)[0]));
        } else {
            assert forall|j: int| 0 <= j < d.len() implies is_digit(#[trigger] d[j]) by {
                assert(crate::text::is_ascii_digit(crate::text::decimal(n)[j]));
            }
        }
    }
    assert(crate::text::digits_value(d) == n) by {
        if n < 10 {
            crate::text::lemma_digit_char_value(n);
            let z = seq!['0'];
            assert(z.drop_last() =~= Seq::<char>::empty());
            assert(crate::text::digits_value(Seq::<char>::empty()) == 0);
            assert(crate::text::digits_value(z) == crate::text::digits_value(z.drop_last()) * 10
                + crate::text::digit_value(z.last()));
            assert(d.drop_last() =~= z);
            assert(crate::text::digits_value(d) == crate::text::digits_value(d.drop_last()) * 10
                + crate::text::digit_value(d.last()));
        }
    }
    let stem = d + "-"@ + slug;
    let file = stem + ".md"@;
    assert(has_suffix(file, ".md"@)) by {
        assert(file.skip(file.len() - 3) =~= ".md"@);
    }
    assert(file.take(file.len() - 3) =~= stem);
    assert(!has_suffix(stem, ".md"@)) by {
        if has_suffix(stem, ".md"@) {
            assert(stem.skip(stem.len() - 3)[0] == ".md"@[0]);
            assert(stem[stem.len() - 3] == '.');
            if stem.len() - 3 >= d.len() + 1 {
                assert(slug[stem.len() - 3 - d.len() - 1] == '.');
                assert(slug.contains('.'));
            } else {
                assert(stem.len() - 3 < d.len() + 1);
                assert(stem.len() >= d.len() + 2);
                if stem.len() - 3 < d.len() {
                    assert(is_digit(d[stem.len() - 3]));
                } else {
                    assert(stem[d.len() as int] == '-');
                }
            }
        }
    }
    assert forall|j: int| 0 <= j < d.len() implies is_digit(#[trigger] stem[j]) by {
        assert(stem[j] == d[j]);
    }
    assert(stem[d.len() as int] == '-');
    lemma_digit_run_at(stem, 0, d.len() as int);
    assert forall|j: int| 0 <= j < d.len() implies is_digit(#[trigger] file[j]) by {
        assert(file[j] == d[j]);
    }
    assert(file[d.len() as int] == '-');
    lemma_digit_run_at(file, 0, d.len() as int);
    assert(stem.skip(d.len() as int + 1) =~= slug);
    assert(stem.take(d.len() as int) =~= d);
    assert(file.take(d.len() as int) =~= d);
}

} // verus!
