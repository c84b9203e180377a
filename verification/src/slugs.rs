//! Filesystem-safe slugs for course, section, category and path names.
use vstd::prelude::*;
use vstd::set_lib::{lemma_int_range, lemma_len_subset, lemma_map_size, set_int_range};

use crate::hashing::{hex, lemma_hex_chars, sha256_of, short_hash, short_hash_of};
use crate::text::{
    digit_char, decimal_chars_wide,
    append_chars, chars_eq, chars_of, decimal, decimal_chars, lemma_decimal_digits, lower,
    split, split_chars, string_of, to_ascii_lowercase, to_ascii_uppercase, trim, trim_chars,
    upper, is_ascii_digit, is_whitespace, trim_end, trim_start, ascii_upper,
};

verus! {

/// Keeps on-disk path components comfortably under Windows `MAX_PATH` pressure
/// when nested under `vault/courses/.../sections/...`.
pub const MAX_SLUG_LEN: usize = 60;

/* Byte lengths */

/// The number of bytes of `c` in UTF-8.
pub open spec fn utf8_len(c: char) -> nat {
    if (c as u32) < 0x80 {
        1
    } else if (c as u32) < 0x800 {
        2
    } else if (c as u32) < 0x10000 {
        3
    } else {
        4
    }
}

/// The number of bytes of `s` in UTF-8 (`str::len`).
pub open spec fn byte_len(s: Seq<char>) -> nat
    decreases s.len(),
{
    if s.len() == 0 {
        0
    } else {
        byte_len(s.drop_last()) + utf8_len(s.last())
    }
}

fn char_utf8_len(c: char) -> (n: usize)
    ensures
        n == utf8_len(c),
{
    let v = c as u32;
    if v < 0x80 {
        1
    } else if v < 0x800 {
        2
    } else if v < 0x10000 {
        3
    } else {
        4
    }
}

proof fn lemma_byte_len_step(s: Seq<char>, i: int)
    requires
        0 <= i < s.len(),
    ensures
        byte_len(s.take(i + 1)) == byte_len(s.take(i)) + utf8_len(s[i]),
{
    assert(s.take(i + 1).drop_last() =~= s.take(i));
}

proof fn lemma_byte_len_monotone(s: Seq<char>, a: int, b: int)
    requires
        0 <= a <= b <= s.len(),
    ensures
        byte_len(s.take(a)) <= byte_len(s.take(b)),
    decreases b - a,
{
    if a < b {
        lemma_byte_len_monotone(s, a, b - 1);
        lemma_byte_len_step(s, b - 1);
    }
}

/// A character sequence has at most four bytes per character.
proof fn lemma_byte_len_bound(s: Seq<char>)
    ensures
        byte_len(s) <= 4 * s.len(),
        byte_len(s) >= s.len(),
    decreases s.len(),
{
    if s.len() > 0 {
        lemma_byte_len_bound(s.drop_last());
    }
}

/// The longest prefix of `v` whose UTF-8 encoding has at most `max` bytes
/// (cutting at the last character boundary at or before byte `max`).
pub open spec fn truncate_bytes_spec(v: Seq<char>, max: nat) -> Seq<char>
    decreases v.len(),
{
    if byte_len(v) <= max || v.len() == 0 {
        v
    } else {
        truncate_bytes_spec(v.drop_last(), max)
    }
}

proof fn lemma_truncate_bytes_is_take(v: Seq<char>, max: nat, k: int)
    requires
        0 <= k <= v.len(),
        byte_len(v.take(k)) <= max,
        k == v.len() || byte_len(v.take(k + 1)) > max,
    ensures
        truncate_bytes_spec(v, max) == v.take(k),
    decreases v.len(),
{
    if byte_len(v) <= max || v.len() == 0 {
        if k < v.len() {
            lemma_byte_len_monotone(v, k + 1, v.len() as int);
            assert(v.take(v.len() as int) =~= v);
        }
        assert(v.take(k) =~= v);
    } else {
        if k == v.len() {
            assert(v.take(k) =~= v);
        }
        let d = v.drop_last();
        assert(d.take(k) =~= v.take(k));
        if k + 1 <= d.len() {
            assert(d.take(k + 1) =~= v.take(k + 1));
        }
        lemma_truncate_bytes_is_take(d, max, k);
    }
}

/// The longest prefix of `value` that fits in `max_len` UTF-8 bytes.
pub fn truncate_bytes(value: &[char], max_len: usize) -> (out: Vec<char>)
    ensures
        out@ == truncate_bytes_spec(value@, max_len as nat),
{
    let mut n: usize = 0;
    let mut k: usize = 0;
    while k < value.len() && char_utf8_len(value[k]) <= max_len - n
        invariant
            k <= value.len(),
            n == byte_len(value@.take(k as int)),
            n <= max_len,
        decreases value.len() - k,
    {
        proof {
            lemma_byte_len_step(value@, k as int);
        }
        n = n + char_utf8_len(value[k]);
        k += 1;
    }
    proof {
        if k < value.len() {
            lemma_byte_len_step(value@, k as int);
        }
        lemma_truncate_bytes_is_take(value@, max_len as nat, k as int);
    }
    let mut out: Vec<char> = Vec::new();
    let mut i: usize = 0;
    while i < k
        invariant
            i <= k <= value.len(),
            out@ == value@.take(i as int),
        decreases k - i,
    {
        out.push(value[i]);
        i += 1;
        assert(out@ =~= value@.take(i as int));
    }
    out
}

/// `s.trim_end_matches(c)`.
pub open spec fn trim_end_char(s: Seq<char>, c: char) -> Seq<char>
    decreases s.len(),
{
    if s.len() > 0 && s.last() == c {
        trim_end_char(s.drop_last(), c)
    } else {
        s
    }
}

fn trim_end_char_exec(s: &[char], c: char) -> (out: Vec<char>)
    ensures
        out@ == trim_end_char(s@, c),
{
    let mut k = s.len();
    assert(s@.take(k as int) =~= s@);
    while k > 0 && s[k - 1] == c
        invariant
            k <= s.len(),
            trim_end_char(s@, c) == trim_end_char(s@.take(k as int), c),
        decreases k,
    {
        assert(s@.take(k as int).drop_last() =~= s@.take(k - 1));
        k -= 1;
    }
    proof {
        assert(s@.take(s.len() as int) =~= s@);
    }
    let mut out: Vec<char> = Vec::new();
    let mut i: usize = 0;
    while i < k
        invariant
            i <= k <= s.len(),
            out@ == s@.take(i as int),
        decreases k - i,
    {
        out.push(s[i]);
        i += 1;
        assert(out@ =~= s@.take(i as int));
    }
    out
}

/// `truncate_with_hash`: a value longer than `max` bytes is cut and tagged with
/// the first eight hex digits of its SHA-256 so distinct long values stay distinct.
pub open spec fn truncate_with_hash_spec(value: Seq<char>, max: nat) -> Seq<char> {
    if max == 0 {
        Seq::empty()
    } else if byte_len(value) <= max {
        value
    } else {
        let hash = short_hash_of(value);
        if hash.len() + 1 >= max {
            if max >= hash.len() {
                hash
            } else {
                hash.take(max as int)
            }
        } else {
            let keep = (max - hash.len() - 1) as nat;
            let prefix = trim_end_char(truncate_bytes_spec(value, keep), '-');
            if prefix.len() == 0 {
                hash
            } else {
                prefix + seq!['-'] + hash
            }
        }
    }
}

fn truncate_with_hash(value: &[char], max_len: usize) -> (out: Vec<char>)
    ensures
        out@ == truncate_with_hash_spec(value@, max_len as nat),
        max_len > 0 && value@.len() > 0 ==> out@.len() > 0,
{
    if max_len == 0 {
        return Vec::new();
    }
    let fits = byte_len_at_most(value, max_len);
    if fits {
        let all = crate::text::slice_chars(value, 0, value.len());
        assert(all@ =~= value@);
        return all;
    }
    let hash = short_hash(value);
    if hash.len() + 1 >= max_len {
        if max_len >= hash.len() {
            return hash;
        }
        let mut out: Vec<char> = Vec::new();
        let mut i: usize = 0;
        while i < max_len
            invariant
                i <= max_len < hash.len(),
                out@ == hash@.take(i as int),
            decreases max_len - i,
        {
            out.push(hash[i]);
            i += 1;
            assert(out@ =~= hash@.take(i as int));
        }
        return out;
    }
    let keep = max_len - hash.len() - 1;
    let cut = truncate_bytes(value, keep);
    let prefix = trim_end_char_exec(&cut, '-');
    if prefix.len() == 0 {
        hash
    } else {
        let mut out = prefix;
        out.push('-');
        append_chars(&mut out, hash.as_slice());
        out
    }
}

/// Whether the UTF-8 encoding of `value` has at most `max` bytes.
fn byte_len_at_most(value: &[char], max: usize) -> (r: bool)
    ensures
        r == (byte_len(value@) <= max),
{
    let mut n: usize = 0;
    let mut k: usize = 0;
    while k < value.len()
        invariant
            k <= value.len(),
            n == byte_len(value@.take(k as int)),
            n <= max,
        decreases value.len() - k,
    {
        proof {
            lemma_byte_len_step(value@, k as int);
        }
        let w = char_utf8_len(value[k]);
        if w > max - n {
            proof {
                lemma_byte_len_monotone(value@, k + 1, value@.len() as int);
                assert(value@.take(value.len() as int) =~= value@);
            }
            return false;
        }
        n = n + w;
        k += 1;
    }
    assert(value@.take(value.len() as int) =~= value@);
    true
}

/* Reserved Windows device names */

/// The position of the first `.` at or after `i`, or the length when there is none.
pub open spec fn dot_index(name: Seq<char>, i: int) -> int
    decreases name.len() - i,
{
    if i < 0 || i >= name.len() || name[i] == '.' {
        i
    } else {
        dot_index(name, i + 1)
    }
}

/// The part of a file name before its first `.`.
pub open spec fn stem(name: Seq<char>) -> Seq<char> {
    name.take(dot_index(name, 0))
}

/// The first `.` is at `k` (or there is none and `k` is the length).
proof fn lemma_dot_index_at(name: Seq<char>, i: int, k: int)
    requires
        0 <= i <= k <= name.len(),
        forall|j: int| i <= j < k ==> #[trigger] name[j] != '.',
        k == name.len() || name[k] == '.',
    ensures
        dot_index(name, i) == k,
    decreases k - i,
{
    if i < k {
        lemma_dot_index_at(name, i + 1, k);
    }
}

/// What the first `.` is: no `.` before it, and a `.` at it unless it is the end.
proof fn lemma_dot_index_facts(name: Seq<char>, i: int)
    requires
        0 <= i <= name.len(),
    ensures
        i <= dot_index(name, i) <= name.len(),
        forall|j: int| i <= j < dot_index(name, i) ==> #[trigger] name[j] != '.',
        dot_index(name, i) == name.len() || name[dot_index(name, i)] == '.',
    decreases name.len() - i,
{
    if i < name.len() && name[i] != '.' {
        lemma_dot_index_facts(name, i + 1);
    }
}

/// The position of the first `.` of `name`, or its length.
fn first_dot(name: &[char]) -> (k: usize)
    ensures
        k as int == dot_index(name@, 0),
{
    let mut k: usize = 0;
    while k < name.len() && name[k] != '.'
        invariant
            k <= name@.len(),
            dot_index(name@, 0) == dot_index(name@, k as int),
        decreases name@.len() - k,
    {
        k += 1;
    }
    k
}

/// An upper-cased stem that Windows reserves as a device name
/// (`CON`, `PRN`, `AUX`, `NUL`, `COM1`..`COM9`, `LPT1`..`LPT9`).
pub open spec fn is_reserved_stem(u: Seq<char>) -> bool {
    ||| u == seq!['C', 'O', 'N']
    ||| u == seq!['P', 'R', 'N']
    ||| u == seq!['A', 'U', 'X']
    ||| u == seq!['N', 'U', 'L']
    ||| (u.len() == 4 && (u.take(3) == seq!['C', 'O', 'M'] || u.take(3) == seq!['L', 'P', 'T'])
        && '1' <= u[3] <= '9')
}

pub open spec fn is_reserved_windows_name_spec(name: Seq<char>) -> bool {
    is_reserved_stem(upper(stem(name)))
}

fn is_reserved_windows_name(name: &[char]) -> (r: bool)
    ensures
        r == is_reserved_windows_name_spec(name@),
{
    let k = first_dot(name);
    proof {
        lemma_dot_index_facts(name@, 0);
    }
    let head = crate::text::slice_chars(name, 0, k);
    assert(head@ =~= stem(name@));
    let u = to_ascii_uppercase(head.as_slice());
    if u.len() == 3 {
        let r = (u[0] == 'C' && u[1] == 'O' && u[2] == 'N') || (u[0] == 'P' && u[1] == 'R' && u[2]
            == 'N') || (u[0] == 'A' && u[1] == 'U' && u[2] == 'X') || (u[0] == 'N' && u[1] == 'U'
            && u[2] == 'L');
        proof {
            if u@[0] == 'C' && u@[1] == 'O' && u@[2] == 'N' {
                assert(u@ =~= seq!['C', 'O', 'N']);
            }
            if u@[0] == 'P' && u@[1] == 'R' && u@[2] == 'N' {
                assert(u@ =~= seq!['P', 'R', 'N']);
            }
            if u@[0] == 'A' && u@[1] == 'U' && u@[2] == 'X' {
                assert(u@ =~= seq!['A', 'U', 'X']);
            }
            if u@[0] == 'N' && u@[1] == 'U' && u@[2] == 'L' {
                assert(u@ =~= seq!['N', 'U', 'L']);
            }
            if !r {
                assert(u@ != seq!['C', 'O', 'N'] ==> u@[0] != 'C' || u@[1] != 'O' || u@[2] != 'N');
                assert(!is_reserved_stem(u@)) by {
                    if u@ == seq!['C', 'O', 'N'] || u@ == seq!['P', 'R', 'N'] || u@ == seq![
                        'A',
                        'U',
                        'X',
                    ] || u@ == seq!['N', 'U', 'L'] {
                        assert(false);
                    }
                }
            }
        }
        r
    } else if u.len() == 4 {
        let head_com = u[0] == 'C' && u[1] == 'O' && u[2] == 'M';
        let head_lpt = u[0] == 'L' && u[1] == 'P' && u[2] == 'T';
        let r = (head_com || head_lpt) && '1' <= u[3] && u[3] <= '9';
        proof {
            if head_com {
                assert(u@.take(3) =~= seq!['C', 'O', 'M']);
            }
            if head_lpt {
                assert(u@.take(3) =~= seq!['L', 'P', 'T']);
            }
            if u@.take(3) == seq!['C', 'O', 'M'] {
                assert(u@.take(3)[0] == u@[0] && u@.take(3)[1] == u@[1] && u@.take(3)[2] == u@[2]);
            }
            if u@.take(3) == seq!['L', 'P', 'T'] {
                assert(u@.take(3)[0] == u@[0] && u@.take(3)[1] == u@[1] && u@.take(3)[2] == u@[2]);
            }
        }
        r
    } else {
        false
    }
}

/* Slugs */

/// `-item`, the mark that turns a reserved device name into an ordinary one.
pub open spec fn item_mark() -> Seq<char> {
    seq!['-', 'i', 't', 'e', 'm']
}

/// The name with `-item` added to its stem, before its first `.` (`con` gives
/// `con-item`, `nul.md` gives `nul-item.md`).
pub open spec fn with_item(name: Seq<char>) -> Seq<char> {
    stem(name) + item_mark() + name.skip(dot_index(name, 0))
}

/// The slug before the last resort of `sanitize_slug`: trimmed, lowercased
/// (the lowercased `fallback` when nothing is left), cut to `MAX_SLUG_LEN`
/// bytes, and, for a reserved device name, marked with `-item` in its stem and
/// cut again.
pub open spec fn sanitized_candidate(slug: Seq<char>, fallback: Seq<char>) -> Seq<char> {
    let c0 = lower(trim(slug));
    let c1 = if c0.len() == 0 {
        lower(fallback)
    } else {
        c0
    };
    let c2 = truncate_with_hash_spec(c1, MAX_SLUG_LEN as nat);
    if is_reserved_windows_name_spec(c2) {
        truncate_with_hash_spec(with_item(c2), MAX_SLUG_LEN as nat)
    } else {
        c2
    }
}

/// `sanitize_slug`: a trimmed, ASCII-lowercased slug cut to `MAX_SLUG_LEN` bytes;
/// a reserved Windows device name gets `-item` added to its stem and is cut
/// again; an empty result falls back to the lowercased `fallback`.
pub open spec fn sanitize_slug_spec(slug: Seq<char>, fallback: Seq<char>) -> Seq<char> {
    let c3 = sanitized_candidate(slug, fallback);
    if c3.len() == 0 {
        lower(fallback)
    } else {
        c3
    }
}

fn sanitize_chars(slug: &[char], fallback: &[char]) -> (out: Vec<char>)
    ensures
        out@ == sanitize_slug_spec(slug@, fallback@),
        fallback@.len() > 0 ==> sanitized_candidate(slug@, fallback@).len() > 0,
{
    let trimmed = trim_chars(slug);
    let mut candidate = to_ascii_lowercase(trimmed.as_slice());
    if candidate.len() == 0 {
        candidate = to_ascii_lowercase(fallback);
    }
    candidate = truncate_with_hash(candidate.as_slice(), MAX_SLUG_LEN);
    let ghost c2 = candidate@;
    if is_reserved_windows_name(candidate.as_slice()) {
        let k = first_dot(candidate.as_slice());
        proof {
            lemma_dot_index_facts(c2, 0);
        }
        let mut marked = crate::text::slice_chars(candidate.as_slice(), 0, k);
        marked.push('-');
        marked.push('i');
        marked.push('t');
        marked.push('e');
        marked.push('m');
        let rest = crate::text::slice_chars(candidate.as_slice(), k, candidate.len());
        append_chars(&mut marked, rest.as_slice());
        assert(marked@ =~= with_item(c2));
        candidate = truncate_with_hash(marked.as_slice(), MAX_SLUG_LEN);
    }
    if candidate.len() == 0 {
        to_ascii_lowercase(fallback)
    } else {
        candidate
    }
}

/// Ensure a slug is safe as a Windows/macOS path component.
pub fn sanitize_slug(slug: &str, fallback: &str) -> (out: String)
    ensures
        out@ == sanitize_slug_spec(slug@, fallback@),
        safe_fallback(fallback@) ==> safe_slug(out@),
{
    let s = chars_of(slug);
    let f = chars_of(fallback);
    let out = sanitize_chars(s.as_slice(), f.as_slice());
    proof {
        if safe_fallback(fallback@) {
            lemma_sanitized_slug_safe(slug@, fallback@);
        }
    }
    string_of(out.as_slice())
}

/// What `slug::slugify` returns for a string.
pub uninterp spec fn slugify_of(title: Seq<char>) -> Seq<char>;

/// `slug::slugify`. Trusted: the result is the named slug of the input, and,
/// as the crate documents, it consists of `a`-`z`, `0`-`9` and `-`, never
/// starts or ends with `-` and never holds two `-` in a row.
#[verifier::external_body]
pub(crate) fn slugify(title: &str) -> (out: String)
    ensures
        out@ == slugify_of(title@),
        forall|i: int|
            0 <= i < out@.len() ==> ('a' <= #[trigger] out@[i] <= 'z' || '0' <= out@[i] <= '9'
                || out@[i] == '-'),
        out@.len() > 0 ==> out@[0] != '-' && out@.last() != '-',
        forall|i: int| 0 <= i < out@.len() - 1 ==> !(#[trigger] out@[i] == '-' && out@[i + 1] == '-'),
{
    slug::slugify(title)
}

/// `base_slug`: the sanitized slug of a title, or of `fallback` when the title has none.
pub open spec fn base_slug_spec(title: Seq<char>, fallback: Seq<char>) -> Seq<char> {
    let raw = slugify_of(title);
    sanitize_slug_spec(if raw.len() == 0 { fallback } else { raw }, fallback)
}

/// Build a filesystem-safe slug from a human title.
pub fn base_slug(title: &str, fallback: &str) -> (out: String)
    ensures
        out@ == base_slug_spec(title@, fallback@),
{
    let raw = slugify(title);
    if raw.as_str().is_empty() {
        sanitize_slug(fallback, fallback)
    } else {
        sanitize_slug(raw.as_str(), fallback)
    }
}

/// `"-" + suffix`, with the base cut so the whole stays within `MAX_SLUG_LEN` bytes.
pub open spec fn with_numeric_suffix_spec(base: Seq<char>, suffix: nat) -> Seq<char> {
    let suffix_text = seq!['-'] + decimal(suffix);
    let max_base_len = if suffix_text.len() <= MAX_SLUG_LEN {
        (MAX_SLUG_LEN - suffix_text.len()) as nat
    } else {
        0
    };
    truncate_with_hash_spec(base, if max_base_len >= 1 { max_base_len } else { 1 }) + suffix_text
}

fn with_numeric_suffix(base: &[char], suffix: u32) -> (out: Vec<char>)
    ensures
        out@ == with_numeric_suffix_spec(base@, suffix as nat),
{
    let mut suffix_text: Vec<char> = Vec::new();
    suffix_text.push('-');
    let digits = decimal_chars(suffix as u64);
    append_chars(&mut suffix_text, digits.as_slice());
    let max_base_len = MAX_SLUG_LEN.saturating_sub(suffix_text.len());
    let limit = if max_base_len >= 1 {
        max_base_len
    } else {
        1
    };
    let mut out = truncate_with_hash(base, limit);
    append_chars(&mut out, suffix_text.as_slice());
    out
}

/// The `k`-th candidate tried by `unique_slug`: the safe base itself, then the
/// base with `-2`, `-3`, ...
pub open spec fn slug_candidate(safe_base: Seq<char>, k: nat) -> Seq<char> {
    if k <= 1 {
        safe_base
    } else {
        with_numeric_suffix_spec(safe_base, k)
    }
}

proof fn lemma_digit_injective(x: nat, y: nat)
    requires
        x < 10,
        y < 10,
        digit_char(x) == digit_char(y),
    ensures
        x == y,
{
}

proof fn lemma_decimal_injective(a: nat, b: nat)
    requires
        decimal(a) == decimal(b),
    ensures
        a == b,
    decreases a + b,
{
    lemma_decimal_digits(a);
    lemma_decimal_digits(b);
    if a < 10 && b < 10 {
        assert(decimal(a) == seq![digit_char(a)]);
        assert(decimal(b) == seq![digit_char(b)]);
        assert(decimal(a)[0] == digit_char(a));
        assert(decimal(b)[0] == digit_char(b));
        lemma_digit_injective(a, b);
    } else if a >= 10 && b >= 10 {
        let da = decimal(a / 10);
        let db = decimal(b / 10);
        assert(decimal(a) == da.push(digit_char(a % 10)));
        assert(decimal(b) == db.push(digit_char(b % 10)));
        assert(decimal(a).last() == digit_char(a % 10));
        assert(decimal(b).last() == digit_char(b % 10));
        lemma_digit_injective(a % 10, b % 10);
        assert(decimal(a).drop_last() =~= da);
        assert(decimal(b).drop_last() =~= db);
        lemma_decimal_injective(a / 10, b / 10);
        assert(a == (a / 10) * 10 + a % 10);
        assert(b == (b / 10) * 10 + b % 10);
    } else if a < 10 {
        lemma_decimal_digits(b / 10);
        assert(decimal(a).len() == 1);
        assert(decimal(b) == decimal(b / 10).push(digit_char(b % 10)));
    } else {
        lemma_decimal_digits(a / 10);
        assert(decimal(b).len() == 1);
        assert(decimal(a) == decimal(a / 10).push(digit_char(a % 10)));
    }
}

/// Two strings that end in `-` followed by the numerals of two different
/// numbers differ.
proof fn lemma_numbered_tails_distinct(cj: Seq<char>, ck: Seq<char>, j: nat, k: nat)
    requires
        j != k,
        has_tail(cj, seq!['-'] + decimal(j)),
        has_tail(ck, seq!['-'] + decimal(k)),
    ensures
        cj != ck,
{
    let dj = decimal(j);
    let dk = decimal(k);
    lemma_decimal_digits(j);
    lemma_decimal_digits(k);
    if cj == ck {
        if dj.len() == dk.len() {
            let tj = seq!['-'] + dj;
            let tk = seq!['-'] + dk;
            assert forall|i: int| 0 <= i < dj.len() implies cj.skip(cj.len() - dj.len())[i] == dj[i] by {
                assert(tj[i + 1] == dj[i]);
                assert(cj[cj.len() - tj.len() + (i + 1)] == tj[i + 1]);
            }
            assert forall|i: int| 0 <= i < dk.len() implies ck.skip(ck.len() - dk.len())[i] == dk[i] by {
                assert(tk[i + 1] == dk[i]);
                assert(ck[ck.len() - tk.len() + (i + 1)] == tk[i + 1]);
            }
            assert(cj.skip(cj.len() - dj.len()) =~= dj);
            assert(ck.skip(ck.len() - dk.len()) =~= dk);
            lemma_decimal_injective(j, k);
        } else if dj.len() < dk.len() {
            let p = cj.len() - dj.len() - 1;
            assert((seq!['-'] + dj)[0] == '-');
            assert(cj[p] == '-');
            let tk = seq!['-'] + dk;
            assert(tk[dk.len() - dj.len()] == dk[dk.len() - dj.len() - 1]);
            assert(ck[ck.len() - tk.len() + (dk.len() - dj.len())] == tk[dk.len() - dj.len()]);
            assert(ck[p] == dk[dk.len() - dj.len() - 1]);
            assert(is_ascii_digit(dk[dk.len() - dj.len() - 1]));
        } else {
            let p = ck.len() - dk.len() - 1;
            assert((seq!['-'] + dk)[0] == '-');
            assert(ck[p] == '-');
            let tj = seq!['-'] + dj;
            assert(tj[dj.len() - dk.len()] == dj[dj.len() - dk.len() - 1]);
            assert(cj[cj.len() - tj.len() + (dj.len() - dk.len())] == tj[dj.len() - dk.len()]);
            assert(cj[p] == dj[dj.len() - dk.len() - 1]);
            assert(is_ascii_digit(dj[dj.len() - dk.len() - 1]));
        }
    }
}

/// Numbered candidates are pairwise distinct: each ends in `-` and its own numeral.
proof fn lemma_candidates_distinct(safe_base: Seq<char>, j: nat, k: nat)
    requires
        2 <= j,
        2 <= k,
        j != k,
    ensures
        slug_candidate(safe_base, j) != slug_candidate(safe_base, k),
{
    let cj = slug_candidate(safe_base, j);
    let ck = slug_candidate(safe_base, k);
    assert(has_tail(cj, seq!['-'] + decimal(j)));
    assert(has_tail(ck, seq!['-'] + decimal(k)));
    lemma_numbered_tails_distinct(cj, ck, j, k);
}

spec fn has_tail(s: Seq<char>, t: Seq<char>) -> bool {
    t.len() <= s.len() && forall|i: int| 0 <= i < t.len() ==> s[s.len() - t.len() + i] == t[i]
}

/// Whether `taken` holds a string equal to `candidate`.
pub fn contains_chars(taken: &Vec<String>, candidate: &[char]) -> (r: bool)
    ensures
        r == taken@.map_values(|s: String| s@).contains(candidate@),
{
    let ghost views = taken@.map_values(|s: String| s@);
    let mut i: usize = 0;
    while i < taken.len()
        invariant
            i <= taken.len(),
            views == taken@.map_values(|s: String| s@),
            forall|j: int| 0 <= j < i ==> views[j] != candidate@,
        decreases taken.len() - i,
    {
        let other = chars_of(taken[i].as_str());
        if chars_eq(other.as_slice(), candidate) {
            assert(views[i as int] == candidate@);
            return true;
        }
        i += 1;
    }
    false
}

/// Produce a unique slug by appending numeric suffixes (`-2`, `-3`, ...) while
/// staying within `MAX_SLUG_LEN` bytes: the first candidate that `taken` does not hold.
pub fn unique_slug(base: &str, taken: &Vec<String>) -> (out: String)
    requires
        taken.len() + 2 < u32::MAX,
    ensures
        ({
            let safe = sanitize_slug_spec(base@, seq!['i', 't', 'e', 'm']);
            let views = taken@.map_values(|s: String| s@);
            exists|k: nat|
                #![trigger slug_candidate(safe, k)]
                1 <= k && out@ == slug_candidate(safe, k) && !views.contains(out@) && forall|
                    j: nat,
                |
                    #![trigger slug_candidate(safe, j)]
                    1 <= j < k ==> views.contains(slug_candidate(safe, j))
        }),
{
    let b = chars_of(base);
    let mut item: Vec<char> = Vec::new();
    item.push('i');
    item.push('t');
    item.push('e');
    item.push('m');
    let safe_base = sanitize_chars(b.as_slice(), item.as_slice());
    let ghost safe = safe_base@;
    assert(item@ =~= seq!['i', 't', 'e', 'm']);
    let ghost views = taken@.map_values(|s: String| s@);
    let mut candidate = safe_base.clone();
    assert(candidate@ == slug_candidate(safe, 1));
    if !contains_chars(taken, candidate.as_slice()) {
        return string_of(candidate.as_slice());
    }
    let mut suffix: u32 = 2;
    candidate = with_numeric_suffix(safe_base.as_slice(), suffix);
    while contains_chars(taken, candidate.as_slice())
        invariant
            2 <= suffix,
            suffix <= taken.len() + 2,
            taken.len() + 2 < u32::MAX,
            safe == safe_base@,
            views == taken@.map_values(|s: String| s@),
            candidate@ == slug_candidate(safe, suffix as nat),
            forall|j: nat|
                #![trigger slug_candidate(safe, j)]
                1 <= j < suffix ==> views.contains(slug_candidate(safe, j)),
        decreases taken.len() + 2 - suffix,
    {
        proof {
            lemma_taken_bound(safe, views, (suffix + 1) as nat);
        }
        suffix = suffix + 1;
        candidate = with_numeric_suffix(safe_base.as_slice(), suffix);
    }
    string_of(candidate.as_slice())
}

/// When candidates `1..n` are all taken, `taken` holds at least `n - 2` entries.
proof fn lemma_taken_bound(safe: Seq<char>, views: Seq<Seq<char>>, n: nat)
    requires
        n >= 2,
        forall|j: nat|
            #![trigger slug_candidate(safe, j)]
            1 <= j < n ==> views.contains(slug_candidate(safe, j)),
    ensures
        n - 2 <= views.len(),
{
    let x = set_int_range(2, n as int);
    let f = |k: int| slug_candidate(safe, k as nat);
    let y = x.map(f);
    lemma_int_range(2, n as int);
    assert forall|a: int, b: int| x.contains(a) && x.contains(b) && #[trigger] f(a) == #[trigger] f(
        b,
    ) implies a == b by {
        if a != b {
            lemma_candidates_distinct(safe, a as nat, b as nat);
        }
    }
    lemma_map_size(x, y, f);
    assert forall|s: Seq<char>| y.contains(s) implies views.to_set().contains(s) by {
        let k = choose|k: int| x.contains(k) && f(k) == s;
        assert(views.contains(slug_candidate(safe, k as nat)));
    }
    assert(y.subset_of(views.to_set()));
    lemma_len_subset(y, views.to_set());
    views.lemma_cardinality_of_set();
}

/* Plain numbered names */

/// The `k`-th name tried when a name is taken: the base itself, then `base-2`, `base-3`, ...
pub open spec fn numbered_name(base: Seq<char>, k: nat) -> Seq<char> {
    if k <= 1 {
        base
    } else {
        base + seq!['-'] + decimal(k)
    }
}

/// `out` is the first numbered name whose form with `ext` appended `taken` does not hold.
pub open spec fn first_free_name(base: Seq<char>, ext: Seq<char>, taken: Seq<Seq<char>>, out: Seq<char>) -> bool {
    exists|k: nat|
        #![trigger numbered_name(base, k)]
        1 <= k && out == numbered_name(base, k) && !taken.contains(out + ext) && forall|j: nat|
            #![trigger numbered_name(base, j)]
            1 <= j < k ==> taken.contains(numbered_name(base, j) + ext)
}

/// The first free numbered name (see `first_free_name`).
pub open spec fn first_free(base: Seq<char>, ext: Seq<char>, taken: Seq<Seq<char>>) -> Seq<char> {
    choose|out: Seq<char>| first_free_name(base, ext, taken, out)
}

/// At most one name is the first free one.
pub proof fn lemma_first_free_unique(base: Seq<char>, ext: Seq<char>, taken: Seq<Seq<char>>, x: Seq<char>, y: Seq<char>)
    requires
        first_free_name(base, ext, taken, x),
        first_free_name(base, ext, taken, y),
    ensures
        x == y,
{
    let kx = choose|k: nat|
        #![trigger numbered_name(base, k)]
        1 <= k && x == numbered_name(base, k) && !taken.contains(x + ext) && forall|j: nat|
            #![trigger numbered_name(base, j)]
            1 <= j < k ==> taken.contains(numbered_name(base, j) + ext);
    let ky = choose|k: nat|
        #![trigger numbered_name(base, k)]
        1 <= k && y == numbered_name(base, k) && !taken.contains(y + ext) && forall|j: nat|
            #![trigger numbered_name(base, j)]
            1 <= j < k ==> taken.contains(numbered_name(base, j) + ext);
    if kx < ky {
        assert(taken.contains(numbered_name(base, kx) + ext));
    } else if ky < kx {
        assert(taken.contains(numbered_name(base, ky) + ext));
    }
}

proof fn lemma_numbered_distinct(base: Seq<char>, ext: Seq<char>, j: nat, k: nat)
    requires
        2 <= j,
        2 <= k,
        j != k,
    ensures
        numbered_name(base, j) + ext != numbered_name(base, k) + ext,
{
    let cj = numbered_name(base, j);
    let ck = numbered_name(base, k);
    if cj + ext == ck + ext {
        assert((cj + ext).len() == (ck + ext).len());
        assert(cj =~= (cj + ext).take(cj.len() as int));
        assert(ck =~= (ck + ext).take(ck.len() as int));
        assert(has_tail(cj, seq!['-'] + decimal(j)));
        assert(has_tail(ck, seq!['-'] + decimal(k)));
        lemma_numbered_tails_distinct(cj, ck, j, k);
    }
}

/// When names `1..n` are all taken, `taken` holds at least `n - 2` entries.
proof fn lemma_numbered_taken_bound(base: Seq<char>, ext: Seq<char>, views: Seq<Seq<char>>, n: nat)
    requires
        n >= 2,
        forall|j: nat|
            #![trigger numbered_name(base, j)]
            1 <= j < n ==> views.contains(numbered_name(base, j) + ext),
    ensures
        n - 2 <= views.len(),
{
    let x = set_int_range(2, n as int);
    let f = |k: int| numbered_name(base, k as nat) + ext;
    let y = x.map(f);
    lemma_int_range(2, n as int);
    assert forall|a: int, b: int| x.contains(a) && x.contains(b) && #[trigger] f(a) == #[trigger] f(
        b,
    ) implies a == b by {
        if a != b {
            lemma_numbered_distinct(base, ext, a as nat, b as nat);
        }
    }
    lemma_map_size(x, y, f);
    assert forall|s: Seq<char>| y.contains(s) implies views.to_set().contains(s) by {
        let k = choose|k: int| x.contains(k) && f(k) == s;
        assert(views.contains(numbered_name(base, k as nat) + ext));
    }
    assert(y.subset_of(views.to_set()));
    lemma_len_subset(y, views.to_set());
    views.lemma_cardinality_of_set();
}

fn numbered_chars(base: &[char], k: u128) -> (out: Vec<char>)
    requires
        k >= 2,
    ensures
        out@ == numbered_name(base@, k as nat),
{
    let mut out: Vec<char> = Vec::new();
    append_chars(&mut out, base);
    out.push('-');
    let d = decimal_chars_wide(k);
    append_chars(&mut out, d.as_slice());
    out
}

/// The first of `base`, `base-2`, `base-3`, ... that, with `ext` appended, `taken` does not hold.
pub fn first_free_numbered(base: &[char], ext: &[char], taken: &Vec<String>) -> (out: Vec<char>)
    ensures
        first_free_name(base@, ext@, taken@.map_values(|s: String| s@), out@),
        out@ == first_free(base@, ext@, taken@.map_values(|s: String| s@)),
{
    let out = first_free_search(base, ext, taken);
    proof {
        let t = taken@.map_values(|s: String| s@);
        let c = first_free(base@, ext@, t);
        assert(first_free_name(base@, ext@, t, c));
        lemma_first_free_unique(base@, ext@, t, out@, c);
    }
    out
}

fn first_free_search(base: &[char], ext: &[char], taken: &Vec<String>) -> (out: Vec<char>)
    ensures
        first_free_name(base@, ext@, taken@.map_values(|s: String| s@), out@),
{
    let ghost views = taken@.map_values(|s: String| s@);
    let mut candidate: Vec<char> = Vec::new();
    append_chars(&mut candidate, base);
    let mut probe = candidate.clone();
    append_chars(&mut probe, ext);
    assert(candidate@ == numbered_name(base@, 1));
    if !contains_chars(taken, probe.as_slice()) {
        return candidate;
    }
    let mut suffix: u128 = 2;
    let count: usize = taken.len();
    assert(taken@.len() == count);
    candidate = numbered_chars(base, suffix);
    probe = candidate.clone();
    append_chars(&mut probe, ext);
    while contains_chars(taken, probe.as_slice())
        invariant
            2 <= suffix,
            suffix <= taken@.len() + 2,
            taken@.len() <= usize::MAX,
            views == taken@.map_values(|s: String| s@),
            candidate@ == numbered_name(base@, suffix as nat),
            probe@ == candidate@ + ext@,
            forall|j: nat|
                #![trigger numbered_name(base@, j)]
                1 <= j < suffix ==> views.contains(numbered_name(base@, j) + ext@),
        decreases taken@.len() + 2 - suffix,
    {
        proof {
            lemma_numbered_taken_bound(base@, ext@, views, (suffix + 1) as nat);
        }
        suffix = suffix + 1;
        candidate = numbered_chars(base, suffix);
        probe = candidate.clone();
        append_chars(&mut probe, ext);
    }
    candidate
}

proof fn lemma_first_free_search(base: Seq<char>, ext: Seq<char>, taken: Seq<Seq<char>>, k: nat)
    requires
        1 <= k <= taken.len() + 3,
        forall|j: nat| #![trigger numbered_name(base, j)] 1 <= j < k ==> taken.contains(numbered_name(base, j) + ext),
    ensures
        exists|out: Seq<char>| first_free_name(base, ext, taken, out),
    decreases taken.len() + 3 - k,
{
    if !taken.contains(numbered_name(base, k) + ext) {
        assert(first_free_name(base, ext, taken, numbered_name(base, k)));
    } else if k < taken.len() + 3 {
        lemma_first_free_search(base, ext, taken, k + 1);
    } else {
        lemma_numbered_taken_bound(base, ext, taken, k + 1);
    }
}

/// Some numbered name is always free: `first_free` is one.
pub proof fn lemma_first_free_exists(base: Seq<char>, ext: Seq<char>, taken: Seq<Seq<char>>)
    ensures
        first_free_name(base, ext, taken, first_free(base, ext, taken)),
{
    lemma_first_free_search(base, ext, taken, 1);
}

/// A numbered name is never shorter than its base, and adds only `-` and digits.
pub proof fn lemma_numbered_name_chars(base: Seq<char>, k: nat)
    ensures
        numbered_name(base, k).len() >= base.len(),
        forall|c: char| #[trigger] numbered_name(base, k).contains(c) ==> base.contains(c) || c == '-' || is_ascii_digit(c),
{
    if k >= 2 {
        let n = numbered_name(base, k);
        let d = decimal(k);
        lemma_decimal_digits(k);
        assert forall|c: char| #[trigger] n.contains(c) implies base.contains(c) || c == '-' || is_ascii_digit(c) by {
            let i = choose|i: int| 0 <= i < n.len() && n[i] == c;
            if i < base.len() {
                assert(base[i] == c);
            } else if i > base.len() {
                assert(d[i - base.len() - 1] == c);
            }
        }
    }
}

/* Slugs stay within the length limit */

proof fn lemma_byte_len_concat(a: Seq<char>, b: Seq<char>)
    ensures
        byte_len(a + b) == byte_len(a) + byte_len(b),
    decreases b.len(),
{
    if b.len() == 0 {
        assert(a + b =~= a);
    } else {
        lemma_byte_len_concat(a, b.drop_last());
        assert((a + b).drop_last() =~= a + b.drop_last());
        assert((a + b).last() == b.last());
    }
}

/// Characters below U+0080 take one byte each.
proof fn lemma_byte_len_ascii(s: Seq<char>)
    requires
        forall|i: int| 0 <= i < s.len() ==> (#[trigger] s[i] as u32) < 0x80,
    ensures
        byte_len(s) == s.len(),
    decreases s.len(),
{
    if s.len() > 0 {
        assert((s[s.len() - 1] as u32) < 0x80);
        lemma_byte_len_ascii(s.drop_last());
    }
}

proof fn lemma_hex_ascii(bytes: Seq<u8>)
    ensures
        forall|i: int| 0 <= i < hex(bytes).len() ==> (#[trigger] hex(bytes)[i] as u32) < 0x80,
{
    crate::hashing::lemma_hex_chars(bytes);
    assert forall|i: int| 0 <= i < hex(bytes).len() implies (#[trigger] hex(bytes)[i] as u32) < 0x80 by {
        assert('0' <= hex(bytes)[i] <= '9' || 'a' <= hex(bytes)[i] <= 'f');
    }
}

proof fn lemma_truncate_bytes_fits(v: Seq<char>, max: nat)
    ensures
        byte_len(truncate_bytes_spec(v, max)) <= max,
        exists|k: int| 0 <= k <= v.len() && truncate_bytes_spec(v, max) == v.take(k),
    decreases v.len(),
{
    if byte_len(v) <= max || v.len() == 0 {
        assert(v.take(v.len() as int) =~= v);
        if v.len() == 0 {
            assert(byte_len(v) == 0);
        }
    } else {
        lemma_truncate_bytes_fits(v.drop_last(), max);
        let k = choose|k: int| 0 <= k <= v.drop_last().len() && truncate_bytes_spec(v.drop_last(), max) == v.drop_last().take(k);
        assert(v.drop_last().take(k) =~= v.take(k));
    }
}

proof fn lemma_trim_end_char_prefix(s: Seq<char>, c: char)
    ensures
        exists|k: int| 0 <= k <= s.len() && trim_end_char(s, c) == s.take(k),
    decreases s.len(),
{
    if s.len() > 0 && s.last() == c {
        lemma_trim_end_char_prefix(s.drop_last(), c);
        let k = choose|k: int| 0 <= k <= s.drop_last().len() && trim_end_char(s.drop_last(), c) == s.drop_last().take(k);
        assert(s.drop_last().take(k) =~= s.take(k));
    } else {
        assert(s.take(s.len() as int) =~= s);
    }
}

proof fn lemma_prefix_bytes(s: Seq<char>, k: int)
    requires
        0 <= k <= s.len(),
    ensures
        byte_len(s.take(k)) <= byte_len(s),
{
    lemma_byte_len_monotone(s, k, s.len() as int);
    assert(s.take(s.len() as int) =~= s);
}

/// A value cut to `max` bytes by `truncate_with_hash` has at most `max` bytes.
pub proof fn lemma_truncate_with_hash_fits(value: Seq<char>, max: nat)
    ensures
        byte_len(truncate_with_hash_spec(value, max)) <= max,
{
    let r = truncate_with_hash_spec(value, max);
    if max == 0 {
        assert(r.len() == 0);
    } else if byte_len(value) <= max {
    } else {
        let hash = short_hash_of(value);
        lemma_hex_ascii(sha256_of(crate::hashing::utf8(value)).take(4));
        lemma_byte_len_ascii(hash);
        if hash.len() + 1 >= max {
            if max < hash.len() {
                assert forall|i: int| 0 <= i < hash.take(max as int).len() implies (#[trigger] hash.take(max as int)[i] as u32)
                    < 0x80 by {
                    assert(hash.take(max as int)[i] == hash[i]);
                }
                lemma_byte_len_ascii(hash.take(max as int));
            }
        } else {
            let keep = (max - hash.len() - 1) as nat;
            let t = truncate_bytes_spec(value, keep);
            lemma_truncate_bytes_fits(value, keep);
            lemma_trim_end_char_prefix(t, '-');
            let prefix = trim_end_char(t, '-');
            let k = choose|k: int| 0 <= k <= t.len() && trim_end_char(t, '-') == t.take(k);
            lemma_prefix_bytes(t, k);
            if prefix.len() > 0 {
                lemma_byte_len_concat(prefix, seq!['-']);
                lemma_byte_len_concat(prefix + seq!['-'], hash);
                lemma_byte_len_ascii(seq!['-']);
            }
        }
    }
}

/// A sanitized slug has at most `MAX_SLUG_LEN` bytes when its fallback does.
pub proof fn lemma_sanitized_slug_fits(slug: Seq<char>, fallback: Seq<char>)
    requires
        byte_len(lower(fallback)) <= MAX_SLUG_LEN,
    ensures
        byte_len(sanitize_slug_spec(slug, fallback)) <= MAX_SLUG_LEN,
{
    let c0 = lower(trim(slug));
    let c1 = if c0.len() == 0 { lower(fallback) } else { c0 };
    let c2 = truncate_with_hash_spec(c1, MAX_SLUG_LEN as nat);
    lemma_truncate_with_hash_fits(c1, MAX_SLUG_LEN as nat);
    lemma_truncate_with_hash_fits(with_item(c2), MAX_SLUG_LEN as nat);
}

/// `10^m`.
pub open spec fn pow10(m: nat) -> nat
    decreases m,
{
    if m == 0 {
        1
    } else {
        10 * pow10((m - 1) as nat)
    }
}

proof fn lemma_decimal_short(n: nat, m: nat)
    requires
        n < pow10(m),
        m >= 1,
    ensures
        decimal(n).len() <= m,
    decreases m,
{
    if n >= 10 {
        if m == 1 {
            assert(pow10(0) == 1);
        } else {
            assert(n / 10 < pow10((m - 1) as nat));
            lemma_decimal_short(n / 10, (m - 1) as nat);
        }
    }
}

/// No ASCII uppercase letter occurs in `s`.
pub open spec fn no_ascii_upper(s: Seq<char>) -> bool {
    forall|i: int| 0 <= i < s.len() ==> !('A' <= #[trigger] s[i] && s[i] <= 'Z')
}

proof fn lemma_lower_no_upper(s: Seq<char>)
    ensures
        no_ascii_upper(lower(s)),
        lower(s).len() == s.len(),
{
    assert forall|i: int| 0 <= i < lower(s).len() implies !('A' <= #[trigger] lower(s)[i] && lower(s)[i] <= 'Z') by {
        let c = s[i];
        if 'A' <= c && c <= 'Z' {
            assert(((c as u32) + 32) as char as u32 == (c as u32) + 32);
        }
    }
}

proof fn lemma_no_upper_drop_last(s: Seq<char>)
    requires
        no_ascii_upper(s),
        s.len() > 0,
    ensures
        no_ascii_upper(s.drop_last()),
{
    assert forall|i: int| 0 <= i < s.drop_last().len() implies !('A' <= #[trigger] s.drop_last()[i] && s.drop_last()[i] <= 'Z') by {
        assert(s.drop_last()[i] == s[i]);
    }
}

proof fn lemma_truncate_bytes_no_upper(v: Seq<char>, max: nat)
    requires
        no_ascii_upper(v),
    ensures
        no_ascii_upper(truncate_bytes_spec(v, max)),
    decreases v.len(),
{
    if !(byte_len(v) <= max || v.len() == 0) {
        lemma_no_upper_drop_last(v);
        lemma_truncate_bytes_no_upper(v.drop_last(), max);
    }
}

proof fn lemma_trim_end_char_no_upper(v: Seq<char>, c: char)
    requires
        no_ascii_upper(v),
    ensures
        no_ascii_upper(trim_end_char(v, c)),
    decreases v.len(),
{
    if v.len() > 0 && v.last() == c {
        lemma_no_upper_drop_last(v);
        lemma_trim_end_char_no_upper(v.drop_last(), c);
    }
}

proof fn lemma_short_hash_no_upper(v: Seq<char>)
    ensures
        no_ascii_upper(short_hash_of(v)),
{
    let b = sha256_of(crate::hashing::utf8(v)).take(4);
    lemma_hex_chars(b);
    assert forall|i: int| 0 <= i < hex(b).len() implies !('A' <= #[trigger] hex(b)[i] && hex(b)[i] <= 'Z') by {
        assert('0' <= hex(b)[i] <= '9' || 'a' <= hex(b)[i] <= 'f');
    }
}

proof fn lemma_truncate_with_hash_no_upper(value: Seq<char>, max: nat)
    requires
        no_ascii_upper(value),
    ensures
        no_ascii_upper(truncate_with_hash_spec(value, max)),
{
    let hash = short_hash_of(value);
    lemma_short_hash_no_upper(value);
    if max > 0 && byte_len(value) > max {
        if hash.len() + 1 >= max {
            if max < hash.len() {
                assert forall|i: int| 0 <= i < hash.take(max as int).len() implies !('A' <= #[trigger] hash.take(max as int)[i] && hash.take(max as int)[i] <= 'Z') by {
                    assert(hash.take(max as int)[i] == hash[i]);
                }
            }
        } else {
            let keep = (max - hash.len() - 1) as nat;
            lemma_truncate_bytes_no_upper(value, keep);
            let prefix = trim_end_char(truncate_bytes_spec(value, keep), '-');
            lemma_trim_end_char_no_upper(truncate_bytes_spec(value, keep), '-');
            let r = prefix + seq!['-'] + hash;
            assert forall|i: int| 0 <= i < r.len() implies !('A' <= #[trigger] r[i] && r[i] <= 'Z') by {
                if i < prefix.len() {
                    assert(r[i] == prefix[i]);
                } else if i == prefix.len() {
                    assert(r[i] == '-');
                } else {
                    assert(r[i] == hash[i - prefix.len() - 1]);
                }
            }
        }
    }
}

/// A sanitized slug is never empty when its fallback is not, and holds no
/// ASCII uppercase letter.
pub proof fn lemma_sanitized_slug_shape(slug: Seq<char>, fallback: Seq<char>)
    requires
        fallback.len() > 0,
    ensures
        sanitize_slug_spec(slug, fallback).len() > 0,
        no_ascii_upper(sanitize_slug_spec(slug, fallback)),
{
    let c0 = lower(trim(slug));
    let c1 = if c0.len() == 0 { lower(fallback) } else { c0 };
    let c2 = truncate_with_hash_spec(c1, MAX_SLUG_LEN as nat);
    let item = with_item(c2);
    lemma_lower_no_upper(trim(slug));
    lemma_lower_no_upper(fallback);
    lemma_truncate_with_hash_no_upper(c1, MAX_SLUG_LEN as nat);
    lemma_with_item_chars(c2);
    assert forall|i: int| 0 <= i < item.len() implies !('A' <= #[trigger] item[i] && item[i] <= 'Z') by {
        let d = dot_index(c2, 0);
        if i < d {
            assert(item[i] == c2[i]);
        } else if i >= d + 5 {
            assert(item[i] == c2[i - 5]);
        } else {
            assert(i == d || i == d + 1 || i == d + 2 || i == d + 3 || i == d + 4);
        }
    }
    lemma_truncate_with_hash_no_upper(item, MAX_SLUG_LEN as nat);
}

/// `s` is empty, or neither starts nor ends with whitespace.
pub open spec fn solid_edges(s: Seq<char>) -> bool {
    s.len() == 0 || (!is_whitespace(s[0]) && !is_whitespace(s[s.len() - 1]))
}

proof fn lemma_trim_start_solid(s: Seq<char>)
    ensures
        trim_start(s).len() == 0 || !is_whitespace(trim_start(s)[0]),
        trim_start(s).len() > 0 ==> !is_whitespace(s[s.len() - 1]) ==> trim_start(s).last() == s.last(),
    decreases s.len(),
{
    if s.len() > 0 && is_whitespace(s[0]) {
        lemma_trim_start_solid(s.drop_first());
    }
}

proof fn lemma_trim_end_solid(s: Seq<char>)
    ensures
        trim_end(s).len() == 0 || !is_whitespace(trim_end(s).last()),
        trim_end(s).len() > 0 ==> trim_end(s)[0] == s[0],
    decreases s.len(),
{
    if s.len() > 0 && is_whitespace(s.last()) {
        lemma_trim_end_solid(s.drop_last());
    }
}

proof fn lemma_trim_is_solid(s: Seq<char>)
    ensures
        solid_edges(trim(s)),
{
    lemma_trim_start_solid(s);
    lemma_trim_end_solid(trim_start(s));
}

proof fn lemma_solid_is_trimmed(s: Seq<char>)
    requires
        s.len() > 0,
        solid_edges(s),
    ensures
        trim(s) == s,
{
    assert(trim_start(s) == s);
    assert(s.last() == s[s.len() - 1]);
}

proof fn lemma_lower_solid(s: Seq<char>)
    requires
        solid_edges(s),
    ensures
        solid_edges(lower(s)),
{
    if s.len() > 0 {
        let c = s[0];
        if 'A' <= c && c <= 'Z' {
            assert(((c as u32) + 32) as char as u32 == (c as u32) + 32);
        }
        let d = s[s.len() - 1];
        if 'A' <= d && d <= 'Z' {
            assert(((d as u32) + 32) as char as u32 == (d as u32) + 32);
        }
    }
}

proof fn lemma_truncate_bytes_first(v: Seq<char>, max: nat)
    ensures
        truncate_bytes_spec(v, max).len() <= v.len(),
        truncate_bytes_spec(v, max).len() > 0 ==> truncate_bytes_spec(v, max)[0] == v[0],
    decreases v.len(),
{
    if !(byte_len(v) <= max || v.len() == 0) {
        lemma_truncate_bytes_first(v.drop_last(), max);
    }
}

proof fn lemma_trim_end_char_first(v: Seq<char>, c: char)
    ensures
        trim_end_char(v, c).len() > 0 ==> trim_end_char(v, c)[0] == v[0],
    decreases v.len(),
{
    if v.len() > 0 && v.last() == c {
        lemma_trim_end_char_first(v.drop_last(), c);
    }
}

proof fn lemma_short_hash_solid(v: Seq<char>)
    ensures
        forall|i: int| 0 <= i < short_hash_of(v).len() ==> !is_whitespace(#[trigger] short_hash_of(v)[i]),
{
    let b = sha256_of(crate::hashing::utf8(v)).take(4);
    lemma_hex_chars(b);
    assert forall|i: int| 0 <= i < hex(b).len() implies !is_whitespace(#[trigger] hex(b)[i]) by {
        assert('0' <= hex(b)[i] <= '9' || 'a' <= hex(b)[i] <= 'f');
    }
}

proof fn lemma_truncate_with_hash_solid(value: Seq<char>, max: nat)
    requires
        solid_edges(value),
    ensures
        solid_edges(truncate_with_hash_spec(value, max)),
{
    let hash = short_hash_of(value);
    lemma_short_hash_solid(value);
    if max > 0 && byte_len(value) > max {
        if hash.len() + 1 >= max {
            if max < hash.len() {
                let t = hash.take(max as int);
                if t.len() > 0 {
                    assert(t[0] == hash[0]);
                    assert(t[t.len() - 1] == hash[t.len() - 1]);
                }
            } else if hash.len() > 0 {
                assert(!is_whitespace(hash[0]));
                assert(!is_whitespace(hash[hash.len() - 1]));
            }
        } else {
            let keep = (max - hash.len() - 1) as nat;
            let cut = truncate_bytes_spec(value, keep);
            lemma_truncate_bytes_first(value, keep);
            lemma_trim_end_char_first(cut, '-');
            let prefix = trim_end_char(cut, '-');
            if prefix.len() > 0 {
                let r = prefix + seq!['-'] + hash;
                assert(r[0] == prefix[0]);
                if hash.len() > 0 {
                    assert(r[r.len() - 1] == hash[hash.len() - 1]);
                } else {
                    assert(r[r.len() - 1] == '-');
                }
            } else if hash.len() > 0 {
                assert(!is_whitespace(hash[0]));
                assert(!is_whitespace(hash[hash.len() - 1]));
            }
        }
    }
}

/// A sanitized slug neither starts nor ends with whitespace, when its fallback
/// does not.
pub proof fn lemma_sanitized_slug_trimmed(slug: Seq<char>, fallback: Seq<char>)
    requires
        fallback.len() > 0,
        trim(fallback) == fallback,
    ensures
        trim(sanitize_slug_spec(slug, fallback)) == sanitize_slug_spec(slug, fallback),
{
    lemma_sanitized_slug_shape(slug, fallback);
    lemma_trim_is_solid(slug);
    lemma_trim_is_solid(fallback);
    lemma_lower_solid(trim(slug));
    lemma_lower_solid(fallback);
    let c0 = lower(trim(slug));
    let c1 = if c0.len() == 0 { lower(fallback) } else { c0 };
    lemma_truncate_with_hash_solid(c1, MAX_SLUG_LEN as nat);
    let c2 = truncate_with_hash_spec(c1, MAX_SLUG_LEN as nat);
    let item = with_item(c2);
    lemma_with_item_chars(c2);
    let d = dot_index(c2, 0);
    if d > 0 {
        assert(item[0] == c2[0]);
    } else {
        assert(item[0] == '-');
    }
    if d < c2.len() {
        assert(item[item.len() - 1] == c2[c2.len() - 1]);
    } else {
        assert(item[item.len() - 1] == 'm');
    }
    lemma_truncate_with_hash_solid(item, MAX_SLUG_LEN as nat);
    lemma_solid_is_trimmed(sanitize_slug_spec(slug, fallback));
}

/// The characters of `with_item(name)`: the stem's, then `-item`, then the rest.
proof fn lemma_with_item_chars(name: Seq<char>)
    ensures
        0 <= dot_index(name, 0) <= name.len(),
        with_item(name).len() == name.len() + 5,
        forall|i: int| 0 <= i < dot_index(name, 0) ==> #[trigger] with_item(name)[i] == name[i],
        forall|i: int|
            dot_index(name, 0) + 5 <= i < name.len() + 5 ==> #[trigger] with_item(name)[i] == name[i - 5],
        with_item(name)[dot_index(name, 0)] == '-',
        with_item(name)[dot_index(name, 0) + 1] == 'i',
        with_item(name)[dot_index(name, 0) + 2] == 't',
        with_item(name)[dot_index(name, 0) + 3] == 'e',
        with_item(name)[dot_index(name, 0) + 4] == 'm',
{
    lemma_dot_index_facts(name, 0);
}

pub open spec fn hex_upper(c: char) -> bool {
    ('0' <= c && c <= '9') || ('A' <= c && c <= 'F')
}

/// A reserved stem is three or four letters and digits, with a letter outside
/// `A`-`F` among its first two.
proof fn lemma_reserved_chars(u: Seq<char>)
    requires
        is_reserved_stem(u),
    ensures
        u.len() == 3 || u.len() == 4,
        forall|i: int| 0 <= i < u.len() ==> #[trigger] u[i] != '-',
        !(hex_upper(u[0]) && hex_upper(u[1])),
{
    if u.len() == 4 {
        let h = u.take(3);
        assert(u[0] == h[0] && u[1] == h[1] && u[2] == h[2]);
    }
    assert forall|i: int| 0 <= i < u.len() implies #[trigger] u[i] != '-' by {
        if u.len() == 4 {
            let h = u.take(3);
            if i < 3 {
                assert(u[i] == h[i]);
                assert(i == 0 || i == 1 || i == 2);
            }
        } else {
            assert(i == 0 || i == 1 || i == 2);
        }
    }
}

/// A name whose stem holds a `-` is no reserved device name.
proof fn lemma_dash_not_reserved(x: Seq<char>, j: int)
    requires
        0 <= j < dot_index(x, 0),
        x[j] == '-',
    ensures
        !is_reserved_windows_name_spec(x),
{
    lemma_dot_index_facts(x, 0);
    let u = upper(stem(x));
    assert(u[j] == '-');
    if is_reserved_stem(u) {
        lemma_reserved_chars(u);
    }
}

/// A name of hex digits is no reserved device name.
proof fn lemma_hex_not_reserved(x: Seq<char>)
    requires
        forall|i: int| 0 <= i < x.len() ==> ('0' <= #[trigger] x[i] <= '9' || 'a' <= x[i] <= 'f'),
    ensures
        !is_reserved_windows_name_spec(x),
{
    lemma_dot_index_at(x, 0, x.len() as int);
    assert(stem(x) =~= x);
    let u = upper(x);
    if is_reserved_stem(u) {
        lemma_reserved_chars(u);
        let a = x[0];
        let b = x[1];
        if 'a' <= a && a <= 'f' {
            assert(((a as u32) - 32) as char as u32 == (a as u32) - 32);
        }
        if 'a' <= b && b <= 'f' {
            assert(((b as u32) - 32) as char as u32 == (b as u32) - 32);
        }
        assert(u[0] == ascii_upper(a) && u[1] == ascii_upper(b));
        assert(hex_upper(u[0]) && hex_upper(u[1]));
    }
}

proof fn lemma_truncate_bytes_prefix(v: Seq<char>, max: nat)
    ensures
        truncate_bytes_spec(v, max).len() <= v.len(),
        forall|i: int| 0 <= i < truncate_bytes_spec(v, max).len() ==> #[trigger] truncate_bytes_spec(v, max)[i] == v[i],
    decreases v.len(),
{
    if !(byte_len(v) <= max || v.len() == 0) {
        lemma_truncate_bytes_prefix(v.drop_last(), max);
    }
}

proof fn lemma_trim_end_char_keeps(v: Seq<char>, c: char)
    ensures
        trim_end_char(v, c).len() <= v.len(),
        forall|i: int| 0 <= i < trim_end_char(v, c).len() ==> #[trigger] trim_end_char(v, c)[i] == v[i],
    decreases v.len(),
{
    if v.len() > 0 && v.last() == c {
        lemma_trim_end_char_keeps(v.drop_last(), c);
    }
}

proof fn lemma_short_hash_hex(v: Seq<char>)
    ensures
        forall|i: int| 0 <= i < short_hash_of(v).len() ==> ('0' <= #[trigger] short_hash_of(v)[i] <= '9' || 'a'
            <= short_hash_of(v)[i] <= 'f'),
{
    lemma_hex_chars(sha256_of(crate::hashing::utf8(v)).take(4));
}

/// A reserved name marked with `-item` and cut to length is no reserved name.
proof fn lemma_marked_not_reserved(c2: Seq<char>)
    requires
        is_reserved_windows_name_spec(c2),
    ensures
        !is_reserved_windows_name_spec(truncate_with_hash_spec(with_item(c2), MAX_SLUG_LEN as nat)),
{
    let v = with_item(c2);
    let d = dot_index(c2, 0);
    lemma_dot_index_facts(c2, 0);
    lemma_with_item_chars(c2);
    assert forall|i: int| 0 <= i < d + 5 implies #[trigger] v[i] != '.' by {
        if i < d {
            assert(v[i] == c2[i]);
        }
    }
    lemma_dot_index_at(v, 0, d + 5);
    let hash = short_hash_of(v);
    lemma_short_hash_hex(v);
    let r = truncate_with_hash_spec(v, MAX_SLUG_LEN as nat);
    if byte_len(v) <= MAX_SLUG_LEN {
        lemma_dash_not_reserved(v, d);
    } else if hash.len() + 1 >= MAX_SLUG_LEN {
        if MAX_SLUG_LEN < hash.len() {
            assert forall|i: int| 0 <= i < r.len() implies ('0' <= #[trigger] r[i] <= '9' || 'a' <= r[i] <= 'f') by {
                assert(r[i] == hash[i]);
            }
        }
        lemma_hex_not_reserved(r);
    } else {
        let keep = (MAX_SLUG_LEN - hash.len() - 1) as nat;
        let cut = truncate_bytes_spec(v, keep);
        lemma_truncate_bytes_prefix(v, keep);
        lemma_trim_end_char_keeps(cut, '-');
        let prefix = trim_end_char(cut, '-');
        if prefix.len() == 0 {
            lemma_hex_not_reserved(r);
        } else {
            assert(r == prefix + seq!['-'] + hash);
            let j0 = if prefix.len() <= d { prefix.len() as int } else { d };
            assert forall|i: int| 0 <= i < j0 implies #[trigger] r[i] != '.' by {
                assert(r[i] == prefix[i]);
                assert(prefix[i] == cut[i]);
                assert(cut[i] == v[i]);
            }
            if prefix.len() <= d {
                assert(r[j0] == '-');
            } else {
                assert(r[j0] == prefix[j0]);
                assert(prefix[j0] == cut[j0]);
                assert(cut[j0] == v[j0]);
            }
            lemma_dot_index_facts(r, 0);
            if dot_index(r, 0) <= j0 {
                assert(r[dot_index(r, 0)] == '.' || dot_index(r, 0) == r.len());
            }
            lemma_dash_not_reserved(r, j0);
        }
    }
}

/// A fallback that can stand in for an empty slug: non-empty, within the
/// length once lowercased, and trimmed.
pub open spec fn safe_fallback(fallback: Seq<char>) -> bool {
    &&& fallback.len() > 0
    &&& byte_len(lower(fallback)) <= MAX_SLUG_LEN
    &&& trim(fallback) == fallback
}

/// A name safe as a Windows and macOS path component: not a reserved device
/// name, non-empty, at most `MAX_SLUG_LEN` bytes, trimmed, without ASCII
/// uppercase letters.
pub open spec fn safe_slug(name: Seq<char>) -> bool {
    &&& !is_reserved_windows_name_spec(name)
    &&& name.len() > 0
    &&& byte_len(name) <= MAX_SLUG_LEN
    &&& trim(name) == name
    &&& no_ascii_upper(name)
}

/// A sanitized slug is safe as a path component when its fallback is a
/// non-empty, trimmed name within the length and the slug was not left empty.
proof fn lemma_sanitized_slug_safe(slug: Seq<char>, fallback: Seq<char>)
    requires
        safe_fallback(fallback),
        sanitized_candidate(slug, fallback).len() > 0,
    ensures
        safe_slug(sanitize_slug_spec(slug, fallback)),
{
    lemma_sanitized_slug_fits(slug, fallback);
    lemma_sanitized_slug_shape(slug, fallback);
    lemma_sanitized_slug_trimmed(slug, fallback);
    let c0 = lower(trim(slug));
    let c1 = if c0.len() == 0 { lower(fallback) } else { c0 };
    let c2 = truncate_with_hash_spec(c1, MAX_SLUG_LEN as nat);
    if is_reserved_windows_name_spec(c2) {
        lemma_marked_not_reserved(c2);
    }
}

/// Every name `unique_slug` may return has at most `MAX_SLUG_LEN` bytes: the
/// sanitized base, or that base cut to make room for a `-N` suffix.
pub proof fn lemma_unique_slug_fits(base: Seq<char>, k: nat)
    requires
        k <= u32::MAX,
    ensures
        byte_len(slug_candidate(sanitize_slug_spec(base, seq!['i', 't', 'e', 'm']), k)) <= MAX_SLUG_LEN,
{
    let item = seq!['i', 't', 'e', 'm'];
    assert(lower(item) =~= item);
    lemma_byte_len_ascii(item);
    lemma_sanitized_slug_fits(base, item);
    let safe = sanitize_slug_spec(base, item);
    if k >= 2 {
        assert(pow10(10) == 10000000000) by {
            reveal_with_fuel(pow10, 11);
        }
        lemma_decimal_short(k, 10);
        let suffix_text = seq!['-'] + decimal(k);
        lemma_decimal_digits(k);
        assert forall|i: int| 0 <= i < suffix_text.len() implies (#[trigger] suffix_text[i] as u32) < 0x80 by {
            if i > 0 {
                assert(is_ascii_digit(decimal(k)[i - 1]));
            }
        }
        lemma_byte_len_ascii(suffix_text);
        let max_base = (MAX_SLUG_LEN - suffix_text.len()) as nat;
        lemma_truncate_with_hash_fits(safe, max_base);
        lemma_byte_len_concat(truncate_with_hash_spec(safe, max_base), suffix_text);
    }
}

} // verus!
