//! Course sources: pasted Markdown, and links to supported repository hosts
//! rewritten to the URL of their raw Markdown.
use vstd::prelude::*;

use crate::hashing::{content_hash_chars, content_hash_of};
use crate::text::{
    append_chars, chars_eq, chars_of, ends_with, has_suffix, join, join_chars, lower, slice_chars,
    string_of, to_ascii_lowercase,
};
use crate::urls::{parse_url, parsed_url_of, strings_view, url_view, UrlView};

verus! {

/// Where a course came from.
#[derive(Debug, Clone, Copy, PartialEq, Eq)]
pub enum SourceType {
    Github,
    Gitlab,
    Codeberg,
    Pasted,
}

/// Provenance of a course snapshot.
#[derive(Debug, Clone, PartialEq, Eq)]
pub struct CourseSource {
    pub source_type: SourceType,
    pub origin_url: Option<String>,
    pub content_hash: String,
    pub imported_at: String,
}

/// Markdown ready to be written to the vault, with its provenance.
#[derive(Debug, Clone, PartialEq, Eq)]
pub struct FetchedMarkdown {
    pub content: String,
    pub title_hint: Option<String>,
    pub source: CourseSource,
}

/// How a source link is fetched.
#[derive(Debug, Clone, PartialEq, Eq)]
pub enum LinkResolution {
    /// The raw Markdown is at `raw_url`.
    Raw { source_type: SourceType, origin_url: String, raw_url: String },
    /// A bare GitHub repository: its default branch's `README.md` is fetched.
    GithubBareRepo { owner: String, repo: String, origin_url: String },
}

/// Why a source link is rejected.
#[derive(Debug, Clone, PartialEq, Eq)]
pub enum LinkError {
    InvalidUrl(String),
    MissingHost,
    UnsupportedHost(String),
    GithubMissingRepository,
    GithubUnsupported,
    GitlabMissingRepository,
    GitlabUnsupported,
    CodebergMissingRepository,
    CodebergUnsupported,
}

pub enum ResolutionView {
    Raw { source_type: SourceType, origin_url: Seq<char>, raw_url: Seq<char> },
    GithubBareRepo { owner: Seq<char>, repo: Seq<char>, origin_url: Seq<char> },
}

pub enum LinkErrorView {
    InvalidUrl(Seq<char>),
    MissingHost,
    UnsupportedHost(Seq<char>),
    GithubMissingRepository,
    GithubUnsupported,
    GitlabMissingRepository,
    GitlabUnsupported,
    CodebergMissingRepository,
    CodebergUnsupported,
}

impl View for LinkResolution {
    type V = ResolutionView;

    open spec fn view(&self) -> ResolutionView {
        match self {
            LinkResolution::Raw { source_type, origin_url, raw_url } => ResolutionView::Raw {
                source_type: *source_type,
                origin_url: origin_url@,
                raw_url: raw_url@,
            },
            LinkResolution::GithubBareRepo { owner, repo, origin_url } => ResolutionView::GithubBareRepo {
                owner: owner@,
                repo: repo@,
                origin_url: origin_url@,
            },
        }
    }
}

impl View for LinkError {
    type V = LinkErrorView;

    open spec fn view(&self) -> LinkErrorView {
        match self {
            LinkError::InvalidUrl(u) => LinkErrorView::InvalidUrl(u@),
            LinkError::MissingHost => LinkErrorView::MissingHost,
            LinkError::UnsupportedHost(h) => LinkErrorView::UnsupportedHost(h@),
            LinkError::GithubMissingRepository => LinkErrorView::GithubMissingRepository,
            LinkError::GithubUnsupported => LinkErrorView::GithubUnsupported,
            LinkError::GitlabMissingRepository => LinkErrorView::GitlabMissingRepository,
            LinkError::GitlabUnsupported => LinkErrorView::GitlabUnsupported,
            LinkError::CodebergMissingRepository => LinkErrorView::CodebergMissingRepository,
            LinkError::CodebergUnsupported => LinkErrorView::CodebergUnsupported,
        }
    }
}

pub open spec fn resolution_result_view(r: Result<LinkResolution, LinkError>) -> Result<
    ResolutionView,
    LinkErrorView,
> {
    match r {
        Ok(v) => Ok(v@),
        Err(e) => Err(e@),
    }
}

/// The message a rejected link is reported with.
pub open spec fn link_error_message(e: LinkErrorView) -> Seq<char> {
    match e {
        LinkErrorView::InvalidUrl(u) => "invalid source URL: "@ + u,
        LinkErrorView::MissingHost => "source URL must include a host"@,
        LinkErrorView::UnsupportedHost(h) => "unsupported source host: "@ + h,
        LinkErrorView::GithubMissingRepository => "GitHub URL must include an owner and repository"@,
        LinkErrorView::GithubUnsupported => "unsupported GitHub URL; use a repo URL or /blob/<branch>/<path> link"@,
        LinkErrorView::GitlabMissingRepository => "GitLab URL must include a namespace and repository"@,
        LinkErrorView::GitlabUnsupported => "unsupported GitLab URL; use a /-/blob/<branch>/<path> link"@,
        LinkErrorView::CodebergMissingRepository => "Codeberg URL must include an owner and repository"@,
        LinkErrorView::CodebergUnsupported => "unsupported Codeberg URL; use a /src/branch/<branch>/<path> link"@,
    }
}

impl LinkError {
    /// The human-readable message of the error.
    pub fn message(&self) -> (m: String)
        ensures
            m@ == link_error_message(self@),
    {
        let text = match self {
            LinkError::InvalidUrl(u) => {
                let mut t = chars_of("invalid source URL: ");
                let uc = chars_of(u.as_str());
                append_chars(&mut t, uc.as_slice());
                t
            },
            LinkError::MissingHost => chars_of("source URL must include a host"),
            LinkError::UnsupportedHost(h) => {
                let mut t = chars_of("unsupported source host: ");
                let hc = chars_of(h.as_str());
                append_chars(&mut t, hc.as_slice());
                t
            },
            LinkError::GithubMissingRepository => chars_of(
                "GitHub URL must include an owner and repository",
            ),
            LinkError::GithubUnsupported => chars_of(
                "unsupported GitHub URL; use a repo URL or /blob/<branch>/<path> link",
            ),
            LinkError::GitlabMissingRepository => chars_of(
                "GitLab URL must include a namespace and repository",
            ),
            LinkError::GitlabUnsupported => chars_of(
                "unsupported GitLab URL; use a /-/blob/<branch>/<path> link",
            ),
            LinkError::CodebergMissingRepository => chars_of(
                "Codeberg URL must include an owner and repository",
            ),
            LinkError::CodebergUnsupported => chars_of(
                "unsupported Codeberg URL; use a /src/branch/<branch>/<path> link",
            ),
        };
        string_of(text.as_slice())
    }
}

/* Content hashing and pasted sources */

/// `sha256:` followed by the lowercase hex SHA-256 of the content's UTF-8 bytes.
pub fn content_hash(content: &str) -> (hash: String)
    ensures
        hash@ == content_hash_of(content@),
{
    let h = content_hash_chars(content);
    string_of(h.as_slice())
}

pub open spec fn is_digit_char(c: char) -> bool {
    '0' <= c <= '9'
}

/// The shape of a UTC RFC 3339 timestamp with whole seconds and a `Z` suffix:
/// `…-MM-DDTHH:MM:SSZ` after the year (the year's width is not fixed).
pub open spec fn utc_timestamp_shape(s: Seq<char>) -> bool {
    let n = s.len() as int;
    &&& n >= 20
    &&& s[n - 16] == '-' && is_digit_char(s[n - 15]) && is_digit_char(s[n - 14])
    &&& s[n - 13] == '-' && is_digit_char(s[n - 12]) && is_digit_char(s[n - 11])
    &&& s[n - 10] == 'T' && is_digit_char(s[n - 9]) && is_digit_char(s[n - 8])
    &&& s[n - 7] == ':' && is_digit_char(s[n - 6]) && is_digit_char(s[n - 5])
    &&& s[n - 4] == ':' && is_digit_char(s[n - 3]) && is_digit_char(s[n - 2])
    &&& s[n - 1] == 'Z'
}

/// The current time as `chrono` writes it in RFC 3339 with whole seconds and
/// `Z` (the clock's seconds since the Unix epoch, through
/// `std::time::SystemTime::now().duration_since(UNIX_EPOCH)`,
/// `chrono::DateTime::from_timestamp` and `to_rfc3339_opts(SecondsFormat::Secs, true)`);
/// `None` when the clock reads before the epoch or past what chrono represents.
/// It reads the clock, so the instant is not stated; trusted: a stamp it gives
/// has the shape chrono writes (month, day, hours, minutes and seconds as two
/// digits each, after a year of at least four characters, and `Z` for UTC).
#[verifier::external_body]
fn clock_stamp() -> (stamp: Option<String>)
    ensures
        stamp matches Some(s) ==> utc_timestamp_shape(s@),
{
    let elapsed = std::time::SystemTime::now().duration_since(std::time::UNIX_EPOCH).ok()?;
    let stamp = chrono::DateTime::from_timestamp(i64::try_from(elapsed.as_secs()).ok()?, 0)?;
    Some(stamp.to_rfc3339_opts(chrono::SecondsFormat::Secs, true))
}

/// The time a course is imported or a section completed: the clock's stamp,
/// or the Unix epoch when the clock gives none.
pub(crate) fn imported_at_now() -> (stamp: String)
    ensures
        utc_timestamp_shape(stamp@),
{
    match clock_stamp() {
        Some(s) => s,
        None => {
            let e = string_of(chars_of("1970-01-01T00:00:00Z").as_slice());
            proof {
                reveal_strlit("1970-01-01T00:00:00Z");
            }
            e
        },
    }
}

/// A pasted course: its content, title hint and a `Pasted` provenance with the
/// content hash and the current time (the Unix epoch when the clock gives none).
pub fn fetched_from_paste(content: String, title_hint: Option<String>) -> (fetched: FetchedMarkdown)
    ensures
        fetched.content@ == content@,
        fetched.title_hint == title_hint,
        fetched.source.source_type == SourceType::Pasted,
        fetched.source.origin_url.is_none(),
        fetched.source.content_hash@ == content_hash_of(content@),
        utc_timestamp_shape(fetched.source.imported_at@),
{
    let hash = content_hash(content.as_str());
    FetchedMarkdown {
        source: CourseSource {
            source_type: SourceType::Pasted,
            origin_url: None,
            content_hash: hash,
            imported_at: imported_at_now(),
        },
        content,
        title_hint,
    }
}

/// Markdown fetched from a source link: the body, and a provenance of the
/// given type and origin with the content hash and the current time (the Unix
/// epoch when the clock gives none).
pub fn fetched_from_link(content: String, source_type: SourceType, origin_url: String) -> (fetched:
    FetchedMarkdown)
    ensures
        fetched.content@ == content@,
        fetched.title_hint.is_none(),
        fetched.source.source_type == source_type,
        fetched.source.origin_url == Some(origin_url),
        fetched.source.content_hash@ == content_hash_of(content@),
        utc_timestamp_shape(fetched.source.imported_at@),
{
    let hash = content_hash(content.as_str());
    FetchedMarkdown {
        source: CourseSource {
            source_type,
            origin_url: Some(origin_url),
            content_hash: hash,
            imported_at: imported_at_now(),
        },
        content,
        title_hint: None,
    }
}

/// The raw URL of a GitHub repository's `README.md` on the given branch.
pub open spec fn github_readme_url_spec(owner: Seq<char>, repo: Seq<char>, branch: Seq<char>) -> Seq<
    char,
> {
    "https://raw.githubusercontent.com/"@ + owner + seq!['/'] + repo + seq!['/'] + branch
        + "/README.md"@
}

/// `https://raw.githubusercontent.com/{owner}/{repo}/{branch}/README.md`.
pub fn github_readme_url(owner: &str, repo: &str, branch: &str) -> (url: String)
    ensures
        url@ == github_readme_url_spec(owner@, repo@, branch@),
{
    let mut out = chars_of("https://raw.githubusercontent.com/");
    append_chars(&mut out, chars_of(owner).as_slice());
    out.push('/');
    append_chars(&mut out, chars_of(repo).as_slice());
    out.push('/');
    append_chars(&mut out, chars_of(branch).as_slice());
    append_chars(&mut out, chars_of("/README.md").as_slice());
    string_of(out.as_slice())
}

/* Link resolution */

/// The non-empty parts, in order.
pub open spec fn nonempty_parts(s: Seq<Seq<char>>) -> Seq<Seq<char>>
    decreases s.len(),
{
    if s.len() == 0 {
        s
    } else {
        let before = nonempty_parts(s.drop_last());
        if s.last().len() > 0 {
            before.push(s.last())
        } else {
            before
        }
    }
}

/// `repo.strip_suffix(".git").unwrap_or(repo)`.
pub open spec fn strip_git_suffix_spec(repo: Seq<char>) -> Seq<char> {
    if has_suffix(repo, ".git"@) {
        repo.take(repo.len() - ".git"@.len())
    } else {
        repo
    }
}

/// `parts.join("/")`.
pub open spec fn slash_join(parts: Seq<Seq<char>>) -> Seq<char> {
    join(parts, seq!['/'])
}

pub open spec fn github_raw_url(owner: Seq<char>, repo: Seq<char>, segs: Seq<Seq<char>>) -> Seq<char> {
    "https://raw.githubusercontent.com/"@ + owner + seq!['/'] + repo + seq!['/'] + segs[3] + seq!['/']
        + slash_join(segs.skip(4))
}

pub open spec fn resolve_github_spec(origin: Seq<char>, segs: Seq<Seq<char>>) -> Result<
    ResolutionView,
    LinkErrorView,
> {
    if segs.len() < 2 {
        Err(LinkErrorView::GithubMissingRepository)
    } else {
        let owner = segs[0];
        let repo = strip_git_suffix_spec(segs[1]);
        if segs.len() == 2 {
            Ok(ResolutionView::GithubBareRepo { owner, repo, origin_url: origin })
        } else if (segs[2] == "blob"@ || segs[2] == "raw"@) && segs.len() >= 5 {
            Ok(
                ResolutionView::Raw {
                    source_type: SourceType::Github,
                    origin_url: origin,
                    raw_url: github_raw_url(owner, repo, segs),
                },
            )
        } else {
            Err(LinkErrorView::GithubUnsupported)
        }
    }
}

/// The first index of `target` in `s`, from `j` on, or -1.
pub open spec fn position_from(s: Seq<Seq<char>>, target: Seq<char>, j: int) -> int
    decreases s.len() - j,
{
    if j < 0 || j >= s.len() {
        -1
    } else if s[j] == target {
        j
    } else {
        position_from(s, target, j + 1)
    }
}

pub open spec fn host_or(url: UrlView, default: Seq<char>) -> Seq<char> {
    match url.host {
        Some(h) => h,
        None => default,
    }
}

pub open spec fn resolve_gitlab_spec(origin: Seq<char>, url: UrlView, segs: Seq<Seq<char>>) -> Result<
    ResolutionView,
    LinkErrorView,
> {
    let marker = position_from(segs, seq!['-'], 0);
    if marker < 0 {
        Err(LinkErrorView::GitlabUnsupported)
    } else if marker < 2 {
        Err(LinkErrorView::GitlabMissingRepository)
    } else if marker + 1 < segs.len() && segs[marker + 1] == "blob"@ && segs.len() >= marker + 4 {
        Ok(
            ResolutionView::Raw {
                source_type: SourceType::Gitlab,
                origin_url: origin,
                raw_url: url.scheme + "://"@ + host_or(url, "gitlab.com"@) + seq!['/'] + slash_join(
                    segs.take(marker),
                ) + "/-/raw/"@ + segs[marker + 2] + seq!['/'] + slash_join(segs.skip(marker + 3)),
            },
        )
    } else if marker + 1 < segs.len() && segs[marker + 1] == "raw"@ && segs.len() >= marker + 4 {
        Ok(ResolutionView::Raw { source_type: SourceType::Gitlab, origin_url: origin, raw_url: origin })
    } else {
        Err(LinkErrorView::GitlabUnsupported)
    }
}

pub open spec fn resolve_codeberg_spec(origin: Seq<char>, url: UrlView, segs: Seq<Seq<char>>) -> Result<
    ResolutionView,
    LinkErrorView,
> {
    if segs.len() < 2 {
        Err(LinkErrorView::CodebergMissingRepository)
    } else {
        let owner = segs[0];
        let repo = strip_git_suffix_spec(segs[1]);
        if segs.len() >= 6 && segs[2] == "src"@ && segs[3] == "branch"@ {
            Ok(
                ResolutionView::Raw {
                    source_type: SourceType::Codeberg,
                    origin_url: origin,
                    raw_url: url.scheme + "://"@ + host_or(url, "codeberg.org"@) + seq!['/'] + owner
                        + seq!['/'] + repo + "/raw/branch/"@ + segs[4] + seq!['/'] + slash_join(
                        segs.skip(5),
                    ),
                },
            )
        } else if segs.len() >= 6 && segs[2] == "raw"@ && segs[3] == "branch"@ {
            Ok(
                ResolutionView::Raw {
                    source_type: SourceType::Codeberg,
                    origin_url: origin,
                    raw_url: origin,
                },
            )
        } else {
            Err(LinkErrorView::CodebergUnsupported)
        }
    }
}

/// The non-empty path segments of a parsed URL.
pub open spec fn url_segments(url: UrlView) -> Seq<Seq<char>> {
    match url.segments {
        Some(s) => nonempty_parts(s),
        None => Seq::empty(),
    }
}

/// `resolve_link`: which host a source URL belongs to and where its raw Markdown is.
pub open spec fn resolve_link_spec(origin: Seq<char>) -> Result<ResolutionView, LinkErrorView> {
    match parsed_url_of(origin) {
        Err(_) => Err(LinkErrorView::InvalidUrl(origin)),
        Ok(url) => match url.host {
            None => Err(LinkErrorView::MissingHost),
            Some(h) => {
                let host = lower(h);
                let segs = url_segments(url);
                if host == "github.com"@ || host == "www.github.com"@ {
                    resolve_github_spec(origin, segs)
                } else if host == "gitlab.com"@ || host == "www.gitlab.com"@ {
                    resolve_gitlab_spec(origin, url, segs)
                } else if host == "codeberg.org"@ || host == "www.codeberg.org"@ {
                    resolve_codeberg_spec(origin, url, segs)
                } else {
                    Err(LinkErrorView::UnsupportedHost(host))
                }
            },
        },
    }
}

/// GitHub file links: a `raw` link (`github.com/{owner}/{repo}/raw/{branch}/{path}`)
/// and the same link with `blob` in place of `raw` both resolve to the raw file
/// `https://raw.githubusercontent.com/{owner}/{repo}/{branch}/{path}` (a
/// trailing `.git` dropped from the repository), each keeping its own link as
/// the origin.
pub proof fn lemma_github_raw_and_blob_links_agree(
    blob_link: Seq<char>,
    raw_link: Seq<char>,
    blob_url: UrlView,
    raw_url: UrlView,
)
    requires
        parsed_url_of(blob_link) == Ok::<UrlView, Seq<char>>(blob_url),
        parsed_url_of(raw_link) == Ok::<UrlView, Seq<char>>(raw_url),
        blob_url.host matches Some(h) && (lower(h) == "github.com"@ || lower(h) == "www.github.com"@),
        raw_url.host matches Some(h) && (lower(h) == "github.com"@ || lower(h) == "www.github.com"@),
        url_segments(raw_url).len() >= 5,
        url_segments(blob_url).len() == url_segments(raw_url).len(),
        url_segments(blob_url)[2] == "blob"@,
        url_segments(raw_url)[2] == "raw"@,
        forall|j: int|
            0 <= j < url_segments(raw_url).len() && j != 2 ==> #[trigger] url_segments(raw_url)[j] == url_segments(
                blob_url,
            )[j],
    ensures
        ({
            let segs = url_segments(raw_url);
            let file = "https://raw.githubusercontent.com/"@ + segs[0] + seq!['/'] + strip_git_suffix_spec(segs[1])
                + seq!['/'] + segs[3] + seq!['/'] + slash_join(segs.skip(4));
            &&& resolve_link_spec(raw_link) == Ok::<ResolutionView, LinkErrorView>(
                ResolutionView::Raw { source_type: SourceType::Github, origin_url: raw_link, raw_url: file },
            )
            &&& resolve_link_spec(blob_link) == Ok::<ResolutionView, LinkErrorView>(
                ResolutionView::Raw { source_type: SourceType::Github, origin_url: blob_link, raw_url: file },
            )
        }),
{
    let sr = url_segments(raw_url);
    let sb = url_segments(blob_url);
    assert(sb[0] == sr[0]);
    assert(sb[1] == sr[1]);
    assert(sb[3] == sr[3]);
    assert(sb.skip(4) =~= sr.skip(4)) by {
        assert forall|j: int| 0 <= j < sb.len() - 4 implies sb.skip(4)[j] == sr.skip(4)[j] by {
            assert(sr[j + 4] == sb[j + 4]);
        }
    }
}

spec fn parts_view(v: Seq<Vec<char>>) -> Seq<Seq<char>> {
    v.map_values(|p: Vec<char>| p@)
}

/// Whether `s` equals the string literal `lit`.
fn is_lit(s: &[char], lit: &str) -> (r: bool)
    ensures
        r == (s@ == lit@),
{
    let l = chars_of(lit);
    chars_eq(s, l.as_slice())
}

/// The non-empty path segments.
fn nonempty_segments(segments: &Option<Vec<String>>) -> (out: Vec<Vec<char>>)
    ensures
        parts_view(out@) == match segments {
            Some(s) => nonempty_parts(strings_view(s@)),
            None => Seq::empty(),
        },
{
    let mut out: Vec<Vec<char>> = Vec::new();
    match segments {
        None => {
            assert(parts_view(out@) =~= Seq::<Seq<char>>::empty());
        },
        Some(segs) => {
            let ghost sv = strings_view(segs@);
            let mut i: usize = 0;
            assert(parts_view(out@) =~= nonempty_parts(sv.take(0)));
            while i < segs.len()
                invariant
                    i <= segs@.len(),
                    sv == strings_view(segs@),
                    parts_view(out@) == nonempty_parts(sv.take(i as int)),
                decreases segs@.len() - i,
            {
                let seg = chars_of(segs[i].as_str());
                assert(sv.take(i + 1).drop_last() =~= sv.take(i as int));
                if seg.len() > 0 {
                    out.push(seg);
                }
                i += 1;
                assert(parts_view(out@) =~= nonempty_parts(sv.take(i as int)));
            }
            assert(sv.take(segs@.len() as int) =~= sv);
        },
    }
    out
}

fn strip_git_suffix(repo: &[char]) -> (out: Vec<char>)
    ensures
        out@ == strip_git_suffix_spec(repo@),
{
    let suffix = chars_of(".git");
    if ends_with(repo, suffix.as_slice()) {
        slice_chars(repo, 0, repo.len() - suffix.len())
    } else {
        let all = slice_chars(repo, 0, repo.len());
        assert(all@ =~= repo@);
        all
    }
}

/// The parts `v[from..]`.
fn parts_from(v: &Vec<Vec<char>>, from: usize) -> (out: Vec<Vec<char>>)
    requires
        from <= v@.len(),
    ensures
        parts_view(out@) == parts_view(v@).skip(from as int),
{
    let mut out: Vec<Vec<char>> = Vec::new();
    let mut i = from;
    while i < v.len()
        invariant
            from <= i <= v@.len(),
            parts_view(out@) == parts_view(v@).subrange(from as int, i as int),
        decreases v@.len() - i,
    {
        let c = v[i].clone();
        assert(c@ == v@[i as int]@);
        let ghost before = out@;
        out.push(c);
        assert(out@ == before.push(c));
        assert(parts_view(out@) =~= parts_view(before).push(c@));
        i += 1;
        assert(parts_view(out@) =~= parts_view(v@).subrange(from as int, i as int));
    }
    out
}

/// The parts `v[..to]`.
fn parts_to(v: &Vec<Vec<char>>, to: usize) -> (out: Vec<Vec<char>>)
    requires
        to <= v@.len(),
    ensures
        parts_view(out@) == parts_view(v@).take(to as int),
{
    let mut out: Vec<Vec<char>> = Vec::new();
    let mut i: usize = 0;
    while i < to
        invariant
            i <= to <= v@.len(),
            parts_view(out@) == parts_view(v@).take(i as int),
        decreases to - i,
    {
        let c = v[i].clone();
        assert(c@ == v@[i as int]@);
        let ghost before = out@;
        out.push(c);
        assert(out@ == before.push(c));
        assert(parts_view(out@) =~= parts_view(before).push(c@));
        i += 1;
        assert(parts_view(out@) =~= parts_view(v@).take(i as int));
    }
    out
}

fn slash_join_exec(parts: &Vec<Vec<char>>) -> (out: Vec<char>)
    ensures
        out@ == slash_join(parts_view(parts@)),
{
    let mut sep: Vec<char> = Vec::new();
    sep.push('/');
    assert(sep@ =~= seq!['/']);
    join_chars(parts, sep.as_slice())
}

fn resolve_github(origin: &str, segs: &Vec<Vec<char>>) -> (r: Result<LinkResolution, LinkError>)
    ensures
        resolution_result_view(r) == resolve_github_spec(origin@, parts_view(segs@)),
{
    let ghost sv = parts_view(segs@);
    if segs.len() < 2 {
        return Err(LinkError::GithubMissingRepository);
    }
    let owner = &segs[0];
    let repo = strip_git_suffix(segs[1].as_slice());
    if segs.len() == 2 {
        return Ok(
            LinkResolution::GithubBareRepo {
                owner: string_of(owner.as_slice()),
                repo: string_of(repo.as_slice()),
                origin_url: string_of(chars_of(origin).as_slice()),
            },
        );
    }
    let kind_ok = is_lit(segs[2].as_slice(), "blob") || is_lit(segs[2].as_slice(), "raw");
    if kind_ok && segs.len() >= 5 {
        let mut raw = chars_of("https://raw.githubusercontent.com/");
        append_chars(&mut raw, owner.as_slice());
        raw.push('/');
        append_chars(&mut raw, repo.as_slice());
        raw.push('/');
        append_chars(&mut raw, segs[3].as_slice());
        raw.push('/');
        let rest = parts_from(segs, 4);
        let path = slash_join_exec(&rest);
        append_chars(&mut raw, path.as_slice());
        assert(raw@ =~= github_raw_url(sv[0], strip_git_suffix_spec(sv[1]), sv));
        return Ok(
            LinkResolution::Raw {
                source_type: SourceType::Github,
                origin_url: string_of(chars_of(origin).as_slice()),
                raw_url: string_of(raw.as_slice()),
            },
        );
    }
    Err(LinkError::GithubUnsupported)
}

fn scheme_and_host(url: &crate::urls::UrlParts, default_host: &str) -> (out: Vec<char>)
    ensures
        out@ == url@.scheme + "://"@ + host_or(url@, default_host@),
{
    let mut out = chars_of(url.scheme.as_str());
    append_chars(&mut out, chars_of("://").as_slice());
    match &url.host {
        Some(h) => append_chars(&mut out, chars_of(h.as_str()).as_slice()),
        None => append_chars(&mut out, chars_of(default_host).as_slice()),
    }
    out
}

fn resolve_gitlab(origin: &str, url: &crate::urls::UrlParts, segs: &Vec<Vec<char>>) -> (r: Result<
    LinkResolution,
    LinkError,
>)
    ensures
        resolution_result_view(r) == resolve_gitlab_spec(origin@, url@, parts_view(segs@)),
{
    let ghost sv = parts_view(segs@);
    proof {
        reveal_strlit("-");
        assert("-"@ =~= seq!['-']);
    }
    let mut marker: usize = 0;
    while marker < segs.len() && !is_lit(segs[marker].as_slice(), "-")
        invariant
            marker <= segs@.len(),
            sv == parts_view(segs@),
            "-"@ == seq!['-'],
            position_from(sv, seq!['-'], 0) == position_from(sv, seq!['-'], marker as int),
        decreases segs@.len() - marker,
    {
        marker += 1;
    }
    if marker == segs.len() {
        return Err(LinkError::GitlabUnsupported);
    }
    assert(position_from(sv, seq!['-'], 0) == marker as int);
    if marker < 2 {
        return Err(LinkError::GitlabMissingRepository);
    }
    if marker + 1 < segs.len() && is_lit(segs[marker + 1].as_slice(), "blob") && segs.len() - marker
        >= 4 {
        let mut raw = scheme_and_host(url, "gitlab.com");
        raw.push('/');
        let namespace = parts_to(segs, marker);
        append_chars(&mut raw, slash_join_exec(&namespace).as_slice());
        append_chars(&mut raw, chars_of("/-/raw/").as_slice());
        append_chars(&mut raw, segs[marker + 2].as_slice());
        raw.push('/');
        let rest = parts_from(segs, marker + 3);
        append_chars(&mut raw, slash_join_exec(&rest).as_slice());
        assert(raw@ =~= url@.scheme + "://"@ + host_or(url@, "gitlab.com"@) + seq!['/'] + slash_join(
            sv.take(marker as int),
        ) + "/-/raw/"@ + sv[marker + 2] + seq!['/'] + slash_join(sv.skip(marker + 3)));
        return Ok(
            LinkResolution::Raw {
                source_type: SourceType::Gitlab,
                origin_url: string_of(chars_of(origin).as_slice()),
                raw_url: string_of(raw.as_slice()),
            },
        );
    }
    if marker + 1 < segs.len() && is_lit(segs[marker + 1].as_slice(), "raw") && segs.len() - marker
        >= 4 {
        return Ok(
            LinkResolution::Raw {
                source_type: SourceType::Gitlab,
                origin_url: string_of(chars_of(origin).as_slice()),
                raw_url: string_of(chars_of(origin).as_slice()),
            },
        );
    }
    Err(LinkError::GitlabUnsupported)
}

fn resolve_codeberg(origin: &str, url: &crate::urls::UrlParts, segs: &Vec<Vec<char>>) -> (r: Result<
    LinkResolution,
    LinkError,
>)
    ensures
        resolution_result_view(r) == resolve_codeberg_spec(origin@, url@, parts_view(segs@)),
{
    if segs.len() < 2 {
        return Err(LinkError::CodebergMissingRepository);
    }
    let owner = &segs[0];
    let repo = strip_git_suffix(segs[1].as_slice());
    if segs.len() >= 6 && is_lit(segs[2].as_slice(), "src") && is_lit(segs[3].as_slice(), "branch") {
        let mut raw = scheme_and_host(url, "codeberg.org");
        raw.push('/');
        append_chars(&mut raw, owner.as_slice());
        raw.push('/');
        append_chars(&mut raw, repo.as_slice());
        append_chars(&mut raw, chars_of("/raw/branch/").as_slice());
        append_chars(&mut raw, segs[4].as_slice());
        raw.push('/');
        let rest = parts_from(segs, 5);
        append_chars(&mut raw, slash_join_exec(&rest).as_slice());
        let ghost sv = parts_view(segs@);
        assert(raw@ =~= url@.scheme + "://"@ + host_or(url@, "codeberg.org"@) + seq!['/'] + sv[0]
            + seq!['/'] + strip_git_suffix_spec(sv[1]) + "/raw/branch/"@ + sv[4] + seq!['/']
            + slash_join(sv.skip(5)));
        return Ok(
            LinkResolution::Raw {
                source_type: SourceType::Codeberg,
                origin_url: string_of(chars_of(origin).as_slice()),
                raw_url: string_of(raw.as_slice()),
            },
        );
    }
    if segs.len() >= 6 && is_lit(segs[2].as_slice(), "raw") && is_lit(segs[3].as_slice(), "branch") {
        return Ok(
            LinkResolution::Raw {
                source_type: SourceType::Codeberg,
                origin_url: string_of(chars_of(origin).as_slice()),
                raw_url: string_of(chars_of(origin).as_slice()),
            },
        );
    }
    Err(LinkError::CodebergUnsupported)
}

/// The hosts that course sources may come from.
pub open spec fn supported_source_host(host: Seq<char>) -> bool {
    ||| host == "github.com"@
    ||| host == "www.github.com"@
    ||| host == "gitlab.com"@
    ||| host == "www.gitlab.com"@
    ||| host == "codeberg.org"@
    ||| host == "www.codeberg.org"@
}

/// A link that parses with a host is refused as an unsupported host exactly
/// when its host, lowercased, is none of the supported source hosts.
pub proof fn lemma_unsupported_host(url: Seq<char>)
    requires
        parsed_url_of(url) is Ok,
        parsed_url_of(url)->Ok_0.host is Some,
    ensures
        (resolve_link_spec(url) matches Err(LinkErrorView::UnsupportedHost(_))) <==> !supported_source_host(
            lower(parsed_url_of(url)->Ok_0.host->Some_0),
        ),
{
}

/// Decide how a source link is fetched: GitHub blob/raw links and GitLab and
/// Codeberg file links become raw-content URLs, a bare GitHub repository is
/// resolved through its default branch, and any other host is rejected.
pub fn resolve_link(url: &str) -> (r: Result<LinkResolution, LinkError>)
    ensures
        resolution_result_view(r) == resolve_link_spec(url@),
{
    let parsed = parse_url(url);
    match parsed {
        Err(_) => Err(LinkError::InvalidUrl(string_of(chars_of(url).as_slice()))),
        Ok(parts) => match &parts.host {
            None => Err(LinkError::MissingHost),
            Some(h) => {
                let host = to_ascii_lowercase(chars_of(h.as_str()).as_slice());
                let segs = nonempty_segments(&parts.segments);
                assert(parts_view(segs@) == url_segments(parts@));
                if is_lit(host.as_slice(), "github.com") || is_lit(host.as_slice(), "www.github.com") {
                    resolve_github(url, &segs)
                } else if is_lit(host.as_slice(), "gitlab.com") || is_lit(
                    host.as_slice(),
                    "www.gitlab.com",
                ) {
                    resolve_gitlab(url, &parts, &segs)
                } else if is_lit(host.as_slice(), "codeberg.org") || is_lit(
                    host.as_slice(),
                    "www.codeberg.org",
                ) {
                    resolve_codeberg(url, &parts, &segs)
                } else {
                    Err(LinkError::UnsupportedHost(string_of(host.as_slice())))
                }
            },
        },
    }
}

} // verus!
