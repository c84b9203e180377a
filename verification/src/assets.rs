//! Course images: recognising image files, the records of stored images, the
//! addresses the app serves them at, and which remote images may be fetched.
use vstd::prelude::*;

use crate::text::{
    all_digits, append_chars, chars_eq, chars_of, concat2, concat3, concat4, digits_value, ends_with,
    has_char, has_prefix, has_suffix, is_ascii_digit, lower, split, split_chars, starts_with, string_of,
    to_ascii_lowercase, trim, trim_str,
};
use comrak::nodes::NodeValue::Image;
use comrak::options::Extension;
use crate::hashing::{hex, hex_chars, sha256, sha256_of};
use crate::parser::{markdown_events, markdown_events_of, EventView, MdEvent, MdNode, NodeView};
use crate::vault::{
    keyed_sort, keyed_sort_exec, keyed_view, lemma_keyed_sort_keeps, lemma_sort_map_payload, map_payload, payloads,
};
use crate::youtube::opt_string_view;
use crate::youtube::{trim_start_matches, trim_start_matches_exec};
use crate::urls::{join_url, joined_url_of, parse_url, parsed_url_of, UrlParts, UrlView};

verus! {

/* Image formats */

pub open spec fn bytes_have_prefix(b: Seq<u8>, p: Seq<u8>) -> bool {
    p.len() <= b.len() && b.take(p.len() as int) == p
}

pub open spec fn png_magic() -> Seq<u8> {
    seq![0x89u8, 0x50u8, 0x4eu8, 0x47u8, 0x0du8, 0x0au8, 0x1au8, 0x0au8]
}

pub open spec fn jpeg_magic() -> Seq<u8> {
    seq![0xffu8, 0xd8u8, 0xffu8]
}

/// `GIF87a`.
pub open spec fn gif87_magic() -> Seq<u8> {
    seq![0x47u8, 0x49u8, 0x46u8, 0x38u8, 0x37u8, 0x61u8]
}

/// `GIF89a`.
pub open spec fn gif89_magic() -> Seq<u8> {
    seq![0x47u8, 0x49u8, 0x46u8, 0x38u8, 0x39u8, 0x61u8]
}

/// `RIFF`.
pub open spec fn riff_magic() -> Seq<u8> {
    seq![0x52u8, 0x49u8, 0x46u8, 0x46u8]
}

/// `WEBP`.
pub open spec fn webp_magic() -> Seq<u8> {
    seq![0x57u8, 0x45u8, 0x42u8, 0x50u8]
}

/// The media type and file extension of a supported raster image, by its
/// leading bytes: PNG, JPEG, GIF or WebP.
pub open spec fn sniff_spec(b: Seq<u8>) -> Option<(Seq<char>, Seq<char>)> {
    if bytes_have_prefix(b, png_magic()) {
        Some(("image/png"@, "png"@))
    } else if bytes_have_prefix(b, jpeg_magic()) {
        Some(("image/jpeg"@, "jpg"@))
    } else if bytes_have_prefix(b, gif87_magic()) || bytes_have_prefix(b, gif89_magic()) {
        Some(("image/gif"@, "gif"@))
    } else if b.len() >= 12 && b.take(4) == riff_magic() && b.subrange(8, 12) == webp_magic() {
        Some(("image/webp"@, "webp"@))
    } else {
        None
    }
}

fn bytes_match_at(b: &[u8], at: usize, p: &Vec<u8>) -> (r: bool)
    requires
        at + p@.len() <= b@.len(),
    ensures
        r == (b@.subrange(at as int, at + p@.len()) == p@),
{
    let n = b.len();
    let mut i: usize = 0;
    while i < p.len()
        invariant
            i <= p@.len(),
            n == b@.len(),
            at + p@.len() <= b@.len(),
            forall|j: int| 0 <= j < i ==> b@[at + j] == p@[j],
        decreases p@.len() - i,
    {
        if b[at + i] != p[i] {
            assert(b@.subrange(at as int, at + p@.len())[i as int] != p@[i as int]);
            return false;
        }
        i += 1;
    }
    assert(b@.subrange(at as int, at + p@.len()) =~= p@);
    true
}

fn bytes_start_with(b: &[u8], p: &Vec<u8>) -> (r: bool)
    ensures
        r == bytes_have_prefix(b@, p@),
{
    if p.len() > b.len() {
        return false;
    }
    let r = bytes_match_at(b, 0, p);
    assert(b@.subrange(0, p@.len() as int) =~= b@.take(p@.len() as int));
    r
}

/// The media type and extension of a supported raster image, or `None`.
pub fn sniff_image(bytes: &[u8]) -> (r: Option<(&'static str, &'static str)>)
    ensures
        match r {
            Some((media_type, extension)) => sniff_spec(bytes@) == Some((media_type@, extension@)),
            None => sniff_spec(bytes@).is_none(),
        },
{
    let png: Vec<u8> = vec![0x89u8, 0x50u8, 0x4eu8, 0x47u8, 0x0du8, 0x0au8, 0x1au8, 0x0au8];
    let jpeg: Vec<u8> = vec![0xffu8, 0xd8u8, 0xffu8];
    let gif87: Vec<u8> = vec![0x47u8, 0x49u8, 0x46u8, 0x38u8, 0x37u8, 0x61u8];
    let gif89: Vec<u8> = vec![0x47u8, 0x49u8, 0x46u8, 0x38u8, 0x39u8, 0x61u8];
    let riff: Vec<u8> = vec![0x52u8, 0x49u8, 0x46u8, 0x46u8];
    let webp: Vec<u8> = vec![0x57u8, 0x45u8, 0x42u8, 0x50u8];
    assert(png@ =~= png_magic());
    assert(jpeg@ =~= jpeg_magic());
    assert(gif87@ =~= gif87_magic());
    assert(gif89@ =~= gif89_magic());
    assert(riff@ =~= riff_magic());
    assert(webp@ =~= webp_magic());
    if bytes_start_with(bytes, &png) {
        Some(("image/png", "png"))
    } else if bytes_start_with(bytes, &jpeg) {
        Some(("image/jpeg", "jpg"))
    } else if bytes_start_with(bytes, &gif87) || bytes_start_with(bytes, &gif89) {
        Some(("image/gif", "gif"))
    } else if bytes.len() >= 12 && bytes_match_at(bytes, 0, &riff) && bytes_match_at(bytes, 8, &webp) {
        assert(bytes@.subrange(0, 4) =~= bytes@.take(4));
        Some(("image/webp", "webp"))
    } else {
        proof {
            if bytes@.len() >= 12 {
                assert(bytes@.subrange(0, 4) =~= bytes@.take(4));
            }
        }
        None
    }
}

/* Records */

/// A local image file attached to a pasted course.
#[derive(Debug, Clone, PartialEq, Eq)]
pub struct LocalAttachment {
    pub path: String,
    pub name: Option<String>,
}

/// Whether an image was downloaded or attached.
#[derive(Debug, Clone, Copy, PartialEq, Eq)]
pub enum AssetOwnership {
    Remote,
    Local,
}

/// A stored image.
#[derive(Debug, Clone, PartialEq, Eq)]
pub struct AssetRecord {
    pub id: String,
    pub source: String,
    pub path: String,
    pub media_type: String,
    pub size: usize,
    pub sha256: String,
    pub ownership: AssetOwnership,
}

/// The images stored for a course.
#[derive(Debug, Clone, PartialEq, Eq)]
pub struct AssetManifest {
    pub assets: Vec<AssetRecord>,
}

/// A course's Markdown with its images pointed at stored copies, and what was skipped.
#[derive(Debug, Clone, PartialEq, Eq)]
pub struct MaterializedAssets {
    pub markdown: String,
    pub warnings: Vec<String>,
}

pub struct AssetRecordView {
    pub id: Seq<char>,
    pub source: Seq<char>,
    pub path: Seq<char>,
    pub media_type: Seq<char>,
    pub size: usize,
    pub sha256: Seq<char>,
    pub ownership: AssetOwnership,
}

impl View for AssetRecord {
    type V = AssetRecordView;

    open spec fn view(&self) -> AssetRecordView {
        AssetRecordView {
            id: self.id@,
            source: self.source@,
            path: self.path@,
            media_type: self.media_type@,
            size: self.size,
            sha256: self.sha256@,
            ownership: self.ownership,
        }
    }
}

/// At most this many images per course.
pub const MAX_IMAGE_COUNT: usize = 50;

/// At most this many bytes per image.
pub const MAX_IMAGE_BYTES: usize = 10485760;

/// At most this many bytes of images per course.
pub const MAX_TOTAL_BYTES: usize = 52428800;

/// At most this many redirects per image download.
pub const MAX_REDIRECTS: usize = 5;

/* Errors */

/// Why an image or an asset request is refused.
#[derive(Debug, Clone, PartialEq, Eq)]
pub enum AssetError {
    TooManyAttachments,
    LocalBytesExceeded,
    DuplicateAlias(String),
    TooManyImages,
    InvalidBaseUrl,
    AttachmentTooLarge(String),
    UnsupportedAttachment(String),
    NoFileName,
    InvalidAssetPath,
    InvalidAssetId,
    AssetNotFound,
    SizeMismatch,
    EmptyImageUrl,
    InvalidImageUrl(String),
    NoBaseUrl,
    InvalidRelativeUrl,
    NotHttps,
    NoHost,
    LocalHost,
    PrivateHost,
    UnsupportedHost(String),
    TooManyRedirects,
    NoRedirectLocation,
    InvalidRedirect,
    ImageTooLarge,
    NotAnImage,
    RewriteFailed,
    SymbolicLink,
    EscapesCourse,
}

pub enum AssetErrorView {
    TooManyAttachments,
    LocalBytesExceeded,
    DuplicateAlias(Seq<char>),
    TooManyImages,
    InvalidBaseUrl,
    AttachmentTooLarge(Seq<char>),
    UnsupportedAttachment(Seq<char>),
    NoFileName,
    InvalidAssetPath,
    InvalidAssetId,
    AssetNotFound,
    SizeMismatch,
    EmptyImageUrl,
    InvalidImageUrl(Seq<char>),
    NoBaseUrl,
    InvalidRelativeUrl,
    NotHttps,
    NoHost,
    LocalHost,
    PrivateHost,
    UnsupportedHost(Seq<char>),
    TooManyRedirects,
    NoRedirectLocation,
    InvalidRedirect,
    ImageTooLarge,
    NotAnImage,
    RewriteFailed,
    SymbolicLink,
    EscapesCourse,
}

impl View for AssetError {
    type V = AssetErrorView;

    open spec fn view(&self) -> AssetErrorView {
        match self {
            AssetError::TooManyAttachments => AssetErrorView::TooManyAttachments,
            AssetError::LocalBytesExceeded => AssetErrorView::LocalBytesExceeded,
            AssetError::DuplicateAlias(a) => AssetErrorView::DuplicateAlias(a@),
            AssetError::TooManyImages => AssetErrorView::TooManyImages,
            AssetError::InvalidBaseUrl => AssetErrorView::InvalidBaseUrl,
            AssetError::AttachmentTooLarge(p) => AssetErrorView::AttachmentTooLarge(p@),
            AssetError::UnsupportedAttachment(p) => AssetErrorView::UnsupportedAttachment(p@),
            AssetError::NoFileName => AssetErrorView::NoFileName,
            AssetError::InvalidAssetPath => AssetErrorView::InvalidAssetPath,
            AssetError::InvalidAssetId => AssetErrorView::InvalidAssetId,
            AssetError::AssetNotFound => AssetErrorView::AssetNotFound,
            AssetError::SizeMismatch => AssetErrorView::SizeMismatch,
            AssetError::EmptyImageUrl => AssetErrorView::EmptyImageUrl,
            AssetError::InvalidImageUrl(m) => AssetErrorView::InvalidImageUrl(m@),
            AssetError::NoBaseUrl => AssetErrorView::NoBaseUrl,
            AssetError::InvalidRelativeUrl => AssetErrorView::InvalidRelativeUrl,
            AssetError::NotHttps => AssetErrorView::NotHttps,
            AssetError::NoHost => AssetErrorView::NoHost,
            AssetError::LocalHost => AssetErrorView::LocalHost,
            AssetError::PrivateHost => AssetErrorView::PrivateHost,
            AssetError::UnsupportedHost(h) => AssetErrorView::UnsupportedHost(h@),
            AssetError::TooManyRedirects => AssetErrorView::TooManyRedirects,
            AssetError::NoRedirectLocation => AssetErrorView::NoRedirectLocation,
            AssetError::InvalidRedirect => AssetErrorView::InvalidRedirect,
            AssetError::ImageTooLarge => AssetErrorView::ImageTooLarge,
            AssetError::NotAnImage => AssetErrorView::NotAnImage,
            AssetError::RewriteFailed => AssetErrorView::RewriteFailed,
            AssetError::SymbolicLink => AssetErrorView::SymbolicLink,
            AssetError::EscapesCourse => AssetErrorView::EscapesCourse,
        }
    }
}

pub open spec fn asset_error_message(e: AssetErrorView) -> Seq<char> {
    match e {
        AssetErrorView::TooManyAttachments => "course contains more than 50 local attachments"@,
        AssetErrorView::LocalBytesExceeded => "local attachments exceed 50 MiB in total"@,
        AssetErrorView::DuplicateAlias(a) => "multiple attachments use the same name `"@ + a + "`"@,
        AssetErrorView::TooManyImages => "course contains more than 50 image references"@,
        AssetErrorView::InvalidBaseUrl => "invalid image base URL"@,
        AssetErrorView::AttachmentTooLarge(p) => "attachment exceeds 10 MiB: "@ + p,
        AssetErrorView::UnsupportedAttachment(p) => "unsupported image format: "@ + p,
        AssetErrorView::NoFileName => "attachment has no valid file name"@,
        AssetErrorView::InvalidAssetPath => "invalid asset path"@,
        AssetErrorView::InvalidAssetId => "invalid asset identifier"@,
        AssetErrorView::AssetNotFound => "asset not found"@,
        AssetErrorView::SizeMismatch => "asset size does not match manifest"@,
        AssetErrorView::EmptyImageUrl => "image URL is empty"@,
        AssetErrorView::InvalidImageUrl(m) => m,
        AssetErrorView::NoBaseUrl => "relative image has no source base URL"@,
        AssetErrorView::InvalidRelativeUrl => "invalid relative image URL"@,
        AssetErrorView::NotHttps => "only HTTPS images are supported"@,
        AssetErrorView::NoHost => "image URL has no host"@,
        AssetErrorView::LocalHost => "local network image hosts are not allowed"@,
        AssetErrorView::PrivateHost => "private network image hosts are not allowed"@,
        AssetErrorView::UnsupportedHost(h) => "image host `"@ + h + "` is not supported"@,
        AssetErrorView::TooManyRedirects => "too many redirects"@,
        AssetErrorView::NoRedirectLocation => "redirect has no valid location"@,
        AssetErrorView::InvalidRedirect => "invalid redirect URL"@,
        AssetErrorView::ImageTooLarge => "image exceeds 10 MiB"@,
        AssetErrorView::NotAnImage => "response is not a supported image"@,
        AssetErrorView::RewriteFailed => "failed to rewrite image Markdown"@,
        AssetErrorView::SymbolicLink => "symbolic-link assets are not served"@,
        AssetErrorView::EscapesCourse => "asset path escapes course vault"@,
    }
}

fn text(s: &str) -> (out: String)
    ensures
        out@ == s@,
{
    string_of(chars_of(s).as_slice())
}

impl AssetError {
    /// The human-readable message of the error.
    pub fn message(&self) -> (m: String)
        ensures
            m@ == asset_error_message(self@),
    {
        match self {
            AssetError::TooManyAttachments => text("course contains more than 50 local attachments"),
            AssetError::LocalBytesExceeded => text("local attachments exceed 50 MiB in total"),
            AssetError::DuplicateAlias(a) => concat3("multiple attachments use the same name `", a.as_str(), "`"),
            AssetError::TooManyImages => text("course contains more than 50 image references"),
            AssetError::InvalidBaseUrl => text("invalid image base URL"),
            AssetError::AttachmentTooLarge(p) => concat2("attachment exceeds 10 MiB: ", p.as_str()),
            AssetError::UnsupportedAttachment(p) => concat2("unsupported image format: ", p.as_str()),
            AssetError::NoFileName => text("attachment has no valid file name"),
            AssetError::InvalidAssetPath => text("invalid asset path"),
            AssetError::InvalidAssetId => text("invalid asset identifier"),
            AssetError::AssetNotFound => text("asset not found"),
            AssetError::SizeMismatch => text("asset size does not match manifest"),
            AssetError::EmptyImageUrl => text("image URL is empty"),
            AssetError::InvalidImageUrl(m) => text(m.as_str()),
            AssetError::NoBaseUrl => text("relative image has no source base URL"),
            AssetError::InvalidRelativeUrl => text("invalid relative image URL"),
            AssetError::NotHttps => text("only HTTPS images are supported"),
            AssetError::NoHost => text("image URL has no host"),
            AssetError::LocalHost => text("local network image hosts are not allowed"),
            AssetError::PrivateHost => text("private network image hosts are not allowed"),
            AssetError::UnsupportedHost(h) => concat3("image host `", h.as_str(), "` is not supported"),
            AssetError::TooManyRedirects => text("too many redirects"),
            AssetError::NoRedirectLocation => text("redirect has no valid location"),
            AssetError::InvalidRedirect => text("invalid redirect URL"),
            AssetError::ImageTooLarge => text("image exceeds 10 MiB"),
            AssetError::NotAnImage => text("response is not a supported image"),
            AssetError::RewriteFailed => text("failed to rewrite image Markdown"),
            AssetError::SymbolicLink => text("symbolic-link assets are not served"),
            AssetError::EscapesCourse => text("asset path escapes course vault"),
        }
    }
}

/* Protocol addresses */

pub open spec fn protocol_url_spec(course_slug: Seq<char>, asset_id: Seq<char>) -> Seq<char> {
    "courselib-asset://localhost/course/"@ + course_slug + "/"@ + asset_id
}

/// The address the app serves a stored image at.
pub fn protocol_url(course_slug: &str, asset_id: &str) -> (url: String)
    ensures
        url@ == protocol_url_spec(course_slug@, asset_id@),
{
    concat4("courselib-asset://localhost/course/", course_slug, "/", asset_id)
}

pub open spec fn missing_protocol_url_spec() -> Seq<char> {
    "courselib-asset://localhost/missing"@
}

/// The address images that could not be stored point at.
pub fn missing_protocol_url() -> (url: String)
    ensures
        url@ == missing_protocol_url_spec(),
{
    text("courselib-asset://localhost/missing")
}

/* Which image hosts may be fetched */

/// An IPv4 octet as `Ipv4Addr::from_str` reads it: one to three decimal
/// digits, no leading zero, at most 255.
pub open spec fn octet_of(part: Seq<char>) -> Option<u8> {
    if 1 <= part.len() <= 3 && all_digits(part) && (part.len() == 1 || part[0] != '0') && digits_value(part)
        <= 255 {
        Some(digits_value(part) as u8)
    } else {
        None
    }
}

/// A dotted-quad IPv4 address (`IpAddr::from_str` on such a host; the url crate
/// writes IPv6 hosts in brackets, which that parse rejects).
pub open spec fn ipv4_of(host: Seq<char>) -> Option<(u8, u8, u8, u8)> {
    let parts = split(host, '.');
    if parts.len() == 4 && octet_of(parts[0]) is Some && octet_of(parts[1]) is Some && octet_of(parts[2]) is Some
        && octet_of(parts[3]) is Some {
        Some((octet_of(parts[0])->0, octet_of(parts[1])->0, octet_of(parts[2])->0, octet_of(parts[3])->0))
    } else {
        None
    }
}

/// Not private, loopback, link-local, broadcast, documentation or unspecified.
pub open spec fn is_public_ipv4(a: u8, b: u8, c: u8, d: u8) -> bool {
    let private = a == 10 || (a == 172 && 16 <= b <= 31) || (a == 192 && b == 168);
    let loopback = a == 127;
    let link_local = a == 169 && b == 254;
    let broadcast = a == 255 && b == 255 && c == 255 && d == 255;
    let documentation = (a == 192 && b == 0 && c == 2) || (a == 198 && b == 51 && c == 100) || (a == 203 && b
        == 0 && c == 113);
    let unspecified = a == 0 && b == 0 && c == 0 && d == 0;
    !(private || loopback || link_local || broadcast || documentation || unspecified)
}

fn octet(part: &[char]) -> (r: Option<u8>)
    ensures
        r == octet_of(part@),
{
    let n = part.len();
    if n < 1 || n > 3 {
        return None;
    }
    if n > 1 && part[0] == '0' {
        return None;
    }
    let mut value: u64 = 0;
    let mut i: usize = 0;
    while i < n
        invariant
            i <= n <= 3,
            n == part@.len(),
            all_digits(part@.take(i as int)),
            value == digits_value(part@.take(i as int)),
            value < 1000,
            i == 0 ==> value == 0,
            i == 1 ==> value < 10,
            i == 2 ==> value < 100,
        decreases n - i,
    {
        let c = part[i];
        if !('0' <= c && c <= '9') {
            assert(!is_ascii_digit(part@[i as int]));
            return None;
        }
        assert(part@.take(i + 1).drop_last() =~= part@.take(i as int));
        assert(crate::text::digit_value(c) == (c as u32) - 48);
        value = value * 10 + ((c as u32) - 48) as u64;
        i += 1;
        assert(all_digits(part@.take(i as int)));
    }
    assert(part@.take(n as int) =~= part@);
    if value > 255 {
        None
    } else {
        Some(value as u8)
    }
}

fn parse_ipv4(host: &[char]) -> (r: Option<(u8, u8, u8, u8)>)
    ensures
        r == ipv4_of(host@),
{
    let parts = split_chars(host, '.');
    if parts.len() != 4 {
        return None;
    }
    let a = octet(parts[0].as_slice());
    let b = octet(parts[1].as_slice());
    let c = octet(parts[2].as_slice());
    let d = octet(parts[3].as_slice());
    match (a, b, c, d) {
        (Some(a), Some(b), Some(c), Some(d)) => Some((a, b, c, d)),
        _ => None,
    }
}

fn public_ipv4(a: u8, b: u8, c: u8, d: u8) -> (r: bool)
    ensures
        r == is_public_ipv4(a, b, c, d),
{
    let private = a == 10 || (a == 172 && 16 <= b && b <= 31) || (a == 192 && b == 168);
    let loopback = a == 127;
    let link_local = a == 169 && b == 254;
    let broadcast = a == 255 && b == 255 && c == 255 && d == 255;
    let documentation = (a == 192 && b == 0 && c == 2) || (a == 198 && b == 51 && c == 100) || (a == 203 && b
        == 0 && c == 113);
    let unspecified = a == 0 && b == 0 && c == 0 && d == 0;
    !(private || loopback || link_local || broadcast || documentation || unspecified)
}

/// The image hosts images may be fetched from, with their subdomains.
pub open spec fn allowed_hosts() -> Seq<Seq<char>> {
    seq![
        "github.com"@,
        "raw.githubusercontent.com"@,
        "user-images.githubusercontent.com"@,
        "private-user-images.githubusercontent.com"@,
        "gitlab.com"@,
        "codeberg.org"@,
    ]
}

pub open spec fn host_allowed(host: Seq<char>) -> bool {
    exists|i: int|
        0 <= i < allowed_hosts().len() && (host == allowed_hosts()[i] || has_suffix(
            host,
            "."@ + allowed_hosts()[i],
        ))
}

fn host_is_allowed(host: &[char]) -> (r: bool)
    ensures
        r == host_allowed(host@),
{
    let list: Vec<&str> = vec![
        "github.com",
        "raw.githubusercontent.com",
        "user-images.githubusercontent.com",
        "private-user-images.githubusercontent.com",
        "gitlab.com",
        "codeberg.org",
    ];
    assert(list@.map_values(|h: &str| h@) =~= allowed_hosts());
    let mut i: usize = 0;
    while i < list.len()
        invariant
            i <= list@.len(),
            list@.map_values(|h: &str| h@) == allowed_hosts(),
            forall|j: int|
                0 <= j < i ==> !(host@ == allowed_hosts()[j] || has_suffix(host@, "."@ + allowed_hosts()[j])),
        decreases list@.len() - i,
    {
        let allowed = chars_of(list[i]);
        assert(allowed@ == allowed_hosts()[i as int]);
        let mut dotted = chars_of(".");
        append_chars(&mut dotted, allowed.as_slice());
        if chars_eq(host, allowed.as_slice()) || ends_with(host, dotted.as_slice()) {
            return true;
        }
        i += 1;
    }
    false
}

/// Why an image URL may not be fetched, if it may not: only HTTPS, a named
/// host, no local or private network address, and only the supported hosts.
pub open spec fn validate_spec(u: UrlView) -> Result<(), AssetErrorView> {
    if u.scheme != "https"@ {
        Err(AssetErrorView::NotHttps)
    } else {
        match u.host {
            None => Err(AssetErrorView::NoHost),
            Some(h) => {
                let host = lower(h);
                if host == "localhost"@ || has_suffix(host, ".localhost"@) {
                    Err(AssetErrorView::LocalHost)
                } else if ipv4_of(host) matches Some((a, b, c, d)) && !is_public_ipv4(a, b, c, d) {
                    Err(AssetErrorView::PrivateHost)
                } else if !host_allowed(host) {
                    Err(AssetErrorView::UnsupportedHost(host))
                } else {
                    Ok(())
                }
            },
        }
    }
}

pub open spec fn unit_result_view(r: Result<(), AssetError>) -> Result<(), AssetErrorView> {
    match r {
        Ok(()) => Ok(()),
        Err(e) => Err(e@),
    }
}

/// Whether an image URL may be fetched.
pub fn validate_image_url(url: &UrlParts) -> (r: Result<(), AssetError>)
    ensures
        unit_result_view(r) == validate_spec(url@),
{
    let scheme = chars_of(url.scheme.as_str());
    if !chars_eq(scheme.as_slice(), chars_of("https").as_slice()) {
        return Err(AssetError::NotHttps);
    }
    let host = match &url.host {
        None => return Err(AssetError::NoHost),
        Some(h) => to_ascii_lowercase(chars_of(h.as_str()).as_slice()),
    };
    if chars_eq(host.as_slice(), chars_of("localhost").as_slice()) || ends_with(
        host.as_slice(),
        chars_of(".localhost").as_slice(),
    ) {
        return Err(AssetError::LocalHost);
    }
    match parse_ipv4(host.as_slice()) {
        Some((a, b, c, d)) => {
            if !public_ipv4(a, b, c, d) {
                return Err(AssetError::PrivateHost);
            }
        },
        None => {},
    }
    if !host_is_allowed(host.as_slice()) {
        return Err(AssetError::UnsupportedHost(string_of(host.as_slice())));
    }
    Ok(())
}

/* Resolving image references */

/// The URL an image reference points at: protocol-relative references get
/// `https:`, relative ones are resolved against the base URL; then validated.
pub open spec fn resolve_spec(value: Seq<char>, base: Option<Seq<char>>) -> Result<UrlView, AssetErrorView> {
    let t = trim(value);
    if t.len() == 0 || t[0] == '#' {
        Err(AssetErrorView::EmptyImageUrl)
    } else {
        let parsed: Result<UrlView, AssetErrorView> = if has_prefix(t, "//"@) {
            match parsed_url_of("https:"@ + t) {
                Ok(u) => Ok(u),
                Err(m) => Err(AssetErrorView::InvalidImageUrl(m)),
            }
        } else {
            match parsed_url_of(t) {
                Ok(u) => Ok(u),
                Err(_) => match base {
                    None => Err(AssetErrorView::NoBaseUrl),
                    Some(b) => match joined_url_of(b, t) {
                        None => Err(AssetErrorView::InvalidRelativeUrl),
                        Some(j) => match parsed_url_of(j) {
                            Ok(u) => Ok(u),
                            Err(_) => Err(AssetErrorView::InvalidRelativeUrl),
                        },
                    },
                },
            }
        };
        match parsed {
            Ok(u) => match validate_spec(u) {
                Ok(_) => Ok(u),
                Err(e) => Err(e),
            },
            Err(e) => Err(e),
        }
    }
}

pub open spec fn url_result_view(r: Result<UrlParts, AssetError>) -> Result<UrlView, AssetErrorView> {
    match r {
        Ok(u) => Ok(u@),
        Err(e) => Err(e@),
    }
}

pub open spec fn opt_str_view(o: Option<&str>) -> Option<Seq<char>> {
    match o {
        Some(s) => Some(s@),
        None => None,
    }
}

/// The URL an image reference points at, if it may be fetched.
pub fn resolve_image_url(value: &str, base: Option<&str>) -> (r: Result<UrlParts, AssetError>)
    ensures
        url_result_view(r) == resolve_spec(value@, opt_str_view(base)),
{
    let t = trim_str(value);
    if t.len() == 0 || t[0] == '#' {
        return Err(AssetError::EmptyImageUrl);
    }
    let ts = string_of(t.as_slice());
    let parsed = if starts_with(t.as_slice(), chars_of("//").as_slice()) {
        match parse_url(concat2("https:", ts.as_str()).as_str()) {
            Ok(u) => u,
            Err(m) => return Err(AssetError::InvalidImageUrl(m)),
        }
    } else {
        match parse_url(ts.as_str()) {
            Ok(u) => u,
            Err(_) => match base {
                None => return Err(AssetError::NoBaseUrl),
                Some(b) => match join_url(b, ts.as_str()) {
                    None => return Err(AssetError::InvalidRelativeUrl),
                    Some(j) => match parse_url(j.as_str()) {
                        Ok(u) => u,
                        Err(_) => return Err(AssetError::InvalidRelativeUrl),
                    },
                },
            },
        }
    };
    match validate_image_url(&parsed) {
        Ok(()) => Ok(parsed),
        Err(e) => Err(e),
    }
}

/* Serving stored images */

/// The course slug and asset ID of a request for `/course/<slug>/<id>`.
pub open spec fn asset_request_spec(path: Seq<char>) -> Result<(Seq<char>, Seq<char>), AssetErrorView> {
    let segments = split(trim_start_matches(path, seq!['/']), '/');
    if segments.len() != 3 || segments[0] != "course"@ {
        Err(AssetErrorView::InvalidAssetPath)
    } else {
        let slug = segments[1];
        let id = segments[2];
        if slug.len() == 0 || id.len() == 0 || slug.contains('.') || slug.contains('\\') || id.contains('/')
            || id.contains('\\') || id.contains('.') {
            Err(AssetErrorView::InvalidAssetId)
        } else {
            Ok((slug, id))
        }
    }
}

/// The course slug and asset ID that a request path names.
pub fn parse_asset_request(request_path: &str) -> (r: Result<(String, String), AssetError>)
    ensures
        match r {
            Ok((slug, id)) => asset_request_spec(request_path@) == Ok::<(Seq<char>, Seq<char>), AssetErrorView>(
                (slug@, id@),
            ),
            Err(e) => asset_request_spec(request_path@) == Err::<(Seq<char>, Seq<char>), AssetErrorView>(e@),
        },
{
    let mut sl: Vec<char> = Vec::new();
    sl.push('/');
    assert(sl@ =~= seq!['/']);
    let trimmed = trim_start_matches_exec(chars_of(request_path).as_slice(), sl.as_slice());
    let segments = split_chars(trimmed.as_slice(), '/');
    if segments.len() != 3 || !chars_eq(segments[0].as_slice(), chars_of("course").as_slice()) {
        return Err(AssetError::InvalidAssetPath);
    }
    let slug = &segments[1];
    let id = &segments[2];
    if slug.len() == 0 || id.len() == 0 || has_char(slug.as_slice(), '.') || has_char(slug.as_slice(), '\\')
        || has_char(id.as_slice(), '/') || has_char(id.as_slice(), '\\') || has_char(id.as_slice(), '.') {
        return Err(AssetError::InvalidAssetId);
    }
    Ok((string_of(slug.as_slice()), string_of(id.as_slice())))
}

/// The position of the first record with this ID, or -1.
pub open spec fn record_index(records: Seq<AssetRecord>, id: Seq<char>, j: int) -> int
    decreases records.len() - j,
{
    if j < 0 || j >= records.len() {
        -1
    } else if records[j].id@ == id {
        j
    } else {
        record_index(records, id, j + 1)
    }
}

/// The record of an asset, by ID.
pub fn find_asset<'a>(manifest: &'a AssetManifest, asset_id: &str) -> (r: Result<&'a AssetRecord, AssetError>)
    ensures
        match r {
            Ok(rec) => {
                let i = record_index(manifest.assets@, asset_id@, 0);
                0 <= i < manifest.assets@.len() && *rec == manifest.assets@[i]
            },
            Err(e) => record_index(manifest.assets@, asset_id@, 0) == -1 && e@ == AssetErrorView::AssetNotFound,
        },
{
    let id = chars_of(asset_id);
    let mut i: usize = 0;
    while i < manifest.assets.len()
        invariant
            i <= manifest.assets@.len(),
            id@ == asset_id@,
            record_index(manifest.assets@, asset_id@, 0) == record_index(manifest.assets@, asset_id@, i as int),
        decreases manifest.assets@.len() - i,
    {
        if chars_eq(chars_of(manifest.assets[i].id.as_str()).as_slice(), id.as_slice()) {
            return Ok(&manifest.assets[i]);
        }
        i += 1;
    }
    Err(AssetError::AssetNotFound)
}

/// The stored file must have the size the manifest records.
pub fn check_asset_size(record: &AssetRecord, size: usize) -> (r: Result<(), AssetError>)
    ensures
        r is Ok <==> size == record.size,
        r matches Err(e) ==> e@ == AssetErrorView::SizeMismatch,
{
    if size != record.size {
        Err(AssetError::SizeMismatch)
    } else {
        Ok(())
    }
}

/* Attached images */

/// `sha256:` followed by the lowercase hex digest.
pub open spec fn digest_label(hash: Seq<char>) -> Seq<char> {
    "sha256:"@ + hash
}

/// The names a Markdown image may use for an attachment: its file name, its
/// display name, and both with `./` before them, each once.
pub open spec fn attachment_aliases(file_name: Seq<char>, display: Seq<char>) -> Seq<Seq<char>> {
    let all = seq![file_name, display, "./"@ + file_name, "./"@ + display];
    unique_in_order(all)
}

/// The strings of `s` without repeats, each where it first occurs.
pub open spec fn unique_in_order(s: Seq<Seq<char>>) -> Seq<Seq<char>>
    decreases s.len(),
{
    if s.len() == 0 {
        s
    } else {
        let rest = unique_in_order(s.drop_last());
        if rest.contains(s.last()) {
            rest
        } else {
            rest.push(s.last())
        }
    }
}

/// The name an attachment is shown by: the given name trimmed, unless that is
/// empty or absent, then its file name.
pub open spec fn display_name_spec(file_name: Seq<char>, name: Option<Seq<char>>) -> Seq<char> {
    match name {
        Some(n) => if trim(n).len() > 0 {
            trim(n)
        } else {
            file_name
        },
        None => file_name,
    }
}

/// The record of an attached image, its aliases and its stored file name, or
/// why it is refused.
pub open spec fn attachment_spec(
    bytes: Seq<u8>,
    shown_path: Seq<char>,
    file_name: Option<Seq<char>>,
    name: Option<Seq<char>>,
) -> Result<(AssetRecordView, Seq<Seq<char>>, Seq<char>), AssetErrorView> {
    if bytes.len() > MAX_IMAGE_BYTES {
        Err(AssetErrorView::AttachmentTooLarge(shown_path))
    } else {
        match sniff_spec(bytes) {
            None => Err(AssetErrorView::UnsupportedAttachment(shown_path)),
            Some((media_type, extension)) => match file_name {
                None => Err(AssetErrorView::NoFileName),
                Some(f) => {
                    let hash = hex(sha256_of(bytes));
                    let display = display_name_spec(f, name);
                    let stored = hash + "."@ + extension;
                    Ok(
                        (
                            AssetRecordView {
                                id: "local-"@ + hash,
                                source: display,
                                path: "assets/local/"@ + stored,
                                media_type,
                                size: bytes.len() as usize,
                                sha256: digest_label(hash),
                                ownership: AssetOwnership::Local,
                            },
                            attachment_aliases(f, display),
                            stored,
                        ),
                    )
                },
            },
        }
    }
}

fn push_unique(v: &mut Vec<String>, s: String)
    ensures
        strs(final(v)@) == if strs(old(v)@).contains(s@) {
            strs(old(v)@)
        } else {
            strs(old(v)@).push(s@)
        },
{
    let mut i: usize = 0;
    while i < v.len()
        invariant
            i <= v@.len(),
            forall|j: int| 0 <= j < i ==> (#[trigger] v@[j])@ != s@,
        decreases v@.len() - i,
    {
        if v[i] == s {
            assert(strs(v@)[i as int] == s@);
            return;
        }
        i += 1;
    }
    assert forall|j: int| 0 <= j < strs(v@).len() implies strs(v@)[j] != s@ by {
        assert(v@[j]@ != s@);
    }
    let ghost before = strs(v@);
    v.push(s);
    assert(strs(v@) =~= before.push(s@));
}

pub open spec fn strs(v: Seq<String>) -> Seq<Seq<char>> {
    v.map_values(|s: String| s@)
}

/// The record, aliases and stored file name of an attached image.
pub fn local_attachment_record(
    bytes: &[u8],
    shown_path: &str,
    file_name: Option<&str>,
    name: Option<&str>,
) -> (r: Result<(AssetRecord, Vec<String>, String), AssetError>)
    ensures
        match r {
            Ok((record, aliases, stored)) => attachment_spec(bytes@, shown_path@, opt_str_view(file_name), opt_str_view(name))
                == Ok::<(AssetRecordView, Seq<Seq<char>>, Seq<char>), AssetErrorView>((record@, strs(aliases@), stored@)),
            Err(e) => attachment_spec(bytes@, shown_path@, opt_str_view(file_name), opt_str_view(name)) == Err::<
                (AssetRecordView, Seq<Seq<char>>, Seq<char>),
                AssetErrorView,
            >(e@),
        },
{
    if bytes.len() > MAX_IMAGE_BYTES {
        return Err(AssetError::AttachmentTooLarge(text(shown_path)));
    }
    let (media_type, extension) = match sniff_image(bytes) {
        None => return Err(AssetError::UnsupportedAttachment(text(shown_path))),
        Some(found) => found,
    };
    let f = match file_name {
        None => return Err(AssetError::NoFileName),
        Some(f) => f,
    };
    let digest = sha256(bytes);
    let hash = string_of(hex_chars(digest.as_slice()).as_slice());
    let display = match name {
        Some(n) => {
            let t = trim_str(n);
            if t.len() > 0 {
                string_of(t.as_slice())
            } else {
                text(f)
            }
        },
        None => text(f),
    };
    let stored = concat3(hash.as_str(), ".", extension);
    let ghost all = seq![f@, display@, "./"@ + f@, "./"@ + display@];
    let mut aliases: Vec<String> = Vec::new();
    assert(strs(aliases@) =~= unique_in_order(all.take(0)));
    let a0 = text(f);
    let a1 = text(display.as_str());
    let a2 = concat2("./", f);
    let a3 = concat2("./", display.as_str());
    proof {
        assert(all.take(1).drop_last() =~= all.take(0));
        assert(all.take(2).drop_last() =~= all.take(1));
        assert(all.take(3).drop_last() =~= all.take(2));
        assert(all.take(4).drop_last() =~= all.take(3));
        assert(all.take(4) =~= all);
        assert(all.take(1).last() == a0@);
        assert(all.take(2).last() == a1@);
        assert(all.take(3).last() == a2@);
        assert(all.take(4).last() == a3@);
    }
    push_unique(&mut aliases, a0);
    assert(strs(aliases@) == unique_in_order(all.take(1)));
    push_unique(&mut aliases, a1);
    assert(strs(aliases@) == unique_in_order(all.take(2)));
    push_unique(&mut aliases, a2);
    assert(strs(aliases@) == unique_in_order(all.take(3)));
    push_unique(&mut aliases, a3);
    assert(strs(aliases@) == unique_in_order(all.take(4)));
    let record = AssetRecord {
        id: concat2("local-", hash.as_str()),
        source: display,
        path: concat2("assets/local/", stored.as_str()),
        media_type: text(media_type),
        size: bytes.len(),
        sha256: concat2("sha256:", hash.as_str()),
        ownership: AssetOwnership::Local,
    };
    Ok((record, aliases, stored))
}

/* Downloading images */

/// The next URL of a download that was redirected to `location`.
pub open spec fn redirect_spec(current: Seq<char>, redirect_count: nat, location: Option<Seq<char>>) -> Result<
    UrlView,
    AssetErrorView,
> {
    if redirect_count >= MAX_REDIRECTS {
        Err(AssetErrorView::TooManyRedirects)
    } else {
        match location {
            None => Err(AssetErrorView::NoRedirectLocation),
            Some(l) => match joined_url_of(current, l) {
                None => Err(AssetErrorView::InvalidRedirect),
                Some(j) => match parsed_url_of(j) {
                    Err(_) => Err(AssetErrorView::InvalidRedirect),
                    Ok(u) => match validate_spec(u) {
                        Ok(_) => Ok(u),
                        Err(e) => Err(e),
                    },
                },
            },
        }
    }
}

/// Where a redirected download goes next, if it may go on.
pub fn follow_redirect(current: &UrlParts, redirect_count: usize, location: Option<&str>) -> (r: Result<
    UrlParts,
    AssetError,
>)
    ensures
        url_result_view(r) == redirect_spec(current.href@, redirect_count as nat, opt_str_view(location)),
{
    if redirect_count >= MAX_REDIRECTS {
        return Err(AssetError::TooManyRedirects);
    }
    let l = match location {
        None => return Err(AssetError::NoRedirectLocation),
        Some(l) => l,
    };
    let joined = match join_url(current.href.as_str(), l) {
        None => return Err(AssetError::InvalidRedirect),
        Some(j) => j,
    };
    let next = match parse_url(joined.as_str()) {
        Err(_) => return Err(AssetError::InvalidRedirect),
        Ok(u) => u,
    };
    match validate_image_url(&next) {
        Ok(()) => Ok(next),
        Err(e) => Err(e),
    }
}

/// A download announcing more than the per-image limit is refused up front.
pub fn check_content_length(content_length: Option<u64>) -> (r: Result<(), AssetError>)
    ensures
        r is Ok <==> match content_length {
            Some(n) => n <= MAX_IMAGE_BYTES,
            None => true,
        },
        r matches Err(e) ==> e@ == AssetErrorView::ImageTooLarge,
{
    let n = match content_length {
        Some(n) => n,
        None => 0,
    };
    if n > MAX_IMAGE_BYTES as u64 {
        Err(AssetError::ImageTooLarge)
    } else {
        Ok(())
    }
}

/// Appends a received chunk, unless the image would exceed the per-image limit.
pub fn append_chunk(bytes: &mut Vec<u8>, chunk: &[u8]) -> (r: Result<(), AssetError>)
    ensures
        r is Ok <==> old(bytes)@.len() + chunk@.len() <= MAX_IMAGE_BYTES,
        r is Ok ==> final(bytes)@ == old(bytes)@ + chunk@,
        r matches Err(e) ==> e@ == AssetErrorView::ImageTooLarge && final(bytes)@ == old(bytes)@,
{
    if bytes.len() > MAX_IMAGE_BYTES || chunk.len() > MAX_IMAGE_BYTES - bytes.len() {
        return Err(AssetError::ImageTooLarge);
    }
    let mut i: usize = 0;
    let ghost b0 = bytes@;
    while i < chunk.len()
        invariant
            i <= chunk@.len(),
            bytes@ == b0 + chunk@.take(i as int),
        decreases chunk@.len() - i,
    {
        bytes.push(chunk[i]);
        assert(chunk@.take(i + 1) =~= chunk@.take(i as int).push(chunk@[i as int]));
        assert(bytes@ =~= b0 + chunk@.take(i + 1));
        i += 1;
    }
    assert(chunk@.take(i as int) =~= chunk@);
    Ok(())
}

/// A downloaded image: its bytes, media type, extension and final URL.
#[derive(Debug)]
pub struct DownloadedImage {
    pub bytes: Vec<u8>,
    pub media_type: String,
    pub extension: String,
    pub source: String,
}

/// Accepts a complete download if it is a supported image.
pub fn finish_download(bytes: Vec<u8>, url: &UrlParts) -> (r: Result<DownloadedImage, AssetError>)
    ensures
        match r {
            Ok(d) => sniff_spec(bytes@) == Some((d.media_type@, d.extension@)) && d.bytes@ == bytes@ && d.source@
                == url.href@,
            Err(e) => sniff_spec(bytes@).is_none() && e@ == AssetErrorView::NotAnImage,
        },
{
    match sniff_image(bytes.as_slice()) {
        None => Err(AssetError::NotAnImage),
        Some((media_type, extension)) => Ok(
            DownloadedImage {
                media_type: text(media_type),
                extension: text(extension),
                source: text(url.href.as_str()),
                bytes,
            },
        ),
    }
}

/* Images in Markdown */

/// The destinations of the images met in a walk of the syntax tree, in document order.
pub open spec fn image_urls(ev: Seq<EventView>) -> Seq<Seq<char>>
    decreases ev.len(),
{
    if ev.len() == 0 {
        Seq::empty()
    } else {
        let rest = image_urls(ev.drop_last());
        match ev.last() {
            EventView::Enter(NodeView::Image(u)) => rest.push(u),
            _ => rest,
        }
    }
}

/// The destinations of the document's images, in document order.
pub fn collect_image_urls(markdown: &str) -> (urls: Vec<String>)
    ensures
        strs(urls@) == image_urls(markdown_events_of(markdown@)),
{
    let events = markdown_events(markdown);
    let ghost ev = events@.map_values(|e: MdEvent| e@);
    let mut urls: Vec<String> = Vec::new();
    let mut i: usize = 0;
    while i < events.len()
        invariant
            i <= events@.len(),
            ev == events@.map_values(|e: MdEvent| e@),
            strs(urls@) == image_urls(ev.take(i as int)),
        decreases events@.len() - i,
    {
        assert(ev.take(i + 1).drop_last() =~= ev.take(i as int));
        assert(ev.take(i + 1).last() == events@[i as int]@);
        match &events[i] {
            MdEvent::Enter(MdNode::ImageLink(u)) => {
                let ghost before = strs(urls@);
                urls.push(text(u.as_str()));
                assert(strs(urls@) =~= before.push(u@));
            },
            _ => {},
        }
        i += 1;
    }
    assert(ev.take(i as int) =~= ev);
    urls
}

/// The CommonMark that comrak writes for `markdown` once the destination of its
/// `i`-th image (in document order) is set to `urls[i]` (`None` when writing fails).
pub uninterp spec fn markdown_with_image_urls_of(markdown: Seq<char>, urls: Seq<Seq<char>>) -> Option<Seq<char>>;

/// `comrak::parse_document`, image destinations replaced in `descendants()`
/// order, then `comrak::format_commonmark`. Trusted: the result is the named one.
#[verifier::external_body]
fn set_image_urls(markdown: &str, urls: &Vec<String>) -> (out: Option<String>)
    ensures
        match out {
            Some(o) => markdown_with_image_urls_of(markdown@, strs(urls@)) == Some(o@),
            None => markdown_with_image_urls_of(markdown@, strs(urls@)).is_none(),
        },
{
    let extension = Extension::builder().table(true).tasklist(true).strikethrough(true).autolink(true).build();
    let options = comrak::Options { extension, ..Default::default() };
    let arena = comrak::Arena::new();
    let root = comrak::parse_document(&arena, markdown, &options);
    let mut next = urls.iter();
    for node in root.descendants() {
        if let Image(link) = &mut node.data.borrow_mut().value {
            if let Some(url) = next.next() { link.url = url.clone(); }
        }
    }
    let mut out = String::new();
    comrak::format_commonmark(root, &options, &mut out).ok().map(|_| out)
}

/// The value of the first pair whose key is `key`.
pub open spec fn lookup_pair(pairs: Seq<(Seq<char>, Seq<char>)>, key: Seq<char>, j: int) -> Option<Seq<char>>
    decreases pairs.len() - j,
{
    if j < 0 || j >= pairs.len() {
        None
    } else if pairs[j].0 == key {
        Some(pairs[j].1)
    } else {
        lookup_pair(pairs, key, j + 1)
    }
}

pub open spec fn pairs_view(pairs: Seq<(String, String)>) -> Seq<(Seq<char>, Seq<char>)> {
    pairs.map_values(|p: (String, String)| (p.0@, p.1@))
}

/// Each URL replaced by its replacement, when it has one.
pub open spec fn replaced_urls(urls: Seq<Seq<char>>, reps: Seq<(Seq<char>, Seq<char>)>) -> Seq<Seq<char>> {
    urls.map_values(
        |u: Seq<char>|
            match lookup_pair(reps, u, 0) {
                Some(r) => r,
                None => u,
            },
    )
}

/// `rewrite_image_urls`: the Markdown unchanged when nothing is replaced, else
/// rewritten with each image pointing at its replacement.
pub open spec fn rewrite_spec(markdown: Seq<char>, reps: Seq<(Seq<char>, Seq<char>)>) -> Result<Seq<char>, AssetErrorView> {
    if reps.len() == 0 {
        Ok(markdown)
    } else {
        match markdown_with_image_urls_of(markdown, replaced_urls(image_urls(markdown_events_of(markdown)), reps)) {
            Some(out) => Ok(out),
            None => Err(AssetErrorView::RewriteFailed),
        }
    }
}

fn lookup_replacement(pairs: &Vec<(String, String)>, key: &String) -> (r: Option<String>)
    ensures
        opt_string_view(r) == lookup_pair(pairs_view(pairs@), key@, 0),
{
    let ghost pv = pairs_view(pairs@);
    let mut i: usize = 0;
    while i < pairs.len()
        invariant
            i <= pairs@.len(),
            pv == pairs_view(pairs@),
            lookup_pair(pv, key@, 0) == lookup_pair(pv, key@, i as int),
        decreases pairs@.len() - i,
    {
        assert(pv[i as int] == (pairs@[i as int].0@, pairs@[i as int].1@));
        if pairs[i].0 == *key {
            return Some(text(pairs[i].1.as_str()));
        }
        i += 1;
    }
    None
}

/// Points the document's images at their replacements.
pub fn rewrite_image_urls(markdown: &str, replacements: &Vec<(String, String)>) -> (r: Result<String, AssetError>)
    ensures
        match r {
            Ok(o) => rewrite_spec(markdown@, pairs_view(replacements@)) == Ok::<Seq<char>, AssetErrorView>(o@),
            Err(e) => rewrite_spec(markdown@, pairs_view(replacements@)) == Err::<Seq<char>, AssetErrorView>(e@),
        },
{
    if replacements.len() == 0 {
        return Ok(text(markdown));
    }
    let urls = collect_image_urls(markdown);
    let ghost uv = strs(urls@);
    let ghost reps = pairs_view(replacements@);
    let mut next: Vec<String> = Vec::new();
    let mut i: usize = 0;
    while i < urls.len()
        invariant
            i <= urls@.len(),
            uv == strs(urls@),
            reps == pairs_view(replacements@),
            strs(next@) == replaced_urls(uv, reps).take(i as int),
        decreases urls@.len() - i,
    {
        let u = &urls[i];
        let replaced = match lookup_replacement(replacements, u) {
            Some(r) => r,
            None => text(u.as_str()),
        };
        let ghost before = strs(next@);
        next.push(replaced);
        assert(strs(next@) =~= before.push(replaced_urls(uv, reps)[i as int]));
        assert(replaced_urls(uv, reps).take(i + 1) =~= replaced_urls(uv, reps).take(i as int).push(
            replaced_urls(uv, reps)[i as int],
        ));
        i += 1;
    }
    assert(replaced_urls(uv, reps).take(i as int) =~= replaced_urls(uv, reps));
    match set_image_urls(markdown, &next) {
        Some(out) => Ok(out),
        None => Err(AssetError::RewriteFailed),
    }
}

/* Materializing a course's images */

/// The position of the pair whose key is `key` at or after `j`, or -1.
pub open spec fn key_index(pairs: Seq<(Seq<char>, Seq<char>)>, key: Seq<char>, j: int) -> int
    decreases pairs.len() - j,
{
    if j < 0 || j >= pairs.len() {
        -1
    } else if pairs[j].0 == key {
        j
    } else {
        key_index(pairs, key, j + 1)
    }
}

/// `HashMap::insert` on pairs with distinct keys: the value of an existing key is
/// replaced, a new key is added.
pub open spec fn map_insert(pairs: Seq<(Seq<char>, Seq<char>)>, key: Seq<char>, value: Seq<char>) -> Seq<
    (Seq<char>, Seq<char>),
> {
    let i = key_index(pairs, key, 0);
    if i >= 0 {
        pairs.update(i, (key, value))
    } else {
        pairs.push((key, value))
    }
}

fn find_key(pairs: &Vec<(String, String)>, key: &String) -> (r: Option<usize>)
    ensures
        match r {
            Some(i) => key_index(pairs_view(pairs@), key@, 0) == i && i < pairs@.len(),
            None => key_index(pairs_view(pairs@), key@, 0) == -1,
        },
{
    let ghost pv = pairs_view(pairs@);
    let mut i: usize = 0;
    while i < pairs.len()
        invariant
            i <= pairs@.len(),
            pv == pairs_view(pairs@),
            key_index(pv, key@, 0) == key_index(pv, key@, i as int),
        decreases pairs@.len() - i,
    {
        assert(pv[i as int] == (pairs@[i as int].0@, pairs@[i as int].1@));
        if pairs[i].0 == *key {
            return Some(i);
        }
        i += 1;
    }
    None
}

fn insert_pair(pairs: &mut Vec<(String, String)>, key: String, value: String)
    ensures
        pairs_view(final(pairs)@) == map_insert(pairs_view(old(pairs)@), key@, value@),
{
    let ghost pv = pairs_view(pairs@);
    match find_key(pairs, &key) {
        Some(i) => {
            pairs.set(i, (key, value));
            assert(pairs_view(pairs@) =~= pv.update(i as int, (key@, value@)));
        },
        None => {
            pairs.push((key, value));
            assert(pairs_view(pairs@) =~= pv.push((key@, value@)));
        },
    }
}

fn copy_record(r: &AssetRecord) -> (c: AssetRecord)
    ensures
        c@ == r@,
{
    AssetRecord {
        id: text(r.id.as_str()),
        source: text(r.source.as_str()),
        path: text(r.path.as_str()),
        media_type: text(r.media_type.as_str()),
        size: r.size,
        sha256: text(r.sha256.as_str()),
        ownership: r.ownership,
    }
}

/// The course's images while they are being stored: the records kept, where
/// each image reference now points, the warnings so far, the bytes stored and
/// the downloads by source URL.
#[derive(Debug)]
pub struct AssetPlan {
    course_slug: String,
    base_url: Option<String>,
    records: Vec<AssetRecord>,
    replacements: Vec<(String, String)>,
    warnings: Vec<String>,
    local_bytes: usize,
    total_bytes: usize,
    downloaded: Vec<(String, AssetRecord)>,
}

pub struct AssetPlanView {
    pub course_slug: Seq<char>,
    pub base_url: Option<Seq<char>>,
    pub records: Seq<AssetRecordView>,
    pub replacements: Seq<(Seq<char>, Seq<char>)>,
    pub warnings: Seq<Seq<char>>,
    pub local_bytes: nat,
    pub total_bytes: nat,
    pub downloaded: Seq<(Seq<char>, AssetRecordView)>,
}

pub open spec fn records_view(r: Seq<AssetRecord>) -> Seq<AssetRecordView> {
    r.map_values(|a: AssetRecord| a@)
}

pub open spec fn downloads_view(d: Seq<(String, AssetRecord)>) -> Seq<(Seq<char>, AssetRecordView)> {
    d.map_values(|p: (String, AssetRecord)| (p.0@, p.1@))
}

impl View for AssetPlan {
    type V = AssetPlanView;

    closed spec fn view(&self) -> AssetPlanView {
        AssetPlanView {
            course_slug: self.course_slug@,
            base_url: opt_string_view(self.base_url),
            records: records_view(self.records@),
            replacements: pairs_view(self.replacements@),
            warnings: strs(self.warnings@),
            local_bytes: self.local_bytes as nat,
            total_bytes: self.total_bytes as nat,
            downloaded: downloads_view(self.downloaded@),
        }
    }
}

/// The locally owned records of a manifest, in order.
pub open spec fn local_records(r: Seq<AssetRecordView>) -> Seq<AssetRecordView>
    decreases r.len(),
{
    if r.len() == 0 {
        r
    } else {
        let rest = local_records(r.drop_last());
        if r.last().ownership == AssetOwnership::Local {
            rest.push(r.last())
        } else {
            rest
        }
    }
}

/// The records without those with this ID.
pub open spec fn records_without(r: Seq<AssetRecordView>, id: Seq<char>) -> Seq<AssetRecordView>
    decreases r.len(),
{
    if r.len() == 0 {
        r
    } else {
        let rest = records_without(r.drop_last(), id);
        if r.last().id == id {
            rest
        } else {
            rest.push(r.last())
        }
    }
}

/// The downloaded records by the URL they came from (without fragment), for the
/// remotely owned records whose source parses as a URL.
pub open spec fn remote_sources(r: Seq<AssetRecordView>) -> Seq<(Seq<char>, AssetRecordView)>
    decreases r.len(),
{
    if r.len() == 0 {
        Seq::empty()
    } else {
        let rest = remote_sources(r.drop_last());
        let a = r.last();
        if a.ownership == AssetOwnership::Remote {
            match parsed_url_of(a.source) {
                Ok(u) => rest.push((u.href_without_fragment, a)),
                Err(_) => rest,
            }
        } else {
            rest
        }
    }
}

/// The last record stored under a source key (a `HashMap` built in order keeps the last).
pub open spec fn last_source(sources: Seq<(Seq<char>, AssetRecordView)>, key: Seq<char>) -> Option<AssetRecordView>
    decreases sources.len(),
{
    if sources.len() == 0 {
        None
    } else if sources.last().0 == key {
        Some(sources.last().1)
    } else {
        last_source(sources.drop_last(), key)
    }
}

/// The first record stored under a source key.
pub open spec fn first_source(sources: Seq<(Seq<char>, AssetRecordView)>, key: Seq<char>, j: int) -> Option<AssetRecordView>
    decreases sources.len() - j,
{
    if j < 0 || j >= sources.len() {
        None
    } else if sources[j].0 == key {
        Some(sources[j].1)
    } else {
        first_source(sources, key, j + 1)
    }
}

/// The cached copy of an image by its source key, among the manifest's remote records.
pub fn cached_remote(sources: &Vec<(String, AssetRecord)>, key: &str) -> (r: Option<AssetRecord>)
    ensures
        match r {
            Some(rec) => last_source(downloads_view(sources@), key@) == Some(rec@),
            None => last_source(downloads_view(sources@), key@).is_none(),
        },
{
    let ghost dv = downloads_view(sources@);
    let k = chars_of(key);
    let mut i: usize = sources.len();
    assert(dv.take(i as int) =~= dv);
    while i > 0
        invariant
            i <= sources@.len(),
            dv == downloads_view(sources@),
            k@ == key@,
            last_source(dv, key@) == last_source(dv.take(i as int), key@),
        decreases i,
    {
        assert(dv.take(i as int).drop_last() =~= dv.take(i - 1));
        assert(dv.take(i as int).last() == dv[i - 1]);
        if chars_eq(chars_of(sources[i - 1].0.as_str()).as_slice(), k.as_slice()) {
            return Some(copy_record(&sources[i - 1].1));
        }
        i -= 1;
    }
    None
}

/// What to do with one image reference.
#[derive(Debug)]
pub enum ImageStep {
    /// Nothing to fetch: the reference already points somewhere.
    Done,
    /// Fetch the image at this URL; `key` is the URL without its fragment.
    Fetch { url: UrlParts, key: String },
}

/// `usize::saturating_add`.
pub open spec fn sat_add(a: nat, b: nat) -> nat {
    if a + b > usize::MAX {
        usize::MAX as nat
    } else {
        a + b
    }
}

/// The first alias that the replacements already hold.
pub open spec fn first_taken(aliases: Seq<Seq<char>>, reps: Seq<(Seq<char>, Seq<char>)>, j: int) -> Option<Seq<char>>
    decreases aliases.len() - j,
{
    if j < 0 || j >= aliases.len() {
        None
    } else if key_index(reps, aliases[j], 0) >= 0 {
        Some(aliases[j])
    } else {
        first_taken(aliases, reps, j + 1)
    }
}

/// The replacements with every alias pointing at `url`.
pub open spec fn insert_all(reps: Seq<(Seq<char>, Seq<char>)>, aliases: Seq<Seq<char>>, url: Seq<char>) -> Seq<
    (Seq<char>, Seq<char>),
>
    decreases aliases.len(),
{
    if aliases.len() == 0 {
        reps
    } else {
        map_insert(insert_all(reps, aliases.drop_last(), url), aliases.last(), url)
    }
}

/// `add_local`: an attached image joins the plan, or why the course is refused.
pub open spec fn add_local_spec(p: AssetPlanView, r: AssetRecordView, aliases: Seq<Seq<char>>) -> Result<
    AssetPlanView,
    AssetErrorView,
> {
    let bytes = sat_add(p.local_bytes, r.size as nat);
    if bytes > MAX_TOTAL_BYTES {
        Err(AssetErrorView::LocalBytesExceeded)
    } else {
        match first_taken(aliases, p.replacements, 0) {
            Some(a) => Err(AssetErrorView::DuplicateAlias(a)),
            None => Ok(
                AssetPlanView {
                    local_bytes: bytes,
                    replacements: insert_all(p.replacements, aliases, protocol_url_spec(p.course_slug, r.id)),
                    records: records_without(p.records, r.id).push(r),
                    ..p
                },
            ),
        }
    }
}

impl AssetPlan {
    /// A plan for a course's images: the attached images it keeps from its
    /// manifest; with the manifest's downloaded images by source URL, to fall
    /// back on when a download fails.
    pub fn begin(course_slug: &str, existing: AssetManifest, attachment_count: usize) -> (r: Result<
        (AssetPlan, Vec<(String, AssetRecord)>),
        AssetError,
    >)
        ensures
            match r {
                Ok((plan, sources)) => {
                    &&& attachment_count <= MAX_IMAGE_COUNT
                    &&& plan@ == AssetPlanView {
                        course_slug: course_slug@,
                        base_url: None,
                        records: local_records(records_view(existing.assets@)),
                        replacements: Seq::empty(),
                        warnings: Seq::empty(),
                        local_bytes: 0,
                        total_bytes: 0,
                        downloaded: Seq::empty(),
                    }
                    &&& downloads_view(sources@) == remote_sources(records_view(existing.assets@))
                },
                Err(e) => attachment_count > MAX_IMAGE_COUNT && e@ == AssetErrorView::TooManyAttachments,
            },
    {
        if attachment_count > MAX_IMAGE_COUNT {
            return Err(AssetError::TooManyAttachments);
        }
        let ghost all = records_view(existing.assets@);
        let mut rest = existing.assets;
        let mut records: Vec<AssetRecord> = Vec::new();
        let mut sources: Vec<(String, AssetRecord)> = Vec::new();
        let ghost mut k: int = 0;
        while rest.len() > 0
            invariant
                0 <= k <= all.len(),
                records_view(rest@) == all.skip(k),
                records_view(records@) == local_records(all.take(k)),
                downloads_view(sources@) == remote_sources(all.take(k)),
            decreases rest@.len(),
        {
            let ghost rv = rest@;
            assert(records_view(rv).len() == rv.len());
            assert(k < all.len());
            let a = rest.remove(0);
            assert(records_view(rv)[0] == a@);
            assert(all.skip(k)[0] == all[k]);
            assert(all.take(k + 1).drop_last() =~= all.take(k));
            assert(all.take(k + 1).last() == a@);
            match a.ownership {
                AssetOwnership::Local => {
                    let ghost before = records_view(records@);
                    records.push(a);
                    assert(records_view(records@) =~= before.push(all[k]));
                },
                AssetOwnership::Remote => {
                    match parse_url(a.source.as_str()) {
                        Ok(u) => {
                            let ghost before = downloads_view(sources@);
                            sources.push((u.href_without_fragment, a));
                            assert(downloads_view(sources@) =~= before.push((u@.href_without_fragment, all[k])));
                        },
                        Err(_) => {},
                    }
                },
            }
            assert forall|i: int| 0 <= i < rest@.len() implies #[trigger] records_view(rest@)[i] == all.skip(k + 1)[i] by {
                assert(rest@[i] == rv[i + 1]);
                assert(records_view(rv)[i + 1] == all.skip(k)[i + 1]);
            }
            assert(records_view(rest@) =~= all.skip(k + 1));
            proof {
                k = k + 1;
            }
        }
        assert(all.take(k) =~= all);
        let plan = AssetPlan {
            course_slug: text(course_slug),
            base_url: None,
            records,
            replacements: Vec::new(),
            warnings: Vec::new(),
            local_bytes: 0,
            total_bytes: 0,
            downloaded: Vec::new(),
        };
        assert(pairs_view(plan.replacements@) =~= Seq::<(Seq<char>, Seq<char>)>::empty());
        assert(strs(plan.warnings@) =~= Seq::<Seq<char>>::empty());
        assert(downloads_view(plan.downloaded@) =~= Seq::<(Seq<char>, AssetRecordView)>::empty());
        Ok((plan, sources))
    }

    /// Adds an attached image: its aliases point at it, and it replaces any
    /// record with the same ID.
    pub fn add_local(&mut self, record: AssetRecord, aliases: Vec<String>) -> (r: Result<(), AssetError>)
        ensures
            match r {
                Ok(()) => add_local_spec(old(self)@, record@, strs(aliases@)) == Ok::<AssetPlanView, AssetErrorView>(
                    final(self)@,
                ),
                Err(e) => add_local_spec(old(self)@, record@, strs(aliases@)) == Err::<AssetPlanView, AssetErrorView>(
                    e@,
                ) && final(self)@ == old(self)@,
            },
    {
        let ghost p0 = self@;
        let ghost av = strs(aliases@);
        let bytes = self.local_bytes.saturating_add(record.size);
        if bytes > MAX_TOTAL_BYTES {
            return Err(AssetError::LocalBytesExceeded);
        }
        let mut j: usize = 0;
        while j < aliases.len()
            invariant
                j <= aliases@.len(),
                av == strs(aliases@),
                self@ == p0,
                bytes == sat_add(p0.local_bytes, record@.size as nat),
                bytes <= MAX_TOTAL_BYTES,
                first_taken(av, p0.replacements, 0) == first_taken(av, p0.replacements, j as int),
            decreases aliases@.len() - j,
        {
            assert(av[j as int] == aliases@[j as int]@);
            if find_key(&self.replacements, &aliases[j]).is_some() {
                assert(first_taken(av, p0.replacements, j as int) == Some(av[j as int]));
                assert(sat_add(p0.local_bytes, record@.size as nat) == bytes);
                assert(add_local_spec(p0, record@, av) == Err::<AssetPlanView, AssetErrorView>(
                    AssetErrorView::DuplicateAlias(av[j as int]),
                ));
                return Err(AssetError::DuplicateAlias(text(aliases[j].as_str())));
            }
            j += 1;
        }
        let url = protocol_url(self.course_slug.as_str(), record.id.as_str());
        let mut i: usize = 0;
        while i < aliases.len()
            invariant
                i <= aliases@.len(),
                av == strs(aliases@),
                url@ == protocol_url_spec(p0.course_slug, record@.id),
                bytes == sat_add(p0.local_bytes, record@.size as nat),
                bytes <= MAX_TOTAL_BYTES,
                first_taken(av, p0.replacements, 0).is_none(),
                self@ == (AssetPlanView { replacements: insert_all(p0.replacements, av.take(i as int), url@), ..p0 }),
            decreases aliases@.len() - i,
        {
            assert(av.take(i + 1).drop_last() =~= av.take(i as int));
            assert(av.take(i + 1).last() == aliases@[i as int]@);
            insert_pair(&mut self.replacements, text(aliases[i].as_str()), text(url.as_str()));
            i += 1;
        }
        assert(av.take(i as int) =~= av);
        let ghost rv = records_view(self.records@);
        let mut rest: Vec<AssetRecord> = Vec::new();
        std::mem::swap(&mut rest, &mut self.records);
        let mut kept: Vec<AssetRecord> = Vec::new();
        let ghost mut k: int = 0;
        while rest.len() > 0
            invariant
                0 <= k <= rv.len(),
                records_view(rest@) == rv.skip(k),
                records_view(kept@) == records_without(rv.take(k), record@.id),
            decreases rest@.len(),
        {
            let ghost restv = rest@;
            assert(records_view(restv).len() == restv.len());
            assert(k < rv.len());
            let a = rest.remove(0);
            assert(records_view(restv)[0] == a@);
            assert(rv.skip(k)[0] == rv[k]);
            assert(rv.take(k + 1).drop_last() =~= rv.take(k));
            assert(rv.take(k + 1).last() == a@);
            if !chars_eq(chars_of(a.id.as_str()).as_slice(), chars_of(record.id.as_str()).as_slice()) {
                let ghost before = records_view(kept@);
                kept.push(a);
                assert(records_view(kept@) =~= before.push(rv[k]));
            }
            assert forall|t: int| 0 <= t < rest@.len() implies #[trigger] records_view(rest@)[t] == rv.skip(k + 1)[t] by {
                assert(rest@[t] == restv[t + 1]);
                assert(records_view(restv)[t + 1] == rv.skip(k)[t + 1]);
            }
            assert(records_view(rest@) =~= rv.skip(k + 1));
            proof {
                k = k + 1;
            }
        }
        assert(rv.take(k) =~= rv);
        let ghost kv = records_view(kept@);
        kept.push(record);
        assert(records_view(kept@) =~= kv.push(record@));
        self.records = kept;
        self.local_bytes = bytes;
        Ok(())
    }

    /// Image references and attachments together may not exceed the per-course limit.
    pub fn check_image_count(image_count: usize, attachment_count: usize) -> (r: Result<(), AssetError>)
        ensures
            r is Ok <==> sat_add(image_count as nat, attachment_count as nat) <= MAX_IMAGE_COUNT,
            r matches Err(e) ==> e@ == AssetErrorView::TooManyImages,
    {
        if image_count.saturating_add(attachment_count) > MAX_IMAGE_COUNT {
            Err(AssetError::TooManyImages)
        } else {
            Ok(())
        }
    }

    /// The URL that relative image references are resolved against.
    pub fn set_base(&mut self, base_url: Option<&str>) -> (r: Result<(), AssetError>)
        ensures
            match base_url {
                Some(b) => match parsed_url_of(b@) {
                    Ok(_) => r is Ok && final(self)@ == (AssetPlanView { base_url: Some(b@), ..old(self)@ }),
                    Err(_) => r matches Err(e) && e@ == AssetErrorView::InvalidBaseUrl && final(self)@ == old(self)@,
                },
                None => r is Ok && final(self)@ == (AssetPlanView { base_url: None, ..old(self)@ }),
            },
    {
        match base_url {
            Some(b) => match parse_url(b) {
                Ok(_) => {
                    self.base_url = Some(text(b));
                    Ok(())
                },
                Err(_) => Err(AssetError::InvalidBaseUrl),
            },
            None => {
                self.base_url = None;
                Ok(())
            },
        }
    }
}

pub enum StepView {
    Done,
    Fetch(UrlView, Seq<char>),
}

impl View for ImageStep {
    type V = StepView;

    open spec fn view(&self) -> StepView {
        match self {
            ImageStep::Done => StepView::Done,
            ImageStep::Fetch { url, key } => StepView::Fetch(url@, key@),
        }
    }
}

/// The warning for an image left out.
pub open spec fn skipped_warning(original: Seq<char>, reason: Seq<char>) -> Seq<char> {
    "Skipped image `"@ + original + "`: "@ + reason
}

/// The warning for an image kept from the previous import.
pub open spec fn cached_warning(original: Seq<char>, reason: Seq<char>) -> Seq<char> {
    "Could not refresh image `"@ + original + "`; using cached copy: "@ + reason
}

/// `next_image`: what to do with an image reference, and the plan after it.
pub open spec fn next_image_spec(p: AssetPlanView, original: Seq<char>) -> (StepView, AssetPlanView) {
    if key_index(p.replacements, original, 0) >= 0 {
        (StepView::Done, p)
    } else {
        match resolve_spec(original, p.base_url) {
            Err(e) => (
                StepView::Done,
                AssetPlanView {
                    warnings: p.warnings.push(skipped_warning(original, asset_error_message(e))),
                    replacements: map_insert(p.replacements, original, missing_protocol_url_spec()),
                    ..p
                },
            ),
            Ok(u) => match first_source(p.downloaded, u.href_without_fragment, 0) {
                Some(rec) => (
                    StepView::Done,
                    AssetPlanView {
                        replacements: map_insert(p.replacements, original, protocol_url_spec(p.course_slug, rec.id)),
                        ..p
                    },
                ),
                None => (StepView::Fetch(u, u.href_without_fragment), p),
            },
        }
    }
}

/// `record_download`: the stored record of a fetched image, or a warning when
/// the course's total would be exceeded; with the stored file name and bytes.
pub open spec fn download_spec(p: AssetPlanView, original: Seq<char>, key: Seq<char>, bytes: Seq<u8>, media_type: Seq<
    char,
>, extension: Seq<char>, source: Seq<char>) -> (Option<(Seq<char>, Seq<u8>)>, AssetPlanView) {
    let total = sat_add(p.total_bytes, bytes.len());
    if total > MAX_TOTAL_BYTES {
        (
            None,
            AssetPlanView {
                warnings: p.warnings.push(skipped_warning(original, "total image size exceeds 50 MiB"@)),
                replacements: map_insert(p.replacements, original, missing_protocol_url_spec()),
                ..p
            },
        )
    } else {
        let hash = hex(sha256_of(bytes));
        let stored = hash + "."@ + extension;
        let rec = AssetRecordView {
            id: "remote-"@ + hash,
            source,
            path: "assets/remote/"@ + stored,
            media_type,
            size: bytes.len() as usize,
            sha256: digest_label(hash),
            ownership: AssetOwnership::Remote,
        };
        (
            Some((stored, bytes)),
            AssetPlanView {
                total_bytes: p.total_bytes + bytes.len(),
                replacements: map_insert(p.replacements, original, protocol_url_spec(p.course_slug, rec.id)),
                downloaded: p.downloaded.push((key, rec)),
                records: p.records.push(rec),
                ..p
            },
        )
    }
}

/// `record_failure`: a failed download falls back on the cached copy, if any.
pub open spec fn failure_spec(p: AssetPlanView, original: Seq<char>, key: Seq<char>, reason: Seq<char>, cached: Option<
    AssetRecordView,
>) -> AssetPlanView {
    match cached {
        Some(c) => AssetPlanView {
            records: p.records.push(c),
            downloaded: p.downloaded.push((key, c)),
            replacements: map_insert(p.replacements, original, protocol_url_spec(p.course_slug, c.id)),
            warnings: p.warnings.push(cached_warning(original, reason)),
            ..p
        },
        None => AssetPlanView {
            warnings: p.warnings.push(skipped_warning(original, reason)),
            replacements: map_insert(p.replacements, original, missing_protocol_url_spec()),
            ..p
        },
    }
}

fn find_download(downloaded: &Vec<(String, AssetRecord)>, key: &String) -> (r: Option<usize>)
    ensures
        match r {
            Some(i) => i < downloaded@.len() && first_source(downloads_view(downloaded@), key@, 0) == Some(
                downloaded@[i as int].1@,
            ),
            None => first_source(downloads_view(downloaded@), key@, 0).is_none(),
        },
{
    let ghost dv = downloads_view(downloaded@);
    let mut i: usize = 0;
    while i < downloaded.len()
        invariant
            i <= downloaded@.len(),
            dv == downloads_view(downloaded@),
            first_source(dv, key@, 0) == first_source(dv, key@, i as int),
        decreases downloaded@.len() - i,
    {
        assert(dv[i as int] == (downloaded@[i as int].0@, downloaded@[i as int].1@));
        if downloaded[i].0 == *key {
            return Some(i);
        }
        i += 1;
    }
    None
}

impl AssetPlan {
    /// Decides what to do with an image reference of the course.
    pub fn next_image(&mut self, original: &str) -> (step: ImageStep)
        ensures
            (step@, final(self)@) == next_image_spec(old(self)@, original@),
    {
        let o = text(original);
        if find_key(&self.replacements, &o).is_some() {
            return ImageStep::Done;
        }
        let base: Option<&str> = match &self.base_url {
            Some(b) => Some(b.as_str()),
            None => None,
        };
        assert(opt_str_view(base) == opt_string_view(self.base_url));
        match resolve_image_url(original, base) {
            Err(e) => {
                let ghost ws = strs(self.warnings@);
                let warning = concat4("Skipped image `", original, "`: ", e.message().as_str());
                self.warnings.push(warning);
                assert(strs(self.warnings@) =~= ws.push(skipped_warning(original@, asset_error_message(e@))));
                insert_pair(&mut self.replacements, o, missing_protocol_url());
                ImageStep::Done
            },
            Ok(url) => {
                let key = text(url.href_without_fragment.as_str());
                match find_download(&self.downloaded, &key) {
                    Some(i) => {
                        let target = protocol_url(self.course_slug.as_str(), self.downloaded[i].1.id.as_str());
                        insert_pair(&mut self.replacements, o, target);
                        ImageStep::Done
                    },
                    None => ImageStep::Fetch { url, key },
                }
            },
        }
    }

    /// Stores a fetched image, unless it would exceed the course's total; returns
    /// the file name and bytes to store.
    pub fn record_download(&mut self, original: &str, key: String, image: DownloadedImage) -> (r: Option<
        (String, Vec<u8>),
    >)
        ensures
            ({
                let (out, next) = download_spec(
                    old(self)@,
                    original@,
                    key@,
                    image.bytes@,
                    image.media_type@,
                    image.extension@,
                    image.source@,
                );
                &&& final(self)@ == next
                &&& match r {
                    Some((name, bytes)) => out == Some((name@, bytes@)),
                    None => out.is_none(),
                }
            }),
    {
        let DownloadedImage { bytes, media_type, extension, source } = image;
        let n = bytes.len();
        let total = self.total_bytes.saturating_add(n);
        if total > MAX_TOTAL_BYTES {
            let ghost ws = strs(self.warnings@);
            self.warnings.push(concat4("Skipped image `", original, "`: ", "total image size exceeds 50 MiB"));
            assert(strs(self.warnings@) =~= ws.push(skipped_warning(original@, "total image size exceeds 50 MiB"@)));
            insert_pair(&mut self.replacements, text(original), missing_protocol_url());
            return None;
        }
        self.total_bytes = total;
        let digest = sha256(bytes.as_slice());
        let hash = string_of(hex_chars(digest.as_slice()).as_slice());
        let stored = concat3(hash.as_str(), ".", extension.as_str());
        let record = AssetRecord {
            id: concat2("remote-", hash.as_str()),
            source,
            path: concat2("assets/remote/", stored.as_str()),
            media_type,
            size: n,
            sha256: concat2("sha256:", hash.as_str()),
            ownership: AssetOwnership::Remote,
        };
        let target = protocol_url(self.course_slug.as_str(), record.id.as_str());
        insert_pair(&mut self.replacements, text(original), target);
        let ghost dv = downloads_view(self.downloaded@);
        self.downloaded.push((key, copy_record(&record)));
        assert(downloads_view(self.downloaded@) =~= dv.push((key@, record@)));
        let ghost rv = records_view(self.records@);
        self.records.push(record);
        assert(records_view(self.records@) =~= rv.push(self.records@.last()@));
        Some((stored, bytes))
    }

    /// Records a failed download: the cached copy when there is one, else the
    /// image is skipped; either way with a warning.
    pub fn record_failure(&mut self, original: &str, key: String, reason: &str, cached: Option<AssetRecord>)
        ensures
            final(self)@ == failure_spec(
                old(self)@,
                original@,
                key@,
                reason@,
                match cached {
                    Some(c) => Some(c@),
                    None => None,
                },
            ),
    {
        match cached {
            Some(c) => {
                let target = protocol_url(self.course_slug.as_str(), c.id.as_str());
                let ghost dv = downloads_view(self.downloaded@);
                self.downloaded.push((key, copy_record(&c)));
                assert(downloads_view(self.downloaded@) =~= dv.push((key@, c@)));
                let ghost rv = records_view(self.records@);
                self.records.push(c);
                assert(records_view(self.records@) =~= rv.push(self.records@.last()@));
                insert_pair(&mut self.replacements, text(original), target);
                let ghost ws = strs(self.warnings@);
                self.warnings.push(concat4("Could not refresh image `", original, "`; using cached copy: ", reason));
                assert(strs(self.warnings@) =~= ws.push(cached_warning(original@, reason@)));
            },
            None => {
                let ghost ws = strs(self.warnings@);
                self.warnings.push(concat4("Skipped image `", original, "`: ", reason));
                assert(strs(self.warnings@) =~= ws.push(skipped_warning(original@, reason@)));
                insert_pair(&mut self.replacements, text(original), missing_protocol_url());
            },
        }
    }
}

/// Records sorted by ID, keeping the order of equal IDs.
pub open spec fn sorted_by_id(r: Seq<AssetRecordView>) -> Seq<AssetRecordView> {
    payloads(keyed_sort(r.map_values(|a: AssetRecordView| (a.id, a))))
}

/* Where image references point */

/// A record with this ID is among the records.
pub open spec fn has_record(records: Seq<AssetRecordView>, id: Seq<char>) -> bool {
    exists|j: int| 0 <= j < records.len() && #[trigger] records[j].id == id
}

/// A reference target is the missing image, or the stored copy of one of the records.
pub open spec fn points_at_stored(slug: Seq<char>, records: Seq<AssetRecordView>, target: Seq<char>) -> bool {
    target == missing_protocol_url_spec() || exists|j: int|
        0 <= j < records.len() && target == protocol_url_spec(slug, #[trigger] records[j].id)
}

/// Every reference of the plan points at a kept record or at the missing image,
/// and every download it remembers is a kept record.
pub open spec fn targets_stored(p: AssetPlanView) -> bool {
    &&& forall|i: int|
        #![trigger p.replacements[i]]
        0 <= i < p.replacements.len() ==> points_at_stored(p.course_slug, p.records, p.replacements[i].1)
    &&& forall|k: int|
        #![trigger p.downloaded[k]]
        0 <= k < p.downloaded.len() ==> has_record(p.records, p.downloaded[k].1.id)
}

proof fn lemma_key_index_range(pairs: Seq<(Seq<char>, Seq<char>)>, key: Seq<char>, j: int)
    ensures
        key_index(pairs, key, j) == -1 || (0 <= j <= key_index(pairs, key, j) < pairs.len()),
    decreases pairs.len() - j,
{
    if 0 <= j < pairs.len() && pairs[j].0 != key {
        lemma_key_index_range(pairs, key, j + 1);
    }
}

/// After `map_insert`, each entry is the old entry at its place or carries the new value.
proof fn lemma_map_insert_entries(pairs: Seq<(Seq<char>, Seq<char>)>, key: Seq<char>, value: Seq<char>)
    ensures
        forall|i: int|
            #![trigger map_insert(pairs, key, value)[i]]
            0 <= i < map_insert(pairs, key, value).len() ==> map_insert(pairs, key, value)[i].1 == value || (i
                < pairs.len() && map_insert(pairs, key, value)[i] == pairs[i]),
{
    lemma_key_index_range(pairs, key, 0);
}

/// Targets that point at stored records keep doing so when every record's ID stays.
proof fn lemma_targets_superset(p: AssetPlanView, records: Seq<AssetRecordView>)
    requires
        targets_stored(p),
        forall|j: int| 0 <= j < p.records.len() ==> has_record(records, #[trigger] p.records[j].id),
    ensures
        targets_stored(AssetPlanView { records, ..p }),
{
    let q = AssetPlanView { records, ..p };
    assert forall|i: int| 0 <= i < q.replacements.len() implies points_at_stored(
        q.course_slug,
        q.records,
        #[trigger] q.replacements[i].1,
    ) by {
        assert(points_at_stored(p.course_slug, p.records, p.replacements[i].1));
        let t = p.replacements[i].1;
        if t != missing_protocol_url_spec() {
            let j = choose|j: int| 0 <= j < p.records.len() && t == protocol_url_spec(p.course_slug, #[trigger] p.records[j].id);
            assert(has_record(records, p.records[j].id));
            let w = choose|w: int| 0 <= w < records.len() && #[trigger] records[w].id == p.records[j].id;
            assert(t == protocol_url_spec(q.course_slug, records[w].id));
        }
    }
    assert forall|k: int| 0 <= k < q.downloaded.len() implies has_record(q.records, #[trigger] q.downloaded[k].1.id) by {
        assert(has_record(p.records, p.downloaded[k].1.id));
        let j = choose|j: int| 0 <= j < p.records.len() && #[trigger] p.records[j].id == p.downloaded[k].1.id;
        assert(has_record(records, p.records[j].id));
    }
}

/// Inserting a target that points at a stored record keeps the targets stored.
proof fn lemma_targets_insert(p: AssetPlanView, key: Seq<char>, value: Seq<char>)
    requires
        targets_stored(p),
        points_at_stored(p.course_slug, p.records, value),
    ensures
        targets_stored(AssetPlanView { replacements: map_insert(p.replacements, key, value), ..p }),
{
    lemma_map_insert_entries(p.replacements, key, value);
    let q = AssetPlanView { replacements: map_insert(p.replacements, key, value), ..p };
    assert forall|i: int| 0 <= i < q.replacements.len() implies points_at_stored(
        q.course_slug,
        q.records,
        #[trigger] q.replacements[i].1,
    ) by {
        if q.replacements[i].1 != value {
            assert(q.replacements[i] == p.replacements[i]);
        }
    }
}

proof fn lemma_targets_insert_all(p: AssetPlanView, aliases: Seq<Seq<char>>, value: Seq<char>)
    requires
        targets_stored(p),
        points_at_stored(p.course_slug, p.records, value),
    ensures
        targets_stored(AssetPlanView { replacements: insert_all(p.replacements, aliases, value), ..p }),
    decreases aliases.len(),
{
    if aliases.len() > 0 {
        lemma_targets_insert_all(p, aliases.drop_last(), value);
        let q = AssetPlanView { replacements: insert_all(p.replacements, aliases.drop_last(), value), ..p };
        lemma_targets_insert(q, aliases.last(), value);
    }
}

proof fn lemma_without_keeps(records: Seq<AssetRecordView>, id: Seq<char>, x: Seq<char>)
    requires
        has_record(records, x),
        x != id,
    ensures
        has_record(records_without(records, id), x),
    decreases records.len(),
{
    let j = choose|j: int| 0 <= j < records.len() && #[trigger] records[j].id == x;
    let rest = records_without(records.drop_last(), id);
    if j == records.len() - 1 {
        assert(records_without(records, id) == rest.push(records.last()));
        assert(records_without(records, id)[rest.len() as int].id == x);
    } else {
        assert(records.drop_last()[j].id == x);
        lemma_without_keeps(records.drop_last(), id, x);
        let w = choose|w: int| 0 <= w < rest.len() && #[trigger] rest[w].id == x;
        if records.last().id == id {
            assert(records_without(records, id) == rest);
        } else {
            assert(records_without(records, id)[w] == rest[w]);
        }
    }
}

proof fn lemma_first_source_member(sources: Seq<(Seq<char>, AssetRecordView)>, key: Seq<char>, j: int)
    ensures
        first_source(sources, key, j) matches Some(r) ==> exists|k: int|
            0 <= k < sources.len() && #[trigger] sources[k].1 == r,
    decreases sources.len() - j,
{
    if 0 <= j < sources.len() {
        if sources[j].0 == key {
            assert(sources[j].1 == first_source(sources, key, j)->Some_0);
        } else {
            lemma_first_source_member(sources, key, j + 1);
        }
    }
}

/// A plan that `begin` starts, with no reference placed and nothing downloaded,
/// has its targets stored.
pub proof fn lemma_fresh_plan_targets(p: AssetPlanView)
    requires
        p.replacements.len() == 0,
        p.downloaded.len() == 0,
    ensures
        targets_stored(p),
{
}

/// Each image reference of a course's plan points at the stored copy of a
/// record the plan keeps, or at the missing image; every step of the plan keeps
/// it so, and the manifest written at the end lists every record a reference
/// points at.
pub proof fn lemma_image_targets_stored(
    p: AssetPlanView,
    r: AssetRecordView,
    aliases: Seq<Seq<char>>,
    original: Seq<char>,
    key: Seq<char>,
    bytes: Seq<u8>,
    media_type: Seq<char>,
    extension: Seq<char>,
    source: Seq<char>,
    reason: Seq<char>,
    cached: Option<AssetRecordView>,
)
    requires
        targets_stored(p),
    ensures
        add_local_spec(p, r, aliases) matches Ok(q) ==> targets_stored(q),
        targets_stored(next_image_spec(p, original).1),
        targets_stored(download_spec(p, original, key, bytes, media_type, extension, source).1),
        targets_stored(failure_spec(p, original, key, reason, cached)),
        forall|i: int|
            #![trigger p.replacements[i]]
            0 <= i < p.replacements.len() ==> points_at_stored(p.course_slug, sorted_by_id(p.records), p.replacements[i].1),
{
    // A fresh missing target.
    assert(points_at_stored(p.course_slug, p.records, missing_protocol_url_spec()));
    // add_local
    if add_local_spec(p, r, aliases) is Ok {
        let recs = records_without(p.records, r.id).push(r);
        assert(recs[recs.len() - 1] == r);
        assert forall|j: int| 0 <= j < p.records.len() implies has_record(recs, #[trigger] p.records[j].id) by {
            if p.records[j].id == r.id {
                assert(recs[recs.len() - 1].id == p.records[j].id);
            } else {
                assert(has_record(p.records, p.records[j].id));
                lemma_without_keeps(p.records, r.id, p.records[j].id);
                let w = choose|w: int|
                    0 <= w < records_without(p.records, r.id).len() && #[trigger] records_without(p.records, r.id)[w].id
                        == p.records[j].id;
                assert(recs[w] == records_without(p.records, r.id)[w]);
            }
        }
        lemma_targets_superset(p, recs);
        let p1 = AssetPlanView { records: recs, ..p };
        assert(points_at_stored(p1.course_slug, p1.records, protocol_url_spec(p.course_slug, r.id)));
        lemma_targets_insert_all(p1, aliases, protocol_url_spec(p.course_slug, r.id));
        assert(add_local_spec(p, r, aliases) == Ok::<AssetPlanView, AssetErrorView>(
            AssetPlanView {
                local_bytes: sat_add(p.local_bytes, r.size as nat),
                replacements: insert_all(p.replacements, aliases, protocol_url_spec(p.course_slug, r.id)),
                records: recs,
                ..p
            },
        ));
        let q = add_local_spec(p, r, aliases)->Ok_0;
        let p2 = AssetPlanView { replacements: insert_all(p.replacements, aliases, protocol_url_spec(p.course_slug, r.id)), ..p1 };
        assert(q.replacements == p2.replacements && q.records == p2.records && q.course_slug == p2.course_slug
            && q.downloaded == p2.downloaded);
        assert(targets_stored(q));
    }
    // next_image
    lemma_targets_insert(p, original, missing_protocol_url_spec());
    if key_index(p.replacements, original, 0) < 0 {
        if let Ok(u) = resolve_spec(original, p.base_url) {
            lemma_first_source_member(p.downloaded, u.href_without_fragment, 0);
            if let Some(rec) = first_source(p.downloaded, u.href_without_fragment, 0) {
                let k = choose|k: int| 0 <= k < p.downloaded.len() && #[trigger] p.downloaded[k].1 == rec;
                assert(has_record(p.records, p.downloaded[k].1.id));
                lemma_targets_insert(p, original, protocol_url_spec(p.course_slug, rec.id));
            }
        }
    }
    // record_download
    if sat_add(p.total_bytes, bytes.len()) <= MAX_TOTAL_BYTES {
        let (_, q) = download_spec(p, original, key, bytes, media_type, extension, source);
        let rec = q.records.last();
        let recs = p.records.push(rec);
        assert forall|j: int| 0 <= j < p.records.len() implies has_record(recs, #[trigger] p.records[j].id) by {
            assert(recs[j] == p.records[j]);
        }
        lemma_targets_superset(p, recs);
        let p1 = AssetPlanView { records: recs, ..p };
        assert(recs[recs.len() - 1] == rec);
        assert(points_at_stored(p1.course_slug, p1.records, protocol_url_spec(p.course_slug, rec.id)));
        lemma_targets_insert(p1, original, protocol_url_spec(p.course_slug, rec.id));
        let p2 = AssetPlanView { replacements: map_insert(p.replacements, original, protocol_url_spec(p.course_slug, rec.id)), ..p1 };
        assert forall|k: int| 0 <= k < q.downloaded.len() implies has_record(q.records, #[trigger] q.downloaded[k].1.id) by {
            if k < p.downloaded.len() {
                assert(q.downloaded[k] == p2.downloaded[k]);
            } else {
                assert(q.records[q.records.len() - 1].id == q.downloaded[k].1.id);
            }
        }
        assert(q.replacements == p2.replacements && q.records == p2.records && q.course_slug == p2.course_slug);
        assert(targets_stored(q));
    } else {
        let q = download_spec(p, original, key, bytes, media_type, extension, source).1;
        let p1 = AssetPlanView { replacements: map_insert(p.replacements, original, missing_protocol_url_spec()), ..p };
        assert(q.replacements == p1.replacements && q.records == p1.records && q.course_slug == p1.course_slug
            && q.downloaded == p1.downloaded);
        assert(targets_stored(q));
    }
    // record_failure
    if let Some(c) = cached {
        let recs = p.records.push(c);
        assert forall|j: int| 0 <= j < p.records.len() implies has_record(recs, #[trigger] p.records[j].id) by {
            assert(recs[j] == p.records[j]);
        }
        lemma_targets_superset(p, recs);
        let p1 = AssetPlanView { records: recs, ..p };
        assert(recs[recs.len() - 1] == c);
        assert(points_at_stored(p1.course_slug, p1.records, protocol_url_spec(p.course_slug, c.id)));
        lemma_targets_insert(p1, original, protocol_url_spec(p.course_slug, c.id));
        let q = failure_spec(p, original, key, reason, cached);
        let p2 = AssetPlanView { replacements: map_insert(p.replacements, original, protocol_url_spec(p.course_slug, c.id)), ..p1 };
        assert forall|k: int| 0 <= k < q.downloaded.len() implies has_record(q.records, #[trigger] q.downloaded[k].1.id) by {
            if k < p.downloaded.len() {
                assert(q.downloaded[k] == p2.downloaded[k]);
            } else {
                assert(q.records[q.records.len() - 1].id == q.downloaded[k].1.id);
            }
        }
        assert(q.replacements == p2.replacements && q.records == p2.records && q.course_slug == p2.course_slug);
        assert(targets_stored(q));
    } else {
        let q = failure_spec(p, original, key, reason, cached);
        let p1 = AssetPlanView { replacements: map_insert(p.replacements, original, missing_protocol_url_spec()), ..p };
        assert(q.replacements == p1.replacements && q.records == p1.records && q.course_slug == p1.course_slug
            && q.downloaded == p1.downloaded);
        assert(targets_stored(q));
    }
    // the written manifest
    let entries = p.records.map_values(|a: AssetRecordView| (a.id, a));
    lemma_keyed_sort_keeps(entries);
    let sorted = keyed_sort(entries);
    assert forall|i: int|
        #![trigger p.replacements[i]]
        0 <= i < p.replacements.len() implies points_at_stored(p.course_slug, sorted_by_id(p.records), p.replacements[i].1) by {
        let t = p.replacements[i].1;
        if t != missing_protocol_url_spec() {
            let j = choose|j: int| 0 <= j < p.records.len() && t == protocol_url_spec(p.course_slug, #[trigger] p.records[j].id);
            assert(entries[j] == (p.records[j].id, p.records[j]));
            assert(entries.contains(entries[j]));
            assert(sorted.contains(entries[j]));
            let v = choose|v: int| 0 <= v < sorted.len() && sorted[v] == entries[j];
            assert(sorted_by_id(p.records)[v] == p.records[j]);
        }
    }
}

spec fn record_entries(s: Seq<(Seq<char>, AssetRecord)>) -> Seq<(Seq<char>, AssetRecordView)> {
    map_payload(s, |a: AssetRecord| a@)
}

/// Sorts records by ID, as the manifest is written.
pub fn sort_records(records: Vec<AssetRecord>) -> (out: Vec<AssetRecord>)
    ensures
        records_view(out@) == sorted_by_id(records_view(records@)),
{
    let ghost rv0 = records_view(records@);
    let mut rest = records;
    let mut items: Vec<(Vec<char>, AssetRecord)> = Vec::new();
    let ghost mut k: int = 0;
    while rest.len() > 0
        invariant
            0 <= k <= rv0.len(),
            records_view(rest@) == rv0.skip(k),
            record_entries(keyed_view(items@)) == rv0.take(k).map_values(|a: AssetRecordView| (a.id, a)),
        decreases rest@.len(),
    {
        let ghost rv = rest@;
        assert(records_view(rv).len() == rv.len());
        assert(k < rv0.len());
        let x = rest.remove(0);
        assert(records_view(rv)[0] == x@);
        assert(rv0.skip(k)[0] == rv0[k]);
        let ghost before = keyed_view(items@);
        let key = chars_of(x.id.as_str());
        items.push((key, x));
        assert(keyed_view(items@) =~= before.push((rv0[k].id, x)));
        assert(record_entries(keyed_view(items@)) =~= record_entries(before).push((rv0[k].id, rv0[k])));
        assert(rv0.take(k + 1) =~= rv0.take(k).push(rv0[k]));
        assert(rv0.take(k + 1).map_values(|a: AssetRecordView| (a.id, a)) =~= rv0.take(k).map_values(
            |a: AssetRecordView| (a.id, a),
        ).push((rv0[k].id, rv0[k])));
        assert forall|i: int| 0 <= i < rest@.len() implies #[trigger] records_view(rest@)[i] == rv0.skip(k + 1)[i] by {
            assert(rest@[i] == rv[i + 1]);
            assert(records_view(rv)[i + 1] == rv0.skip(k)[i + 1]);
        }
        assert(records_view(rest@) =~= rv0.skip(k + 1));
        proof {
            k = k + 1;
        }
    }
    assert(rv0.take(k) =~= rv0);
    let ghost keyed = keyed_view(items@);
    let sorted = keyed_sort_exec(items);
    proof {
        lemma_sort_map_payload(keyed, |a: AssetRecord| a@);
    }
    let ghost sv = keyed_view(sorted@);
    assert(record_entries(sv) == keyed_sort(rv0.map_values(|a: AssetRecordView| (a.id, a))));
    let mut rest2 = sorted;
    let mut out: Vec<AssetRecord> = Vec::new();
    let ghost mut j: int = 0;
    while rest2.len() > 0
        invariant
            0 <= j <= sv.len(),
            keyed_view(rest2@) == sv.skip(j),
            records_view(out@) == payloads(record_entries(sv.take(j))),
        decreases rest2@.len(),
    {
        let ghost rv = rest2@;
        assert(keyed_view(rv).len() == rv.len());
        assert(j < sv.len());
        let p = rest2.remove(0);
        assert(keyed_view(rv)[0] == (p.0@, p.1));
        assert(sv.skip(j)[0] == sv[j]);
        let ghost o = records_view(out@);
        out.push(p.1);
        assert(sv.take(j + 1) =~= sv.take(j).push(sv[j]));
        assert(records_view(out@) =~= o.push(sv[j].1@));
        assert(payloads(record_entries(sv.take(j + 1))) =~= payloads(record_entries(sv.take(j))).push(sv[j].1@));
        assert forall|i: int| 0 <= i < rest2@.len() implies #[trigger] keyed_view(rest2@)[i] == sv.skip(j + 1)[i] by {
            assert(rest2@[i] == rv[i + 1]);
            assert(keyed_view(rv)[i + 1] == sv.skip(j)[i + 1]);
        }
        assert(keyed_view(rest2@) =~= sv.skip(j + 1));
        proof {
            j = j + 1;
        }
    }
    assert(sv.take(j) =~= sv);
    out
}

impl AssetPlan {
    /// The course's asset manifest (records sorted by ID), where each image
    /// reference points now, and the warnings.
    pub fn finish(self) -> (r: (AssetManifest, Vec<(String, String)>, Vec<String>))
        ensures
            records_view(r.0.assets@) == sorted_by_id(self@.records),
            pairs_view(r.1@) == self@.replacements,
            strs(r.2@) == self@.warnings,
    {
        let AssetPlan { records, replacements, warnings, .. } = self;
        (AssetManifest { assets: sort_records(records) }, replacements, warnings)
    }
}

} // verus!
