//! YouTube playlists: playlist links, and the videos and continuation tokens
//! found in the playlist data that YouTube returns.
use vstd::prelude::*;

use crate::json::{
    as_array, as_str, get, get_opt, json_array, json_get, json_get_opt, json_str, opt_ref_view, Json,
};
use crate::text::{
    digit_char, digit_value, digits_value, is_ascii_digit, lemma_decimal_digits, lemma_decimal_value,
    lemma_digit_char_value,
    all_digits, append_chars, chars_eq, chars_of, decimal, decimal2, decimal2_chars, decimal_chars,
    find_chars, find_str, has_prefix, lower, parse_u64, parse_u64_spec, slice_chars, split,
    split_chars, starts_with,
    string_of, to_ascii_lowercase, trim, trim_chars,
};
use crate::urls::{parse_url, parsed_url_of, UrlView};

verus! {

/// A video of a playlist.
#[derive(Debug, Clone, PartialEq, Eq)]
pub struct VideoInfo {
    pub video_id: String,
    pub title: String,
    pub duration: Option<String>,
    pub duration_seconds: Option<u64>,
    pub thumbnail_url: Option<String>,
    pub url: String,
    pub embed_url: String,
}

/// A fetched playlist, ready to become a video course.
#[derive(Debug, Clone, PartialEq, Eq)]
pub struct VideoPlaylistPreview {
    pub playlist_id: String,
    pub playlist_title: String,
    pub playlist_url: String,
    pub video_count: usize,
    pub videos: Vec<VideoInfo>,
}

pub struct VideoView {
    pub video_id: Seq<char>,
    pub title: Seq<char>,
    pub duration: Option<Seq<char>>,
    pub duration_seconds: Option<u64>,
    pub thumbnail_url: Option<Seq<char>>,
    pub url: Seq<char>,
    pub embed_url: Seq<char>,
}

pub open spec fn opt_string_view(o: Option<String>) -> Option<Seq<char>> {
    match o {
        Some(s) => Some(s@),
        None => None,
    }
}

impl View for VideoInfo {
    type V = VideoView;

    open spec fn view(&self) -> VideoView {
        VideoView {
            video_id: self.video_id@,
            title: self.title@,
            duration: opt_string_view(self.duration),
            duration_seconds: self.duration_seconds,
            thumbnail_url: opt_string_view(self.thumbnail_url),
            url: self.url@,
            embed_url: self.embed_url@,
        }
    }
}

pub open spec fn videos_view(v: Seq<VideoInfo>) -> Seq<VideoView> {
    v.map_values(|x: VideoInfo| x@)
}

/// Why a playlist cannot be imported.
#[derive(Debug, Clone, Copy, PartialEq, Eq)]
pub enum YoutubeError {
    InvalidUrl,
    MissingHost,
    NotYoutube,
    MissingPlaylistId,
    InvalidPlaylistId,
    PlaylistTooLarge,
    NoVideos,
    MissingPlaylistData,
    MissingApiKey,
    MissingClientVersion,
}

pub open spec fn youtube_error_message(e: YoutubeError) -> Seq<char> {
    match e {
        YoutubeError::InvalidUrl => "enter a valid YouTube playlist URL"@,
        YoutubeError::MissingHost => "YouTube playlist URL must include a host"@,
        YoutubeError::NotYoutube => "only YouTube playlist URLs are supported"@,
        YoutubeError::MissingPlaylistId => "YouTube URL must include a playlist ID in the `list` parameter"@,
        YoutubeError::InvalidPlaylistId => "YouTube playlist ID contains invalid characters"@,
        YoutubeError::PlaylistTooLarge => "playlist is too large to import safely"@,
        YoutubeError::NoVideos => "no videos were found in this playlist; it may be empty, private, or unavailable"@,
        YoutubeError::MissingPlaylistData => "YouTube did not return playlist data; the playlist may be private or unavailable"@,
        YoutubeError::MissingApiKey => "YouTube did not provide the key needed to fetch the complete playlist"@,
        YoutubeError::MissingClientVersion => "YouTube did not provide the client version needed to fetch the complete playlist"@,
    }
}

impl YoutubeError {
    /// The human-readable message of the error.
    pub fn message(&self) -> (m: String)
        ensures
            m@ == youtube_error_message(*self),
    {
        let text = match self {
            YoutubeError::InvalidUrl => chars_of("enter a valid YouTube playlist URL"),
            YoutubeError::MissingHost => chars_of("YouTube playlist URL must include a host"),
            YoutubeError::NotYoutube => chars_of("only YouTube playlist URLs are supported"),
            YoutubeError::MissingPlaylistId => chars_of(
                "YouTube URL must include a playlist ID in the `list` parameter",
            ),
            YoutubeError::InvalidPlaylistId => chars_of(
                "YouTube playlist ID contains invalid characters",
            ),
            YoutubeError::PlaylistTooLarge => chars_of("playlist is too large to import safely"),
            YoutubeError::NoVideos => chars_of(
                "no videos were found in this playlist; it may be empty, private, or unavailable",
            ),
            YoutubeError::MissingPlaylistData => chars_of(
                "YouTube did not return playlist data; the playlist may be private or unavailable",
            ),
            YoutubeError::MissingApiKey => chars_of(
                "YouTube did not provide the key needed to fetch the complete playlist",
            ),
            YoutubeError::MissingClientVersion => chars_of(
                "YouTube did not provide the client version needed to fetch the complete playlist",
            ),
        };
        string_of(text.as_slice())
    }
}

/* Playlist links */

/// `s.trim_start_matches(p)`: `s` without any number of leading copies of `p`.
pub open spec fn trim_start_matches(s: Seq<char>, p: Seq<char>) -> Seq<char>
    decreases s.len(),
{
    if p.len() > 0 && has_prefix(s, p) {
        trim_start_matches(s.skip(p.len() as int), p)
    } else {
        s
    }
}

/// A character allowed in a playlist ID.
pub open spec fn is_playlist_id_char(c: char) -> bool {
    ('a' <= c && c <= 'z') || ('A' <= c && c <= 'Z') || ('0' <= c && c <= '9') || c == '-' || c == '_'
}

/// The value of the first query pair named `key`.
pub open spec fn first_query_value(query: Seq<(Seq<char>, Seq<char>)>, key: Seq<char>, j: int) -> Option<Seq<char>>
    decreases query.len() - j,
{
    if j < 0 || j >= query.len() {
        None
    } else if query[j].0 == key {
        Some(query[j].1)
    } else {
        first_query_value(query, key, j + 1)
    }
}

/// A playlist ID given by the `list` parameter, when it is present, not blank
/// and made of letters, digits, `-` and `_` only.
pub open spec fn list_param_result(list: Option<Seq<char>>) -> Result<Seq<char>, YoutubeError> {
    match list {
        None => Err(YoutubeError::MissingPlaylistId),
        Some(id) => if trim(id).len() == 0 {
            Err(YoutubeError::MissingPlaylistId)
        } else if !(forall|i: int| 0 <= i < id.len() ==> is_playlist_id_char(#[trigger] id[i])) {
            Err(YoutubeError::InvalidPlaylistId)
        } else {
            Ok(id)
        },
    }
}

fn valid_playlist_id(id: &[char]) -> (r: bool)
    ensures
        r == (forall|i: int| 0 <= i < id@.len() ==> is_playlist_id_char(#[trigger] id@[i])),
{
    let mut k: usize = 0;
    while k < id.len()
        invariant
            k <= id@.len(),
            forall|i: int| 0 <= i < k ==> is_playlist_id_char(#[trigger] id@[i]),
        decreases id@.len() - k,
    {
        let c = id[k];
        if !(('a' <= c && c <= 'z') || ('A' <= c && c <= 'Z') || ('0' <= c && c <= '9') || c == '-'
            || c == '_') {
            assert(!is_playlist_id_char(id@[k as int]));
            return false;
        }
        k += 1;
    }
    true
}

/// `playlist_id_from_url`: the `list` parameter of a YouTube, mobile YouTube or
/// YouTube Music link.
pub open spec fn playlist_id_spec(input: Seq<char>) -> Result<Seq<char>, YoutubeError> {
    match parsed_url_of(trim(input)) {
        Err(_) => Err(YoutubeError::InvalidUrl),
        Ok(url) => match url.host {
            None => Err(YoutubeError::MissingHost),
            Some(h) => {
                let host = lower(trim_start_matches(h, "www."@));
                if host != "youtube.com"@ && host != "m.youtube.com"@ && host != "music.youtube.com"@ {
                    Err(YoutubeError::NotYoutube)
                } else {
                    list_param_result(first_query_value(url.query, "list"@, 0))
                }
            },
        },
    }
}

/// A link to YouTube, mobile YouTube or YouTube Music (its host, with or
/// without a leading `www.`, equal to `youtube.com`, `m.youtube.com` or
/// `music.youtube.com` up to ASCII case) whose first `list` query value is a
/// non-empty run of letters, digits, `-` and `_` yields that value as the
/// playlist ID.
pub proof fn lemma_youtube_links_give_their_list(
    input: Seq<char>,
    url: UrlView,
    www: Seq<char>,
    name: Seq<char>,
    id: Seq<char>,
)
    requires
        parsed_url_of(trim(input)) == Ok::<UrlView, Seq<char>>(url),
        url.host == Some(www + name),
        www == Seq::<char>::empty() || www == "www."@,
        lower(name) == "youtube.com"@ || lower(name) == "m.youtube.com"@ || lower(name) == "music.youtube.com"@,
        first_query_value(url.query, "list"@, 0) == Some(id),
        id.len() > 0,
        forall|i: int| 0 <= i < id.len() ==> is_playlist_id_char(#[trigger] id[i]),
    ensures
        playlist_id_spec(input) == Ok::<Seq<char>, YoutubeError>(id),
{
    reveal_strlit("www.");
    reveal_strlit("youtube.com");
    reveal_strlit("m.youtube.com");
    reveal_strlit("music.youtube.com");
    let p = "www."@;
    let h = www + name;
    assert(name.len() == lower(name).len());
    assert(lower(name)[0] == crate::text::ascii_lower(name[0]));
    assert(name[0] != 'w');
    assert(!has_prefix(name, p)) by {
        if has_prefix(name, p) {
            assert(name.take(4)[0] == name[0]);
        }
    }
    assert(trim_start_matches(name, p) == name);
    if www == p {
        assert(has_prefix(h, p)) by {
            assert(h.take(4) =~= p);
        }
        assert(h.skip(4) =~= name);
        assert(trim_start_matches(h, p) == trim_start_matches(name, p));
    } else {
        assert(h =~= name);
    }
    assert(!crate::text::is_whitespace(id[0]));
    assert(!crate::text::is_whitespace(id.last()));
    assert(crate::text::trim_start(id) == id);
    assert(crate::text::trim_end(id) == id);
}

pub fn trim_start_matches_exec(s: &[char], p: &[char]) -> (out: Vec<char>)
    ensures
        out@ == trim_start_matches(s@, p@),
{
    let mut i: usize = 0;
    assert(s@.skip(0) =~= s@);
    while p.len() > 0 && i <= s.len() && starts_with(&slice_chars(s, i, s.len()), p)
        invariant
            i <= s.len(),
            trim_start_matches(s@, p@) == trim_start_matches(s@.skip(i as int), p@),
        decreases s.len() - i,
    {
        proof {
            assert(s@.subrange(i as int, s@.len() as int) =~= s@.skip(i as int));
            assert(s@.skip(i as int).skip(p@.len() as int) =~= s@.skip(i + p@.len()));
        }
        i = i + p.len();
    }
    let rest = slice_chars(s, i, s.len());
    assert(rest@ =~= s@.skip(i as int));
    rest
}

/// The playlist ID in the `list` parameter of a YouTube playlist or watch URL.
pub fn playlist_id_from_url(input: &str) -> (r: Result<String, YoutubeError>)
    ensures
        match r {
            Ok(id) => playlist_id_spec(input@) == Ok::<Seq<char>, YoutubeError>(id@),
            Err(e) => playlist_id_spec(input@) == Err::<Seq<char>, YoutubeError>(e),
        },
{
    let trimmed = trim_chars(chars_of(input).as_slice());
    let trimmed_str = string_of(trimmed.as_slice());
    let parsed = match parse_url(trimmed_str.as_str()) {
        Ok(p) => p,
        Err(_) => return Err(YoutubeError::InvalidUrl),
    };
    let h = match &parsed.host {
        Some(h) => h,
        None => return Err(YoutubeError::MissingHost),
    };
    let stripped = trim_start_matches_exec(chars_of(h.as_str()).as_slice(), chars_of("www.").as_slice());
    let host = to_ascii_lowercase(stripped.as_slice());
    let known = chars_eq(host.as_slice(), chars_of("youtube.com").as_slice()) || chars_eq(
        host.as_slice(),
        chars_of("m.youtube.com").as_slice(),
    ) || chars_eq(host.as_slice(), chars_of("music.youtube.com").as_slice());
    if !known {
        return Err(YoutubeError::NotYoutube);
    }
    let ghost q = parsed@.query;
    assert(playlist_id_spec(input@) == list_param_result(first_query_value(q, "list"@, 0)));
    let key = chars_of("list");
    let mut j: usize = 0;
    while j < parsed.query.len()
        invariant
            j <= parsed.query@.len(),
            q == parsed@.query,
            key@ == "list"@,
            playlist_id_spec(input@) == list_param_result(first_query_value(q, "list"@, 0)),
            first_query_value(q, "list"@, 0) == first_query_value(q, "list"@, j as int),
        decreases parsed.query@.len() - j,
    {
        let name = chars_of(parsed.query[j].0.as_str());
        if chars_eq(name.as_slice(), key.as_slice()) {
            let id = chars_of(parsed.query[j].1.as_str());
            assert(q[j as int].1 == id@);
            let blank = trim_chars(id.as_slice());
            if blank.len() == 0 {
                return Err(YoutubeError::MissingPlaylistId);
            }
            if !valid_playlist_id(id.as_slice()) {
                return Err(YoutubeError::InvalidPlaylistId);
            }
            return Ok(string_of(id.as_slice()));
        }
        j += 1;
    }
    Err(YoutubeError::MissingPlaylistId)
}

/* Numbers and durations */

/// `format_seconds`: `h:mm:ss`, or `m:ss` under an hour, of a count of seconds
/// given as text (0 when it does not parse).
pub open spec fn format_seconds_spec(value: Seq<char>) -> Seq<char> {
    let seconds: nat = match parse_u64_spec(value) {
        Some(v) => v as nat,
        None => 0,
    };
    let hours = seconds / 3600;
    let minutes = (seconds % 3600) / 60;
    let secs = seconds % 60;
    if hours > 0 {
        decimal(hours) + seq![':'] + decimal2(minutes) + seq![':'] + decimal2(secs)
    } else {
        decimal(minutes) + seq![':'] + decimal2(secs)
    }
}

pub fn format_seconds(value: &[char]) -> (out: Vec<char>)
    ensures
        out@ == format_seconds_spec(value@),
{
    let seconds: u64 = match parse_u64(value) {
        Some(v) => v,
        None => 0,
    };
    let hours = seconds / 3600;
    let minutes = (seconds % 3600) / 60;
    let secs = seconds % 60;
    if hours > 0 {
        let mut out = decimal_chars(hours);
        out.push(':');
        append_chars(&mut out, decimal2_chars(minutes).as_slice());
        out.push(':');
        append_chars(&mut out, decimal2_chars(secs).as_slice());
        out
    } else {
        let mut out = decimal_chars(minutes);
        out.push(':');
        append_chars(&mut out, decimal2_chars(secs).as_slice());
        out
    }
}

/// Running total of `h:m:s`-style parts: each part multiplies the total by 60
/// and adds its value; `None` when a part does not parse or the total leaves `u64`.
pub open spec fn duration_total(parts: Seq<Seq<char>>) -> Option<u64>
    decreases parts.len(),
{
    if parts.len() == 0 {
        Some(0)
    } else {
        match duration_total(parts.drop_last()) {
            None => None,
            Some(t) => match parse_u64_spec(parts.last()) {
                None => None,
                Some(p) => if t * 60 + p > u64::MAX {
                    None
                } else {
                    Some((t * 60 + p) as u64)
                },
            },
        }
    }
}

proof fn lemma_duration_none_prefix(parts: Seq<Seq<char>>, k: int)
    requires
        0 <= k <= parts.len(),
        duration_total(parts.take(k)).is_none(),
    ensures
        duration_total(parts).is_none(),
    decreases parts.len() - k,
{
    if k < parts.len() {
        assert(parts.take(k + 1).drop_last() =~= parts.take(k));
        lemma_duration_none_prefix(parts, k + 1);
    } else {
        assert(parts.take(k) =~= parts);
    }
}

/// `parse_duration_seconds`: the seconds in a `h:m:s`, `m:s` or `s` duration.
pub open spec fn parse_duration_spec(duration: Seq<char>) -> Option<u64> {
    duration_total(split(duration, ':'))
}

pub fn parse_duration_seconds(duration: &[char]) -> (r: Option<u64>)
    ensures
        r == parse_duration_spec(duration@),
{
    let parts = split_chars(duration, ':');
    let ghost pv = split(duration@, ':');
    let mut total: u64 = 0;
    let mut i: usize = 0;
    assert(pv.take(0) =~= Seq::<Seq<char>>::empty());
    while i < parts.len()
        invariant
            i <= parts@.len() == pv.len(),
            pv == split(duration@, ':'),
            forall|k: int| 0 <= k < parts@.len() ==> #[trigger] parts@[k]@ == pv[k],
            duration_total(pv.take(i as int)) == Some(total),
        decreases parts@.len() - i,
    {
        assert(pv.take(i + 1).drop_last() =~= pv.take(i as int));
        assert(pv.take(i + 1).last() == parts@[i as int]@);
        let part = match parse_u64(parts[i].as_slice()) {
            Some(p) => p,
            None => {
                proof {
                    lemma_duration_none_prefix(pv, i + 1);
                }
                return None;
            },
        };
        if total > (u64::MAX - part) / 60 {
            proof {
                assert(total * 60 + part > u64::MAX) by (nonlinear_arith)
                    requires total > (u64::MAX - part) / 60;
                lemma_duration_none_prefix(pv, i + 1);
            }
            return None;
        }
        proof {
            assert(total * 60 + part <= u64::MAX) by (nonlinear_arith)
                requires total <= (u64::MAX - part) / 60;
        }
        total = total * 60 + part;
        i += 1;
    }
    assert(pv.take(parts@.len() as int) =~= pv);
    Some(total)
}

/// The padded two-digit numeral of `m` is all digits and reads back as `m`.
proof fn lemma_decimal2_parses(m: nat)
    requires
        m < 100,
    ensures
        all_digits(decimal2(m)),
        parse_u64_spec(decimal2(m)) == Some(m as u64),
{
    if m < 10 {
        lemma_decimal_digits(m);
        assert(decimal(m)[0] == digit_char(m));
        lemma_digit_char_value(m);
        let d = decimal2(m);
        assert(d.drop_last() =~= seq!['0']);
        let z = seq!['0'];
        assert(z.drop_last() =~= Seq::<char>::empty());
        assert(digits_value(Seq::<char>::empty()) == 0);
        assert(digit_value('0') == 0);
        assert(digits_value(z) == digits_value(z.drop_last()) * 10 + digit_value(z.last()));
        assert(digits_value(d) == digits_value(d.drop_last()) * 10 + digit_value(d.last()));
    } else {
        lemma_decimal_parses(m);
    }
}

/// The numeral of `n` is all digits and reads back as `n`.
proof fn lemma_decimal_parses(n: nat)
    requires
        n <= u64::MAX,
    ensures
        all_digits(decimal(n)),
        parse_u64_spec(decimal(n)) == Some(n as u64),
{
    lemma_decimal_digits(n);
    lemma_decimal_value(n);
    assert(is_ascii_digit(decimal(n)[0]));
}

/// Splitting a string without separators gives the string.
proof fn lemma_split_plain(t: Seq<char>, sep: char)
    requires
        forall|i: int| 0 <= i < t.len() ==> #[trigger] t[i] != sep,
    ensures
        split(t, sep) == seq![t],
    decreases t.len(),
{
    if t.len() > 0 {
        assert forall|i: int| 0 <= i < t.drop_last().len() implies #[trigger] t.drop_last()[i] != sep by {
            assert(t.drop_last()[i] == t[i]);
        }
        lemma_split_plain(t.drop_last(), sep);
        assert(t[t.len() - 1] != sep);
        assert(t.drop_last().push(t.last()) =~= t);
        assert(seq![t.drop_last()].update(0, t.drop_last().push(t.last())) =~= seq![t]);
    } else {
        assert(t =~= Seq::<char>::empty());
    }
}

/// Splitting after a separator adds the rest as one more part, when it holds no separator.
proof fn lemma_split_append(p: Seq<char>, t: Seq<char>, sep: char)
    requires
        forall|i: int| 0 <= i < t.len() ==> #[trigger] t[i] != sep,
    ensures
        split(p + seq![sep] + t, sep) == split(p, sep).push(t),
    decreases t.len(),
{
    let s = p + seq![sep] + t;
    if t.len() == 0 {
        assert(s.drop_last() =~= p);
        assert(s.last() == sep);
        assert(t =~= Seq::<char>::empty());
    } else {
        assert forall|i: int| 0 <= i < t.drop_last().len() implies #[trigger] t.drop_last()[i] != sep by {
            assert(t.drop_last()[i] == t[i]);
        }
        lemma_split_append(p, t.drop_last(), sep);
        assert(s.drop_last() =~= p + seq![sep] + t.drop_last());
        assert(s.last() == t.last());
        assert(t[t.len() - 1] != sep);
        assert(t.drop_last().push(t.last()) =~= t);
        assert(split(p, sep).push(t.drop_last()).update(split(p, sep).len() as int, t.drop_last().push(t.last()))
            =~= split(p, sep).push(t));
    }
}

proof fn lemma_digits_no_colon(t: Seq<char>)
    requires
        all_digits(t),
    ensures
        forall|i: int| 0 <= i < t.len() ==> #[trigger] t[i] != ':',
{
    assert forall|i: int| 0 <= i < t.len() implies #[trigger] t[i] != ':' by {
        assert(is_ascii_digit(t[i]));
    }
}

/// A video length formatted from a number of seconds (`format_seconds`) parses
/// back (`parse_duration_seconds`) to that number.
pub proof fn lemma_duration_round_trip(n: u64)
    ensures
        parse_duration_spec(format_seconds_spec(decimal(n as nat))) == Some(n),
{
    lemma_decimal_parses(n as nat);
    let seconds = n as nat;
    let hours = seconds / 3600;
    let minutes = (seconds % 3600) / 60;
    let secs = seconds % 60;
    assert(seconds == hours * 3600 + minutes * 60 + secs && minutes < 60 && secs < 60) by (nonlinear_arith)
        requires
            hours == seconds / 3600,
            minutes == (seconds % 3600) / 60,
            secs == seconds % 60,
    {
        assert(seconds == (seconds / 3600) * 3600 + seconds % 3600);
        assert(seconds % 3600 == ((seconds % 3600) / 60) * 60 + (seconds % 3600) % 60);
        assert((seconds % 3600) % 60 == seconds % 60);
    }
    lemma_decimal2_parses(minutes);
    lemma_decimal2_parses(secs);
    lemma_digits_no_colon(decimal2(minutes));
    lemma_digits_no_colon(decimal2(secs));
    if hours > 0 {
        assert(hours <= u64::MAX);
        lemma_decimal_parses(hours);
        lemma_digits_no_colon(decimal(hours));
        let a = decimal(hours);
        let ab = a + seq![':'] + decimal2(minutes);
        lemma_split_plain(a, ':');
        lemma_split_append(a, decimal2(minutes), ':');
        lemma_split_append(ab, decimal2(secs), ':');
        let parts = split(ab + seq![':'] + decimal2(secs), ':');
        assert(format_seconds_spec(decimal(n as nat)) == ab + seq![':'] + decimal2(secs));
        assert(parts =~= seq![a, decimal2(minutes), decimal2(secs)]);
        assert(parts.drop_last() =~= seq![a, decimal2(minutes)]);
        assert(seq![a, decimal2(minutes)].drop_last() =~= seq![a]);
        assert(seq![a].drop_last() =~= Seq::<Seq<char>>::empty());
        assert(hours * 60 + minutes <= seconds) by (nonlinear_arith)
            requires seconds == hours * 3600 + minutes * 60 + secs, hours > 0;
        assert((hours * 60 + minutes) * 60 + secs == seconds) by (nonlinear_arith)
            requires seconds == hours * 3600 + minutes * 60 + secs;
        assert(duration_total(Seq::<Seq<char>>::empty()) == Some(0u64));
        assert(duration_total(seq![a]) == Some(hours as u64));
        assert(duration_total(seq![a, decimal2(minutes)]) == Some((hours * 60 + minutes) as u64));
        assert(duration_total(parts) == Some(n));
    } else {
        assert(minutes <= u64::MAX);
        lemma_decimal_parses(minutes);
        lemma_digits_no_colon(decimal(minutes));
        let a = decimal(minutes);
        lemma_split_plain(a, ':');
        lemma_split_append(a, decimal2(secs), ':');
        let parts = split(a + seq![':'] + decimal2(secs), ':');
        assert(format_seconds_spec(decimal(n as nat)) == a + seq![':'] + decimal2(secs));
        assert(parts =~= seq![a, decimal2(secs)]);
        assert(parts.drop_last() =~= seq![a]);
        assert(seq![a].drop_last() =~= Seq::<Seq<char>>::empty());
        assert(duration_total(Seq::<Seq<char>>::empty()) == Some(0u64));
        assert(duration_total(seq![a]) == Some(minutes as u64));
        assert(minutes * 60 + secs == seconds);
        assert(duration_total(parts) == Some(n));
    }
}

/* Videos */

pub open spec fn watch_url(video_id: Seq<char>) -> Seq<char> {
    "https://www.youtube.com/watch?v="@ + video_id
}

pub open spec fn embed_url(video_id: Seq<char>) -> Seq<char> {
    "https://www.youtube-nocookie.com/embed/"@ + video_id
}

pub open spec fn default_thumbnail(video_id: Seq<char>) -> Seq<char> {
    "https://i.ytimg.com/vi/"@ + video_id + "/hqdefault.jpg"@
}

/// `video_info`: a video with its watch and privacy-enhanced embed URLs.
pub open spec fn video_view(
    video_id: Seq<char>,
    title: Seq<char>,
    duration: Option<Seq<char>>,
    duration_seconds: Option<u64>,
    thumbnail_url: Option<Seq<char>>,
) -> VideoView {
    VideoView {
        url: watch_url(video_id),
        embed_url: embed_url(video_id),
        video_id,
        title,
        duration,
        duration_seconds,
        thumbnail_url,
    }
}

fn with_prefix(prefix: &str, tail: &[char]) -> (out: String)
    ensures
        out@ == prefix@ + tail@,
{
    let mut v = chars_of(prefix);
    append_chars(&mut v, tail);
    string_of(v.as_slice())
}

fn video_info(
    video_id: Vec<char>,
    title: Vec<char>,
    duration: Option<Vec<char>>,
    duration_seconds: Option<u64>,
    thumbnail_url: Option<Vec<char>>,
) -> (info: VideoInfo)
    ensures
        info@ == video_view(
            video_id@,
            title@,
            match duration {
                Some(d) => Some(d@),
                None => None,
            },
            duration_seconds,
            match thumbnail_url {
                Some(t) => Some(t@),
                None => None,
            },
        ),
{
    VideoInfo {
        url: with_prefix("https://www.youtube.com/watch?v=", video_id.as_slice()),
        embed_url: with_prefix("https://www.youtube-nocookie.com/embed/", video_id.as_slice()),
        video_id: string_of(video_id.as_slice()),
        title: string_of(title.as_slice()),
        duration: match duration {
            Some(d) => Some(string_of(d.as_slice())),
            None => None,
        },
        duration_seconds,
        thumbnail_url: match thumbnail_url {
            Some(t) => Some(string_of(t.as_slice())),
            None => None,
        },
    }
}

fn default_thumbnail_chars(video_id: &[char]) -> (out: Vec<char>)
    ensures
        out@ == default_thumbnail(video_id@),
{
    let mut v = chars_of("https://i.ytimg.com/vi/");
    append_chars(&mut v, video_id);
    append_chars(&mut v, chars_of("/hqdefault.jpg").as_slice());
    v
}

/// The concatenated `text` members of a list of runs.
pub open spec fn runs_text(runs: Seq<Json>) -> Seq<char>
    decreases runs.len(),
{
    if runs.len() == 0 {
        Seq::empty()
    } else {
        runs_text(runs.drop_last()) + match json_str(json_get(runs.last(), "text"@)) {
            Some(t) => t,
            None => Seq::empty(),
        }
    }
}

/// `text_value`: a `simpleText`, else the non-empty concatenation of `runs[].text`.
pub open spec fn text_value_spec(v: Json) -> Option<Seq<char>> {
    match json_str(json_get(v, "simpleText"@)) {
        Some(t) => Some(t),
        None => match json_array(json_get(v, "runs"@)) {
            None => None,
            Some(runs) => if runs_text(runs).len() > 0 {
                Some(runs_text(runs))
            } else {
                None
            },
        },
    }
}

pub fn text_value(v: &Json) -> (r: Option<Vec<char>>)
    ensures
        match r {
            Some(t) => text_value_spec(*v) == Some(t@),
            None => text_value_spec(*v).is_none(),
        },
{
    match as_str(get(v, "simpleText")) {
        Some(t) => return Some(chars_of(t.as_str())),
        None => {},
    }
    let runs = match as_array(get(v, "runs")) {
        Some(r) => r,
        None => return None,
    };
    let mut text: Vec<char> = Vec::new();
    let mut i: usize = 0;
    while i < runs.len()
        invariant
            i <= runs@.len(),
            text@ == runs_text(runs@.take(i as int)),
        decreases runs@.len() - i,
    {
        assert(runs@.take(i + 1).drop_last() =~= runs@.take(i as int));
        match as_str(get(&runs[i], "text")) {
            Some(t) => append_chars(&mut text, chars_of(t.as_str()).as_slice()),
            None => {},
        }
        i += 1;
    }
    assert(runs@.take(runs@.len() as int) =~= runs@);
    if text.len() > 0 {
        Some(text)
    } else {
        None
    }
}

/// The `url` of the last element of an array (thumbnail lists are ordered by size).
pub open spec fn last_url(items: Option<Seq<Json>>) -> Option<Seq<char>> {
    match items {
        Some(list) => if list.len() > 0 {
            json_str(json_get(list.last(), "url"@))
        } else {
            None
        },
        None => None,
    }
}

fn last_url_exec(items: Option<&Vec<Json>>) -> (r: Option<Vec<char>>)
    ensures
        match r {
            Some(u) => last_url(match items {
                Some(l) => Some(l@),
                None => None,
            }) == Some(u@),
            None => last_url(match items {
                Some(l) => Some(l@),
                None => None,
            }).is_none(),
        },
{
    match items {
        Some(list) => {
            if list.len() > 0 {
                match as_str(get(&list[list.len() - 1], "url")) {
                    Some(u) => Some(chars_of(u.as_str())),
                    None => None,
                }
            } else {
                None
            }
        },
        None => None,
    }
}

/// `parse_video_renderer`: a video of the older `playlistVideoRenderer` shape.
pub open spec fn video_renderer_spec(r: Json) -> Option<VideoView> {
    match json_str(json_get(r, "videoId"@)) {
        None => None,
        Some(video_id) => match json_get(r, "title"@) {
            None => None,
            Some(title_value) => {
                let title = match text_value_spec(title_value) {
                    Some(t) => t,
                    None => "Untitled video"@,
                };
                let length_seconds = json_str(json_get(r, "lengthSeconds"@));
                let duration = match json_get(r, "lengthText"@) {
                    Some(lt) => match text_value_spec(lt) {
                        Some(t) => Some(t),
                        None => match length_seconds {
                            Some(s) => Some(format_seconds_spec(s)),
                            None => None,
                        },
                    },
                    None => match length_seconds {
                        Some(s) => Some(format_seconds_spec(s)),
                        None => None,
                    },
                };
                let duration_seconds = match length_seconds {
                    Some(s) => parse_u64_spec(s),
                    None => None,
                };
                let thumb = match last_url(json_array(json_get_opt(json_get(r, "thumbnail"@), "thumbnails"@))) {
                    Some(u) => u,
                    None => default_thumbnail(video_id),
                };
                Some(video_view(video_id, title, duration, duration_seconds, Some(thumb)))
            },
        },
    }
}

pub fn parse_video_renderer(r: &Json) -> (video: Option<VideoInfo>)
    ensures
        match video {
            Some(v) => video_renderer_spec(*r) == Some(v@),
            None => video_renderer_spec(*r).is_none(),
        },
{
    let video_id = match as_str(get(r, "videoId")) {
        Some(id) => chars_of(id.as_str()),
        None => return None,
    };
    let title_value = match get(r, "title") {
        Some(t) => t,
        None => return None,
    };
    let title = match text_value(title_value) {
        Some(t) => t,
        None => chars_of("Untitled video"),
    };
    let length_seconds = as_str(get(r, "lengthSeconds"));
    let from_seconds = match length_seconds {
        Some(s) => Some(format_seconds(chars_of(s.as_str()).as_slice())),
        None => None,
    };
    let duration = match get(r, "lengthText") {
        Some(lt) => match text_value(lt) {
            Some(t) => Some(t),
            None => from_seconds,
        },
        None => from_seconds,
    };
    let duration_seconds = match length_seconds {
        Some(s) => parse_u64(chars_of(s.as_str()).as_slice()),
        None => None,
    };
    let thumb = match last_url_exec(as_array(get_opt(get(r, "thumbnail"), "thumbnails"))) {
        Some(u) => u,
        None => default_thumbnail_chars(video_id.as_slice()),
    };
    Some(video_info(video_id, title, duration, duration_seconds, Some(thumb)))
}

/* Searching nested data */

/// `find_nested_string`: the first string at `object_key.value_key` in a
/// depth-first search (an object's own member before its children).
pub open spec fn find_nested_spec(v: Json, object_key: Seq<char>, value_key: Seq<char>) -> Option<Seq<char>>
    decreases v, 0int,
{
    match v {
        Json::Object(entries) => match json_str(json_get_opt(json_get(v, object_key), value_key)) {
            Some(t) => Some(t),
            None => find_nested_entries(entries@, entries@.len() as int, object_key, value_key),
        },
        Json::Array(items) => find_nested_items(items@, items@.len() as int, object_key, value_key),
        _ => None,
    }
}

/// The first match among the member values `entries[..k]`.
pub open spec fn find_nested_entries(
    entries: Seq<(String, Json)>,
    k: int,
    object_key: Seq<char>,
    value_key: Seq<char>,
) -> Option<Seq<char>>
    decreases entries, k,
{
    if k <= 0 || k > entries.len() {
        None
    } else {
        match find_nested_entries(entries, k - 1, object_key, value_key) {
            Some(t) => Some(t),
            None => find_nested_spec(entries[k - 1].1, object_key, value_key),
        }
    }
}

/// The first match among the array items `items[..k]`.
pub open spec fn find_nested_items(items: Seq<Json>, k: int, object_key: Seq<char>, value_key: Seq<char>) -> Option<
    Seq<char>,
>
    decreases items, k,
{
    if k <= 0 || k > items.len() {
        None
    } else {
        match find_nested_items(items, k - 1, object_key, value_key) {
            Some(t) => Some(t),
            None => find_nested_spec(items[k - 1], object_key, value_key),
        }
    }
}

proof fn lemma_find_entries_stable(
    entries: Seq<(String, Json)>,
    k: int,
    n: int,
    object_key: Seq<char>,
    value_key: Seq<char>,
)
    requires
        0 <= k <= n <= entries.len(),
        find_nested_entries(entries, k, object_key, value_key).is_some(),
    ensures
        find_nested_entries(entries, n, object_key, value_key) == find_nested_entries(
            entries,
            k,
            object_key,
            value_key,
        ),
    decreases n - k,
{
    if k < n {
        lemma_find_entries_stable(entries, k, n - 1, object_key, value_key);
    }
}

proof fn lemma_find_items_stable(
    items: Seq<Json>,
    k: int,
    n: int,
    object_key: Seq<char>,
    value_key: Seq<char>,
)
    requires
        0 <= k <= n <= items.len(),
        find_nested_items(items, k, object_key, value_key).is_some(),
    ensures
        find_nested_items(items, n, object_key, value_key) == find_nested_items(
            items,
            k,
            object_key,
            value_key,
        ),
    decreases n - k,
{
    if k < n {
        lemma_find_items_stable(items, k, n - 1, object_key, value_key);
    }
}

pub fn find_nested_string(v: &Json, object_key: &str, value_key: &str) -> (r: Option<Vec<char>>)
    ensures
        match r {
            Some(t) => find_nested_spec(*v, object_key@, value_key@) == Some(t@),
            None => find_nested_spec(*v, object_key@, value_key@).is_none(),
        },
    decreases v,
{
    match v {
        Json::Object(entries) => {
            match as_str(get_opt(get(v, object_key), value_key)) {
                Some(t) => return Some(chars_of(t.as_str())),
                None => {},
            }
            let mut k: usize = 0;
            while k < entries.len()
                invariant
                    k <= entries@.len(),
                    *v == Json::Object(*entries),
                    json_str(json_get_opt(json_get(*v, object_key@), value_key@)).is_none(),
                    find_nested_entries(entries@, k as int, object_key@, value_key@).is_none(),
                decreases entries@.len() - k,
            {
                let found = find_nested_string(&entries[k].1, object_key, value_key);
                if found.is_some() {
                    proof {
                        lemma_find_entries_stable(entries@, k + 1, entries@.len() as int, object_key@, value_key@);
                    }
                    return found;
                }
                k += 1;
            }
            None
        },
        Json::Array(items) => {
            let mut k: usize = 0;
            while k < items.len()
                invariant
                    k <= items@.len(),
                    *v == Json::Array(*items),
                    find_nested_items(items@, k as int, object_key@, value_key@).is_none(),
                decreases items@.len() - k,
            {
                let found = find_nested_string(&items[k], object_key, value_key);
                if found.is_some() {
                    proof {
                        lemma_find_items_stable(items@, k + 1, items@.len() as int, object_key@, value_key@);
                    }
                    return found;
                }
                k += 1;
            }
            None
        },
        _ => None,
    }
}

/// `find_playlist_title`: the first playlist title in a depth-first search, from
/// a `playlistMetadataRenderer` or else a `playlistHeaderRenderer`.
pub open spec fn playlist_title_spec(v: Json) -> Option<Seq<char>>
    decreases v, 0int,
{
    match v {
        Json::Object(entries) => match own_playlist_title(v) {
            Some(t) => Some(t),
            None => playlist_title_entries(entries@, entries@.len() as int),
        },
        Json::Array(items) => playlist_title_items(items@, items@.len() as int),
        _ => None,
    }
}

/// The title held directly by an object's renderer members.
pub open spec fn own_playlist_title(v: Json) -> Option<Seq<char>> {
    match json_get(v, "playlistMetadataRenderer"@) {
        Some(meta) => match json_str(json_get(meta, "title"@)) {
            Some(t) => Some(t),
            None => header_title(v),
        },
        None => header_title(v),
    }
}

pub open spec fn header_title(v: Json) -> Option<Seq<char>> {
    match json_get(v, "playlistHeaderRenderer"@) {
        Some(header) => match json_get(header, "title"@) {
            Some(t) => text_value_spec(t),
            None => None,
        },
        None => None,
    }
}

pub open spec fn playlist_title_entries(entries: Seq<(String, Json)>, k: int) -> Option<Seq<char>>
    decreases entries, k,
{
    if k <= 0 || k > entries.len() {
        None
    } else {
        match playlist_title_entries(entries, k - 1) {
            Some(t) => Some(t),
            None => playlist_title_spec(entries[k - 1].1),
        }
    }
}

pub open spec fn playlist_title_items(items: Seq<Json>, k: int) -> Option<Seq<char>>
    decreases items, k,
{
    if k <= 0 || k > items.len() {
        None
    } else {
        match playlist_title_items(items, k - 1) {
            Some(t) => Some(t),
            None => playlist_title_spec(items[k - 1]),
        }
    }
}

proof fn lemma_title_entries_stable(entries: Seq<(String, Json)>, k: int, n: int)
    requires
        0 <= k <= n <= entries.len(),
        playlist_title_entries(entries, k).is_some(),
    ensures
        playlist_title_entries(entries, n) == playlist_title_entries(entries, k),
    decreases n - k,
{
    if k < n {
        lemma_title_entries_stable(entries, k, n - 1);
    }
}

proof fn lemma_title_items_stable(items: Seq<Json>, k: int, n: int)
    requires
        0 <= k <= n <= items.len(),
        playlist_title_items(items, k).is_some(),
    ensures
        playlist_title_items(items, n) == playlist_title_items(items, k),
    decreases n - k,
{
    if k < n {
        lemma_title_items_stable(items, k, n - 1);
    }
}

fn own_playlist_title_exec(v: &Json) -> (r: Option<Vec<char>>)
    ensures
        match r {
            Some(t) => own_playlist_title(*v) == Some(t@),
            None => own_playlist_title(*v).is_none(),
        },
{
    match get(v, "playlistMetadataRenderer") {
        Some(meta) => match as_str(get(meta, "title")) {
            Some(t) => return Some(chars_of(t.as_str())),
            None => {},
        },
        None => {},
    }
    match get(v, "playlistHeaderRenderer") {
        Some(header) => match get(header, "title") {
            Some(t) => text_value(t),
            None => None,
        },
        None => None,
    }
}

pub fn find_playlist_title(v: &Json) -> (r: Option<Vec<char>>)
    ensures
        match r {
            Some(t) => playlist_title_spec(*v) == Some(t@),
            None => playlist_title_spec(*v).is_none(),
        },
    decreases v,
{
    match v {
        Json::Object(entries) => {
            let own = own_playlist_title_exec(v);
            if own.is_some() {
                return own;
            }
            let mut k: usize = 0;
            while k < entries.len()
                invariant
                    k <= entries@.len(),
                    *v == Json::Object(*entries),
                    own_playlist_title(*v).is_none(),
                    playlist_title_entries(entries@, k as int).is_none(),
                decreases entries@.len() - k,
            {
                let found = find_playlist_title(&entries[k].1);
                if found.is_some() {
                    proof {
                        lemma_title_entries_stable(entries@, k + 1, entries@.len() as int);
                    }
                    return found;
                }
                k += 1;
            }
            None
        },
        Json::Array(items) => {
            let mut k: usize = 0;
            while k < items.len()
                invariant
                    k <= items@.len(),
                    *v == Json::Array(*items),
                    playlist_title_items(items@, k as int).is_none(),
                decreases items@.len() - k,
            {
                let found = find_playlist_title(&items[k]);
                if found.is_some() {
                    proof {
                        lemma_title_items_stable(items@, k + 1, items@.len() as int);
                    }
                    return found;
                }
                k += 1;
            }
            None
        },
        _ => None,
    }
}

/* Lockup view models */

/// `parse_lockup_view_model`: a video of the current `lockupViewModel` shape.
pub open spec fn lockup_spec(vm: Json) -> Option<VideoView> {
    if json_str(json_get(vm, "contentType"@)) != Some("LOCKUP_CONTENT_TYPE_VIDEO"@) {
        None
    } else {
        match json_str(json_get(vm, "contentId"@)) {
            None => None,
            Some(video_id) => {
                let title = match json_str(
                    json_get_opt(
                        json_get_opt(json_get_opt(json_get(vm, "metadata"@), "lockupMetadataViewModel"@), "title"@),
                        "content"@,
                    ),
                ) {
                    Some(t) => t,
                    None => "Untitled video"@,
                };
                let duration = find_nested_spec(vm, "thumbnailBadgeViewModel"@, "text"@);
                let duration_seconds = match duration {
                    Some(d) => parse_duration_spec(d),
                    None => None,
                };
                let thumb = match last_url(
                    json_array(
                        json_get_opt(
                            json_get_opt(
                                json_get_opt(json_get(vm, "contentImage"@), "thumbnailViewModel"@),
                                "image"@,
                            ),
                            "sources"@,
                        ),
                    ),
                ) {
                    Some(u) => u,
                    None => default_thumbnail(video_id),
                };
                Some(video_view(video_id, title, duration, duration_seconds, Some(thumb)))
            },
        }
    }
}

pub fn parse_lockup_view_model(vm: &Json) -> (video: Option<VideoInfo>)
    ensures
        match video {
            Some(v) => lockup_spec(*vm) == Some(v@),
            None => lockup_spec(*vm).is_none(),
        },
{
    let kind_ok = match as_str(get(vm, "contentType")) {
        Some(k) => chars_eq(chars_of(k.as_str()).as_slice(), chars_of("LOCKUP_CONTENT_TYPE_VIDEO").as_slice()),
        None => false,
    };
    if !kind_ok {
        return None;
    }
    let video_id = match as_str(get(vm, "contentId")) {
        Some(id) => chars_of(id.as_str()),
        None => return None,
    };
    let title = match as_str(
        get_opt(get_opt(get_opt(get(vm, "metadata"), "lockupMetadataViewModel"), "title"), "content"),
    ) {
        Some(t) => chars_of(t.as_str()),
        None => chars_of("Untitled video"),
    };
    let duration = find_nested_string(vm, "thumbnailBadgeViewModel", "text");
    let duration_seconds = match &duration {
        Some(d) => parse_duration_seconds(d.as_slice()),
        None => None,
    };
    let sources = as_array(
        get_opt(get_opt(get_opt(get(vm, "contentImage"), "thumbnailViewModel"), "image"), "sources"),
    );
    let thumb = match last_url_exec(sources) {
        Some(u) => u,
        None => default_thumbnail_chars(video_id.as_slice()),
    };
    Some(video_info(video_id, title, duration, duration_seconds, Some(thumb)))
}

/* Collecting videos and continuation tokens */

/// What an object contributes itself: its renderer and lockup videos, and its continuation token.
pub open spec fn own_playlist_data(v: Json) -> (Seq<VideoView>, Seq<Seq<char>>) {
    let from_renderer = match json_get(v, "playlistVideoRenderer"@) {
        Some(r) => match video_renderer_spec(r) {
            Some(x) => seq![x],
            None => Seq::empty(),
        },
        None => Seq::empty(),
    };
    let from_lockup = match json_get(v, "lockupViewModel"@) {
        Some(vm) => match lockup_spec(vm) {
            Some(x) => seq![x],
            None => Seq::empty(),
        },
        None => Seq::empty(),
    };
    let tokens = match json_str(json_get_opt(json_get(v, "continuationCommand"@), "token"@)) {
        Some(t) => seq![t],
        None => Seq::empty(),
    };
    (from_renderer + from_lockup, tokens)
}

pub open spec fn cat(
    a: (Seq<VideoView>, Seq<Seq<char>>),
    b: (Seq<VideoView>, Seq<Seq<char>>),
) -> (Seq<VideoView>, Seq<Seq<char>>) {
    (a.0 + b.0, a.1 + b.1)
}

/// `collect_playlist_data`: videos and continuation tokens in depth-first order.
pub open spec fn playlist_data_spec(v: Json) -> (Seq<VideoView>, Seq<Seq<char>>)
    decreases v, 0int,
{
    match v {
        Json::Object(entries) => cat(own_playlist_data(v), playlist_data_entries(entries@, entries@.len() as int)),
        Json::Array(items) => playlist_data_items(items@, items@.len() as int),
        _ => (Seq::empty(), Seq::empty()),
    }
}

pub open spec fn playlist_data_entries(entries: Seq<(String, Json)>, k: int) -> (Seq<VideoView>, Seq<Seq<char>>)
    decreases entries, k,
{
    if k <= 0 || k > entries.len() {
        (Seq::empty(), Seq::empty())
    } else {
        cat(playlist_data_entries(entries, k - 1), playlist_data_spec(entries[k - 1].1))
    }
}

pub open spec fn playlist_data_items(items: Seq<Json>, k: int) -> (Seq<VideoView>, Seq<Seq<char>>)
    decreases items, k,
{
    if k <= 0 || k > items.len() {
        (Seq::empty(), Seq::empty())
    } else {
        cat(playlist_data_items(items, k - 1), playlist_data_spec(items[k - 1]))
    }
}

pub open spec fn strings_of(v: Seq<String>) -> Seq<Seq<char>> {
    v.map_values(|s: String| s@)
}

/// Append the videos and continuation tokens found anywhere in `value`.
pub fn collect_playlist_data(value: &Json, videos: &mut Vec<VideoInfo>, tokens: &mut Vec<String>)
    ensures
        videos_view(final(videos)@) == videos_view(old(videos)@) + playlist_data_spec(*value).0,
        strings_of(final(tokens)@) == strings_of(old(tokens)@) + playlist_data_spec(*value).1,
    decreases value,
{
    let ghost v0 = videos_view(videos@);
    let ghost t0 = strings_of(tokens@);
    match value {
        Json::Object(entries) => {
            match get(value, "playlistVideoRenderer") {
                Some(r) => match parse_video_renderer(r) {
                    Some(x) => videos.push(x),
                    None => {},
                },
                None => {},
            }
            match get(value, "lockupViewModel") {
                Some(vm) => match parse_lockup_view_model(vm) {
                    Some(x) => videos.push(x),
                    None => {},
                },
                None => {},
            }
            match as_str(get_opt(get(value, "continuationCommand"), "token")) {
                Some(t) => tokens.push(string_of(chars_of(t.as_str()).as_slice())),
                None => {},
            }
            let ghost own = own_playlist_data(*value);
            assert(videos_view(videos@) =~= v0 + own.0);
            assert(strings_of(tokens@) =~= t0 + own.1);
            let mut k: usize = 0;
            while k < entries.len()
                invariant
                    k <= entries@.len(),
                    *value == Json::Object(*entries),
                    own == own_playlist_data(*value),
                    videos_view(videos@) == v0 + own.0 + playlist_data_entries(entries@, k as int).0,
                    strings_of(tokens@) == t0 + own.1 + playlist_data_entries(entries@, k as int).1,
                decreases entries@.len() - k,
            {
                collect_playlist_data(&entries[k].1, videos, tokens);
                k += 1;
                assert(videos_view(videos@) =~= v0 + own.0 + playlist_data_entries(entries@, k as int).0);
                assert(strings_of(tokens@) =~= t0 + own.1 + playlist_data_entries(entries@, k as int).1);
            }
            assert(videos_view(videos@) =~= v0 + playlist_data_spec(*value).0);
            assert(strings_of(tokens@) =~= t0 + playlist_data_spec(*value).1);
        },
        Json::Array(items) => {
            let mut k: usize = 0;
            assert(videos_view(videos@) =~= v0 + playlist_data_items(items@, 0).0);
            assert(strings_of(tokens@) =~= t0 + playlist_data_items(items@, 0).1);
            while k < items.len()
                invariant
                    k <= items@.len(),
                    *value == Json::Array(*items),
                    videos_view(videos@) == v0 + playlist_data_items(items@, k as int).0,
                    strings_of(tokens@) == t0 + playlist_data_items(items@, k as int).1,
                decreases items@.len() - k,
            {
                assert(decreases_to!(*value => (*value)->Array_0));
                assert((*value)->Array_0 == *items);
                assert(decreases_to!(*items => items@));
                assert(decreases_to!(items@ => items@[k as int]));
                assert(decreases_to!(*value => items@[k as int]));
                collect_playlist_data(&items[k], videos, tokens);
                k += 1;
                assert(videos_view(videos@) =~= v0 + playlist_data_items(items@, k as int).0);
                assert(strings_of(tokens@) =~= t0 + playlist_data_items(items@, k as int).1);
            }
        },
        _ => {
            assert(videos_view(videos@) =~= v0 + playlist_data_spec(*value).0);
            assert(strings_of(tokens@) =~= t0 + playlist_data_spec(*value).1);
        },
    }
}

/* Deduplication */

/// Whether a video with this ID occurs among the first `k` videos.
pub open spec fn id_among(s: Seq<VideoView>, id: Seq<char>, k: int) -> bool {
    exists|j: int| 0 <= j < k && #[trigger] s[j].video_id == id
}

/// `deduplicate_videos`: the first video of each ID, in order.
pub open spec fn dedup_videos(s: Seq<VideoView>) -> Seq<VideoView>
    decreases s.len(),
{
    if s.len() == 0 {
        s
    } else {
        let before = dedup_videos(s.drop_last());
        if id_among(s, s.last().video_id, s.len() - 1) {
            before
        } else {
            before.push(s.last())
        }
    }
}

/// Keep the first video of each ID, in order.
pub fn deduplicate_videos(videos: &mut Vec<VideoInfo>)
    ensures
        videos_view(final(videos)@) == dedup_videos(videos_view(old(videos)@)),
{
    let ghost input = videos_view(videos@);
    let mut rest: Vec<VideoInfo> = Vec::new();
    std::mem::swap(&mut rest, videos);
    let n = rest.len();
    let mut reversed: Vec<VideoInfo> = Vec::new();
    while rest.len() > 0
        invariant
            reversed@.len() + rest@.len() == n,
            n == input.len(),
            forall|i: int| 0 <= i < reversed@.len() ==> (#[trigger] reversed@[i])@ == input[n - 1 - i],
            forall|i: int| 0 <= i < rest@.len() ==> (#[trigger] rest@[i])@ == input[i],
        decreases rest.len(),
    {
        let v = rest.pop().unwrap();
        reversed.push(v);
    }
    let mut out: Vec<VideoInfo> = Vec::new();
    let mut seen: Vec<Vec<char>> = Vec::new();
    let mut k: usize = 0;
    while k < n
        invariant
            k <= n == input.len(),
            reversed@.len() == n - k,
            forall|i: int| 0 <= i < reversed@.len() ==> (#[trigger] reversed@[i])@ == input[n - 1 - i],
            videos_view(out@) == dedup_videos(input.take(k as int)),
            seen@.len() == k,
            forall|i: int| 0 <= i < k ==> (#[trigger] seen@[i])@ == input[i].video_id,
        decreases n - k,
    {
        let v = reversed.pop().unwrap();
        assert(v@ == input[k as int]);
        let id = chars_of(v.video_id.as_str());
        let mut j: usize = 0;
        let mut dup = false;
        while j < seen.len()
            invariant
                j <= seen@.len(),
                !dup ==> forall|i: int| 0 <= i < j ==> (#[trigger] seen@[i])@ != id@,
                dup ==> exists|i: int| 0 <= i < seen@.len() && (#[trigger] seen@[i])@ == id@,
            decreases seen@.len() - j,
        {
            if chars_eq(seen[j].as_slice(), id.as_slice()) {
                dup = true;
            }
            j += 1;
        }
        proof {
            let pre = input.take(k + 1);
            assert(pre.drop_last() =~= input.take(k as int));
            assert(pre.last() == input[k as int]);
            if dup {
                let i = choose|i: int| 0 <= i < seen@.len() && (#[trigger] seen@[i])@ == id@;
                assert(pre[i].video_id == pre.last().video_id);
                assert(id_among(pre, pre.last().video_id, k as int));
            } else {
                assert forall|i: int| 0 <= i < k implies #[trigger] pre[i].video_id != pre.last().video_id by {
                    assert(seen@[i]@ != id@);
                }
            }
        }
        if !dup {
            out.push(v);
        }
        seen.push(id);
        k += 1;
    }
    assert(input.take(n as int) =~= input);
    *videos = out;
}

/* Locating embedded playlist data in the page */

/// Scanner state while measuring a JSON object: nesting depth, inside a string, after a backslash.
pub struct ScanState {
    pub depth: nat,
    pub in_string: bool,
    pub escaped: bool,
}

/// `balanced_json_object_length`: the length of the object that opens the input,
/// skipping braces inside strings; `None` when it never closes or a `}` comes unopened.
pub open spec fn object_len_from(input: Seq<char>, i: int, st: ScanState) -> Option<nat>
    decreases input.len() - i,
{
    if i < 0 || i >= input.len() {
        None
    } else {
        let c = input[i];
        if st.in_string {
            let next = if st.escaped {
                ScanState { escaped: false, ..st }
            } else if c == '\\' {
                ScanState { escaped: true, ..st }
            } else if c == '"' {
                ScanState { in_string: false, ..st }
            } else {
                st
            };
            object_len_from(input, i + 1, next)
        } else if c == '"' {
            object_len_from(input, i + 1, ScanState { in_string: true, ..st })
        } else if c == '{' {
            object_len_from(input, i + 1, ScanState { depth: st.depth + 1, ..st })
        } else if c == '}' {
            if st.depth == 0 {
                None
            } else if st.depth == 1 {
                Some((i + 1) as nat)
            } else {
                object_len_from(input, i + 1, ScanState { depth: (st.depth - 1) as nat, ..st })
            }
        } else {
            object_len_from(input, i + 1, st)
        }
    }
}

pub open spec fn object_len(input: Seq<char>) -> Option<nat> {
    object_len_from(input, 0, ScanState { depth: 0, in_string: false, escaped: false })
}

fn balanced_json_object_length(input: &[char]) -> (r: Option<usize>)
    ensures
        match r {
            Some(n) => object_len(input@) == Some(n as nat),
            None => object_len(input@).is_none(),
        },
{
    let mut depth: usize = 0;
    let mut in_string = false;
    let mut escaped = false;
    let mut i: usize = 0;
    while i < input.len()
        invariant
            i <= input.len(),
            depth <= i,
            object_len(input@) == object_len_from(
                input@,
                i as int,
                ScanState { depth: depth as nat, in_string, escaped },
            ),
        decreases input.len() - i,
    {
        let c = input[i];
        if in_string {
            if escaped {
                escaped = false;
            } else if c == '\\' {
                escaped = true;
            } else if c == '"' {
                in_string = false;
            }
        } else if c == '"' {
            in_string = true;
        } else if c == '{' {
            depth = depth + 1;
        } else if c == '}' {
            if depth == 0 {
                return None;
            }
            depth = depth - 1;
            if depth == 0 {
                return Some(i + 1);
            }
        }
        i += 1;
    }
    None
}

/// `extract_json_object_after_any`: the JSON object that follows the first
/// marker (tried in order) found in the page.
pub open spec fn object_after_markers(html: Seq<char>, markers: Seq<Seq<char>>, k: int) -> Option<Seq<char>>
    decreases markers.len() - k,
{
    if k < 0 || k >= markers.len() {
        None
    } else {
        let at = find_str(html, markers[k]);
        if at < 0 {
            object_after_markers(html, markers, k + 1)
        } else {
            let tail = html.skip(at + markers[k].len());
            let brace = find_str(tail, seq!['{']);
            if brace < 0 {
                object_after_markers(html, markers, k + 1)
            } else {
                let json = tail.skip(brace);
                match object_len(json) {
                    Some(n) => Some(json.take(n as int)),
                    None => object_after_markers(html, markers, k + 1),
                }
            }
        }
    }
}

pub fn extract_json_object_after_any(html: &str, markers: &Vec<&str>) -> (r: Option<String>)
    ensures
        match r {
            Some(o) => object_after_markers(html@, markers@.map_values(|m: &str| m@), 0) == Some(o@),
            None => object_after_markers(html@, markers@.map_values(|m: &str| m@), 0).is_none(),
        },
{
    let ghost ms = markers@.map_values(|m: &str| m@);
    let h = chars_of(html);
    let mut brace: Vec<char> = Vec::new();
    brace.push('{');
    assert(brace@ =~= seq!['{']);
    let mut k: usize = 0;
    while k < markers.len()
        invariant
            k <= markers@.len(),
            ms == markers@.map_values(|m: &str| m@),
            h@ == html@,
            brace@ == seq!['{'],
            object_after_markers(html@, ms, 0) == object_after_markers(html@, ms, k as int),
        decreases markers@.len() - k,
    {
        let m = chars_of(markers[k]);
        assert(m@ == ms[k as int]);
        match find_chars(h.as_slice(), m.as_slice()) {
            None => {},
            Some(at) => {
                let hlen = h.len();
                let mlen = m.len();
                let tail = slice_chars(h.as_slice(), at + mlen, hlen);
                assert(tail@ =~= h@.skip(at + m@.len()));
                match find_chars(tail.as_slice(), brace.as_slice()) {
                    None => {},
                    Some(b) => {
                        let json = slice_chars(tail.as_slice(), b, tail.len());
                        assert(json@ =~= tail@.skip(b as int));
                        match balanced_json_object_length(json.as_slice()) {
                            Some(n) => {
                                proof {
                                    lemma_object_len_bound(json@);
                                }
                                let obj = slice_chars(json.as_slice(), 0, n);
                                assert(obj@ =~= json@.take(n as int));
                                return Some(string_of(obj.as_slice()));
                            },
                            None => {},
                        }
                    },
                }
            },
        }
        k += 1;
    }
    None
}

proof fn lemma_object_len_from_bound(input: Seq<char>, i: int, st: ScanState)
    ensures
        object_len_from(input, i, st) matches Some(n) ==> n <= input.len(),
    decreases input.len() - i,
{
    if 0 <= i < input.len() {
        let c = input[i];
        if st.in_string {
            let next = if st.escaped {
                ScanState { escaped: false, ..st }
            } else if c == '\\' {
                ScanState { escaped: true, ..st }
            } else if c == '"' {
                ScanState { in_string: false, ..st }
            } else {
                st
            };
            lemma_object_len_from_bound(input, i + 1, next);
        } else if c == '"' {
            lemma_object_len_from_bound(input, i + 1, ScanState { in_string: true, ..st });
        } else if c == '{' {
            lemma_object_len_from_bound(input, i + 1, ScanState { depth: st.depth + 1, ..st });
        } else if c == '}' {
            if st.depth > 1 {
                lemma_object_len_from_bound(input, i + 1, ScanState { depth: (st.depth - 1) as nat, ..st });
            }
        } else {
            lemma_object_len_from_bound(input, i + 1, st);
        }
    }
}

proof fn lemma_object_len_bound(input: Seq<char>)
    ensures
        object_len(input) matches Some(n) ==> n <= input.len(),
{
    lemma_object_len_from_bound(input, 0, ScanState { depth: 0, in_string: false, escaped: false });
}

/* Strings embedded in the page */

/// What `serde_json::from_str::<String>` makes of a JSON string literal: the
/// unescaped text, or nothing when the literal is malformed.
pub uninterp spec fn json_string_literal_of(text: Seq<char>) -> Option<Seq<char>>;

/// Parses a JSON string literal (quotes included) with `serde_json::from_str::<String>`.
/// Trusted: the result is the named outcome for the given text; nothing more is
/// claimed about JSON unescaping.
#[verifier::external_body]
fn parse_json_string_literal(text: &str) -> (r: Option<String>)
    ensures
        opt_string_view(r) == json_string_literal_of(text@),
{
    serde_json::from_str::<String>(text).ok()
}

/// Position of the first `"` in `tail[i..]` that no backslash escapes.
pub open spec fn closing_quote_from(tail: Seq<char>, i: int, escaped: bool) -> Option<int>
    decreases tail.len() - i,
{
    if i < 0 || i >= tail.len() {
        None
    } else if tail[i] == '"' && !escaped {
        Some(i)
    } else {
        closing_quote_from(tail, i + 1, tail[i] == '\\' && !escaped)
    }
}

/// The marker that introduces `"key":"` in the page.
pub open spec fn string_marker(key: Seq<char>) -> Seq<char> {
    seq!['"'] + key + seq!['"', ':', '"']
}

/// `extract_json_string`: the unescaped value of the first `"key":"..."` pair in the page.
pub open spec fn json_string_value_spec(html: Seq<char>, key: Seq<char>) -> Option<Seq<char>> {
    let marker = string_marker(key);
    let at = find_str(html, marker);
    if at < 0 {
        None
    } else {
        let tail = html.skip(at + marker.len());
        match closing_quote_from(tail, 0, false) {
            Some(end) => json_string_literal_of(seq!['"'] + tail.take(end) + seq!['"']),
            None => None,
        }
    }
}

fn closing_quote(tail: &[char]) -> (r: Option<usize>)
    ensures
        match r {
            Some(i) => closing_quote_from(tail@, 0, false) == Some(i as int) && i < tail@.len(),
            None => closing_quote_from(tail@, 0, false).is_none(),
        },
{
    let mut escaped = false;
    let mut i: usize = 0;
    while i < tail.len()
        invariant
            i <= tail@.len(),
            closing_quote_from(tail@, 0, false) == closing_quote_from(tail@, i as int, escaped),
        decreases tail@.len() - i,
    {
        let c = tail[i];
        if c == '"' && !escaped {
            return Some(i);
        }
        escaped = c == '\\' && !escaped;
        i += 1;
    }
    None
}

/// The unescaped string value that follows `"key":"` in the page, if any.
pub fn extract_json_string(html: &str, key: &str) -> (r: Option<String>)
    ensures
        opt_string_view(r) == json_string_value_spec(html@, key@),
{
    let h = chars_of(html);
    let mut marker: Vec<char> = Vec::new();
    marker.push('"');
    let k = chars_of(key);
    append_chars(&mut marker, k.as_slice());
    marker.push('"');
    marker.push(':');
    marker.push('"');
    assert(marker@ =~= string_marker(key@));
    match find_chars(h.as_slice(), marker.as_slice()) {
        None => None,
        Some(at) => {
            let hlen = h.len();
            let mlen = marker.len();
            let tail = slice_chars(h.as_slice(), at + mlen, hlen);
            assert(tail@ =~= html@.skip(at + marker@.len()));
            match closing_quote(tail.as_slice()) {
                None => None,
                Some(end) => {
                    let mut literal: Vec<char> = Vec::new();
                    literal.push('"');
                    let body = slice_chars(tail.as_slice(), 0, end);
                    append_chars(&mut literal, body.as_slice());
                    literal.push('"');
                    assert(literal@ =~= seq!['"'] + tail@.take(end as int) + seq!['"']);
                    let text = string_of(literal.as_slice());
                    parse_json_string_literal(text.as_str())
                },
            }
        },
    }
}

/* Continuation pages */

/// How many continuation pages one playlist may take.
pub const MAX_CONTINUATION_PAGES: usize = 100;

/// The continuation tokens still to fetch, those already taken, and the pages fetched.
#[derive(Debug)]
pub struct ContinuationQueue {
    queue: Vec<String>,
    seen: Vec<String>,
    pages: usize,
}

pub struct QueueView {
    pub pending: Seq<Seq<char>>,
    pub seen: Seq<Seq<char>>,
    pub pages: nat,
}

impl View for ContinuationQueue {
    type V = QueueView;

    closed spec fn view(&self) -> QueueView {
        QueueView { pending: strings_of(self.queue@), seen: strings_of(self.seen@), pages: self.pages as nat }
    }
}

pub open spec fn token_result_view(r: Result<Option<String>, YoutubeError>) -> Result<Option<Seq<char>>, YoutubeError> {
    match r {
        Ok(t) => Ok(opt_string_view(t)),
        Err(e) => Err(e),
    }
}

/// The next token to fetch: tokens already seen are dropped; a new token past the
/// page limit is refused.
pub open spec fn next_token_spec(q: QueueView) -> (Result<Option<Seq<char>>, YoutubeError>, QueueView)
    decreases q.pending.len(),
{
    if q.pending.len() == 0 {
        (Ok(None), q)
    } else {
        let t = q.pending[0];
        let rest = q.pending.drop_first();
        if q.seen.contains(t) {
            next_token_spec(QueueView { pending: rest, ..q })
        } else if q.pages >= MAX_CONTINUATION_PAGES {
            (Err(YoutubeError::PlaylistTooLarge), QueueView { pending: rest, seen: q.seen.push(t), pages: q.pages })
        } else {
            (Ok(Some(t)), QueueView { pending: rest, seen: q.seen.push(t), pages: q.pages + 1 })
        }
    }
}

fn contains_string(v: &Vec<String>, s: &String) -> (r: bool)
    ensures
        r == strings_of(v@).contains(s@),
{
    let mut i: usize = 0;
    while i < v.len()
        invariant
            i <= v@.len(),
            forall|j: int| 0 <= j < i ==> (#[trigger] v@[j])@ != s@,
        decreases v@.len() - i,
    {
        if v[i] == *s {
            assert(strings_of(v@)[i as int] == s@);
            return true;
        }
        i += 1;
    }
    assert forall|j: int| 0 <= j < strings_of(v@).len() implies strings_of(v@)[j] != s@ by {
        assert(v@[j]@ != s@);
    }
    false
}

impl ContinuationQueue {
    /// A queue holding the tokens found in the first page.
    pub fn new(tokens: Vec<String>) -> (q: Self)
        ensures
            q@ == (QueueView { pending: strings_of(tokens@), seen: Seq::empty(), pages: 0 }),
    {
        let q = ContinuationQueue { queue: tokens, seen: Vec::new(), pages: 0 };
        assert(strings_of(q.seen@) =~= Seq::<Seq<char>>::empty());
        q
    }

    /// Pages fetched so far.
    pub fn pages(&self) -> (n: usize)
        ensures
            n == self@.pages,
    {
        self.pages
    }

    /// The next token whose page should be fetched, `Ok(None)` when none is left.
    pub fn next_token(&mut self) -> (r: Result<Option<String>, YoutubeError>)
        ensures
            (token_result_view(r), final(self)@) == next_token_spec(old(self)@),
    {
        loop
            invariant
                next_token_spec(old(self)@) == next_token_spec(self@),
            decreases self.queue@.len(),
        {
            if self.queue.len() == 0 {
                return Ok(None);
            }
            let ghost before = self@;
            let t = self.queue.remove(0);
            assert(strings_of(self.queue@) =~= before.pending.drop_first());
            assert(t@ == before.pending[0]);
            if contains_string(&self.seen, &t) {
                continue;
            }
            self.seen.push(t.clone());
            assert(strings_of(self.seen@) =~= before.seen.push(t@));
            if self.pages >= MAX_CONTINUATION_PAGES {
                return Err(YoutubeError::PlaylistTooLarge);
            }
            self.pages = self.pages + 1;
            return Ok(Some(t));
        }
    }

    /// Takes in one fetched page: its videos are appended, its tokens queued.
    pub fn add_page(&mut self, response: &Json, videos: &mut Vec<VideoInfo>)
        ensures
            final(self)@ == (QueueView {
                pending: old(self)@.pending + playlist_data_spec(*response).1,
                ..old(self)@
            }),
            videos_view(final(videos)@) == videos_view(old(videos)@) + playlist_data_spec(*response).0,
    {
        let mut next: Vec<String> = Vec::new();
        collect_playlist_data(response, videos, &mut next);
        assert(strings_of(next@) =~= Seq::<Seq<char>>::empty() + playlist_data_spec(*response).1);
        let ghost q0 = self.queue@;
        let ghost s0 = self.seen@;
        let ghost p0 = self.pages;
        let mut k: usize = 0;
        while k < next.len()
            invariant
                k <= next@.len(),
                self.seen@ == s0,
                self.pages == p0,
                strings_of(self.queue@) == strings_of(q0) + strings_of(next@).take(k as int),
            decreases next@.len() - k,
        {
            let ghost before = self.queue@;
            let item = next[k].clone();
            self.queue.push(item);
            assert(self.queue@ == before.push(next@[k as int]));
            assert(strings_of(self.queue@) =~= strings_of(before).push(next@[k as int]@));
            assert(strings_of(next@).take(k + 1) =~= strings_of(next@).take(k as int).push(next@[k as int]@));
            assert(strings_of(self.queue@) =~= strings_of(q0) + strings_of(next@).take(k + 1));
            k += 1;
        }
        assert(strings_of(next@).take(k as int) =~= strings_of(next@));
    }
}

/* Assembling a playlist */

pub open spec fn canonical_playlist_url_spec(playlist_id: Seq<char>) -> Seq<char> {
    "https://www.youtube.com/playlist?list="@ + playlist_id
}

/// The canonical address of a playlist.
pub fn canonical_playlist_url(playlist_id: &str) -> (url: String)
    ensures
        url@ == canonical_playlist_url_spec(playlist_id@),
{
    with_prefix("https://www.youtube.com/playlist?list=", chars_of(playlist_id).as_slice())
}

pub open spec fn continuation_endpoint_spec(api_key: Seq<char>) -> Seq<char> {
    "https://www.youtube.com/youtubei/v1/browse?key="@ + api_key
}

/// The endpoint that serves continuation pages.
pub fn continuation_endpoint(api_key: &str) -> (url: String)
    ensures
        url@ == continuation_endpoint_spec(api_key@),
{
    with_prefix("https://www.youtube.com/youtubei/v1/browse?key=", chars_of(api_key).as_slice())
}

/// The markers after which a playlist page embeds its initial data, tried in order.
pub open spec fn initial_data_markers() -> Seq<Seq<char>> {
    seq!["var ytInitialData ="@, "window[\"ytInitialData\"] ="@, "ytInitialData ="@]
}

/// The initial data object embedded in a playlist page.
pub fn playlist_initial_data(html: &str) -> (r: Result<String, YoutubeError>)
    ensures
        match r {
            Ok(o) => object_after_markers(html@, initial_data_markers(), 0) == Some(o@),
            Err(e) => e == YoutubeError::MissingPlaylistData
                && object_after_markers(html@, initial_data_markers(), 0).is_none(),
        },
{
    let mut markers: Vec<&str> = Vec::new();
    markers.push("var ytInitialData =");
    markers.push("window[\"ytInitialData\"] =");
    markers.push("ytInitialData =");
    assert(markers@.map_values(|m: &str| m@) =~= initial_data_markers());
    match extract_json_object_after_any(html, &markers) {
        Some(o) => Ok(o),
        None => Err(YoutubeError::MissingPlaylistData),
    }
}

pub open spec fn playlist_title_or_default(v: Json) -> Seq<char> {
    match playlist_title_spec(v) {
        Some(t) => t,
        None => "YouTube playlist"@,
    }
}

/// The playlist's title, or "YouTube playlist" when the data names none.
pub fn playlist_title(initial: &Json) -> (t: String)
    ensures
        t@ == playlist_title_or_default(*initial),
{
    match find_playlist_title(initial) {
        Some(t) => string_of(t.as_slice()),
        None => string_of(chars_of("YouTube playlist").as_slice()),
    }
}

pub open spec fn credentials_spec(html: Seq<char>) -> Result<(Seq<char>, Seq<char>), YoutubeError> {
    match json_string_value_spec(html, "INNERTUBE_API_KEY"@) {
        None => Err(YoutubeError::MissingApiKey),
        Some(key) => match json_string_value_spec(html, "INNERTUBE_CLIENT_VERSION"@) {
            None => Err(YoutubeError::MissingClientVersion),
            Some(version) => Ok((key, version)),
        },
    }
}

/// The API key and client version that continuation requests need.
pub fn continuation_credentials(html: &str) -> (r: Result<(String, String), YoutubeError>)
    ensures
        match r {
            Ok((key, version)) => credentials_spec(html@) == Ok::<(Seq<char>, Seq<char>), YoutubeError>((key@, version@)),
            Err(e) => credentials_spec(html@) == Err::<(Seq<char>, Seq<char>), YoutubeError>(e),
        },
{
    let key = match extract_json_string(html, "INNERTUBE_API_KEY") {
        Some(k) => k,
        None => return Err(YoutubeError::MissingApiKey),
    };
    let version = match extract_json_string(html, "INNERTUBE_CLIENT_VERSION") {
        Some(v) => v,
        None => return Err(YoutubeError::MissingClientVersion),
    };
    Ok((key, version))
}

fn text_of(s: &str) -> (out: String)
    ensures
        out@ == s@,
{
    string_of(chars_of(s).as_slice())
}

/// The body of a continuation request.
pub fn continuation_request(client_version: &str, token: &str) -> (body: Json)
    ensures
        json_str(json_get(body, "continuation"@)) == Some(token@),
        json_str(json_get_opt(json_get_opt(json_get(body, "context"@), "client"@), "clientName"@))
            == Some("WEB"@),
        json_str(json_get_opt(json_get_opt(json_get(body, "context"@), "client"@), "clientVersion"@))
            == Some(client_version@),
        body matches Json::Object(entries) && entries@.len() == 2,
{
    let mut client: Vec<(String, Json)> = Vec::new();
    client.push((text_of("clientName"), Json::Str(text_of("WEB"))));
    client.push((text_of("clientVersion"), Json::Str(text_of(client_version))));
    let mut context: Vec<(String, Json)> = Vec::new();
    context.push((text_of("client"), Json::Object(client)));
    let mut body: Vec<(String, Json)> = Vec::new();
    body.push((text_of("context"), Json::Object(context)));
    body.push((text_of("continuation"), Json::Str(text_of(token))));
    proof {
        reveal_strlit("clientName");
        reveal_strlit("clientVersion");
        reveal_strlit("client");
        reveal_strlit("context");
        reveal_strlit("continuation");
        assert("context"@[4] != "continuation"@[4]);
        assert("clientName"@[6] != "clientVersion"@[6]);
        assert(crate::json::lookup(body@, "continuation"@, 1) == Some(body@[1].1));
        assert(crate::json::lookup(client@, "clientVersion"@, 1) == Some(client@[1].1));
    }
    Json::Object(body)
}

pub open spec fn preview_spec(
    playlist_id: Seq<char>,
    title: Seq<char>,
    videos: Seq<VideoView>,
) -> Result<(Seq<char>, Seq<char>, Seq<char>, Seq<VideoView>), YoutubeError> {
    let unique = dedup_videos(videos);
    if unique.len() == 0 {
        Err(YoutubeError::NoVideos)
    } else {
        Ok((playlist_id, title, canonical_playlist_url_spec(playlist_id), unique))
    }
}

pub open spec fn preview_view(p: VideoPlaylistPreview) -> (Seq<char>, Seq<char>, Seq<char>, Seq<VideoView>) {
    (p.playlist_id@, p.playlist_title@, p.playlist_url@, videos_view(p.videos@))
}

/// The playlist preview: videos without repeats, in order; refused when none is left.
pub fn finish_playlist(playlist_id: String, title: String, videos: Vec<VideoInfo>) -> (r: Result<
    VideoPlaylistPreview,
    YoutubeError,
>)
    ensures
        match r {
            Ok(p) => preview_spec(playlist_id@, title@, videos_view(videos@)) == Ok::<
                (Seq<char>, Seq<char>, Seq<char>, Seq<VideoView>),
                YoutubeError,
            >(preview_view(p)) && p.video_count == p.videos@.len(),
            Err(e) => preview_spec(playlist_id@, title@, videos_view(videos@)) == Err::<
                (Seq<char>, Seq<char>, Seq<char>, Seq<VideoView>),
                YoutubeError,
            >(e),
        },
{
    let mut videos = videos;
    deduplicate_videos(&mut videos);
    if videos.len() == 0 {
        return Err(YoutubeError::NoVideos);
    }
    let url = canonical_playlist_url(playlist_id.as_str());
    let count = videos.len();
    Ok(VideoPlaylistPreview {
        playlist_id,
        playlist_title: title,
        playlist_url: url,
        video_count: count,
        videos,
    })
}

/* Laws */

proof fn lemma_dedup_members(s: Seq<VideoView>)
    ensures
        forall|i: int| 0 <= i < dedup_videos(s).len() ==> s.contains(#[trigger] dedup_videos(s)[i]),
    decreases s.len(),
{
    if s.len() > 0 {
        let d = s.drop_last();
        lemma_dedup_members(d);
        let rd = dedup_videos(d);
        let r = dedup_videos(s);
        assert forall|i: int| 0 <= i < r.len() implies s.contains(#[trigger] r[i]) by {
            if i < rd.len() {
                assert(r[i] == rd[i]);
                let u = choose|u: int| 0 <= u < d.len() && d[u] == rd[i];
                assert(s[u] == d[u]);
            } else {
                assert(s[s.len() - 1] == r[i]);
            }
        }
    }
}

proof fn lemma_dedup_distinct(s: Seq<VideoView>)
    ensures
        forall|i: int, j: int|
            0 <= i < j < dedup_videos(s).len() ==> #[trigger] dedup_videos(s)[i].video_id != #[trigger] dedup_videos(
                s,
            )[j].video_id,
    decreases s.len(),
{
    if s.len() > 0 {
        let d = s.drop_last();
        lemma_dedup_distinct(d);
        lemma_dedup_members(d);
        let rd = dedup_videos(d);
        let r = dedup_videos(s);
        let x = s.last();
        if !id_among(s, x.video_id, s.len() - 1) {
            assert forall|i: int, j: int| 0 <= i < j < r.len() implies #[trigger] r[i].video_id != #[trigger] r[j].video_id by {
                if j < rd.len() {
                    assert(r[i] == rd[i] && r[j] == rd[j]);
                } else {
                    assert(r[i] == rd[i]);
                    assert(r[j] == x);
                    let u = choose|u: int| 0 <= u < d.len() && d[u] == rd[i];
                    assert(s[u] == d[u]);
                    if rd[i].video_id == x.video_id {
                        assert(s[u].video_id == x.video_id);
                    }
                }
            }
        }
    }
}

proof fn lemma_dedup_covers(s: Seq<VideoView>)
    ensures
        forall|i: int|
            0 <= i < s.len() ==> exists|j: int|
                0 <= j < dedup_videos(s).len() && #[trigger] dedup_videos(s)[j].video_id == (#[trigger] s[i]).video_id,
    decreases s.len(),
{
    if s.len() > 0 {
        let d = s.drop_last();
        lemma_dedup_covers(d);
        let rd = dedup_videos(d);
        let r = dedup_videos(s);
        let x = s.last();
        assert forall|i: int| 0 <= i < s.len() implies exists|j: int|
            0 <= j < r.len() && #[trigger] r[j].video_id == (#[trigger] s[i]).video_id by {
            if i < s.len() - 1 {
                assert(s[i] == d[i]);
                let j = choose|j: int| 0 <= j < rd.len() && #[trigger] rd[j].video_id == (#[trigger] d[i]).video_id;
                assert(r[j] == rd[j]);
            } else if id_among(s, x.video_id, s.len() - 1) {
                let w = choose|w: int| 0 <= w < s.len() - 1 && #[trigger] s[w].video_id == x.video_id;
                assert(s[w] == d[w]);
                let j = choose|j: int| 0 <= j < rd.len() && #[trigger] rd[j].video_id == (#[trigger] d[w]).video_id;
                assert(r[j] == rd[j]);
            } else {
                assert(r[r.len() - 1] == x);
            }
        }
    }
}

/// After deduplication no two videos share an ID, every video kept is one of
/// the input's, and every ID of the input is kept.
pub proof fn lemma_dedup_videos(s: Seq<VideoView>)
    ensures
        forall|i: int, j: int|
            0 <= i < j < dedup_videos(s).len() ==> #[trigger] dedup_videos(s)[i].video_id != #[trigger] dedup_videos(
                s,
            )[j].video_id,
        forall|i: int| 0 <= i < dedup_videos(s).len() ==> s.contains(#[trigger] dedup_videos(s)[i]),
        forall|i: int|
            0 <= i < s.len() ==> exists|j: int|
                0 <= j < dedup_videos(s).len() && #[trigger] dedup_videos(s)[j].video_id == (#[trigger] s[i]).video_id,
{
    lemma_dedup_members(s);
    lemma_dedup_distinct(s);
    lemma_dedup_covers(s);
}

/// A continuation token is handed out only if it was never taken before, and
/// then it counts as taken and as one more page; no more than the page limit
/// is ever handed out; tokens once taken stay taken.
pub proof fn lemma_next_token(q: QueueView)
    ensures
        ({
            let (r, next) = next_token_spec(q);
            &&& (q.pages <= MAX_CONTINUATION_PAGES ==> next.pages <= MAX_CONTINUATION_PAGES)
            &&& (forall|t: Seq<char>| q.seen.contains(t) ==> next.seen.contains(t))
            &&& (r matches Ok(Some(t)) ==> !q.seen.contains(t) && next.seen.contains(t) && next.pages == q.pages + 1
                && q.pages < MAX_CONTINUATION_PAGES)
            &&& (r matches Ok(None) ==> next.pending.len() == 0)
        }),
    decreases q.pending.len(),
{
    if q.pending.len() > 0 {
        let t = q.pending[0];
        if q.seen.contains(t) {
            lemma_next_token(QueueView { pending: q.pending.drop_first(), ..q });
        } else {
            assert(q.seen.push(t)[q.seen.len() as int] == t);
            assert forall|x: Seq<char>| q.seen.contains(x) implies q.seen.push(t).contains(x) by {
                let i = choose|i: int| 0 <= i < q.seen.len() && q.seen[i] == x;
                assert(q.seen.push(t)[i] == x);
            }
        }
    }
}

} // verus!
