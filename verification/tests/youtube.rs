use courselib::json::Json;
use courselib::youtube::{
    canonical_playlist_url, collect_playlist_data, format_seconds, parse_duration_seconds, continuation_credentials, continuation_endpoint,
    continuation_request, deduplicate_videos, extract_json_object_after_any, extract_json_string,
    finish_playlist, playlist_id_from_url, playlist_initial_data, playlist_title, ContinuationQueue,
    VideoInfo, YoutubeError,
};

fn s(text: &str) -> Json {
    Json::Str(text.to_string())
}

fn obj(members: Vec<(&str, Json)>) -> Json {
    Json::Object(members.into_iter().map(|(k, v)| (k.to_string(), v)).collect())
}

fn video(id: &str) -> VideoInfo {
    VideoInfo {
        video_id: id.to_string(),
        title: id.to_string(),
        duration: None,
        duration_seconds: None,
        thumbnail_url: None,
        url: format!("https://www.youtube.com/watch?v={id}"),
        embed_url: format!("https://www.youtube.com/embed/{id}"),
    }
}

#[test]
fn accepts_playlist_and_watch_urls() {
    assert_eq!(
        playlist_id_from_url("https://www.youtube.com/playlist?list=PLabc-_123").unwrap(),
        "PLabc-_123"
    );
    assert_eq!(
        playlist_id_from_url("https://youtube.com/watch?v=video&list=PLcourse").unwrap(),
        "PLcourse"
    );
}

#[test]
fn parses_current_lockup_view_model_shape() {
    let value = obj(vec![(
        "lockupViewModel",
        obj(vec![
            ("contentId", s("current")),
            ("contentType", s("LOCKUP_CONTENT_TYPE_VIDEO")),
            (
                "metadata",
                obj(vec![(
                    "lockupMetadataViewModel",
                    obj(vec![("title", obj(vec![("content", s("Current title"))]))]),
                )]),
            ),
            (
                "contentImage",
                obj(vec![(
                    "thumbnailViewModel",
                    obj(vec![
                        (
                            "image",
                            obj(vec![(
                                "sources",
                                Json::Array(vec![obj(vec![("url", s("https://example.com/thumb.jpg"))])]),
                            )]),
                        ),
                        (
                            "overlays",
                            Json::Array(vec![obj(vec![(
                                "thumbnailBottomOverlayViewModel",
                                obj(vec![(
                                    "badges",
                                    Json::Array(vec![obj(vec![(
                                        "thumbnailBadgeViewModel",
                                        obj(vec![("text", s("1:02:03"))]),
                                    )])]),
                                )]),
                            )])]),
                        ),
                    ]),
                )]),
            ),
        ]),
    )]);
    let mut videos = Vec::new();
    let mut tokens = Vec::new();
    collect_playlist_data(&value, &mut videos, &mut tokens);
    assert_eq!(videos[0].video_id, "current");
    assert_eq!(videos[0].title, "Current title");
    assert_eq!(videos[0].duration_seconds, Some(3723));
}

#[test]
fn rejects_non_youtube_and_missing_playlist_ids() {
    assert!(playlist_id_from_url("https://example.com/?list=PLabc").is_err());
    assert!(playlist_id_from_url("https://youtube.com/watch?v=abc").is_err());
}

#[test]
fn extracts_balanced_initial_data() {
    let html = r#"<script>var ytInitialData = {"text":"a } brace","nested":{"ok":true}};</script>"#;
    let json = extract_json_object_after_any(html, &vec!["var ytInitialData ="]).unwrap();
    let value: serde_json::Value = serde_json::from_str(&json).unwrap();
    assert_eq!(value.pointer("/nested/ok"), Some(&serde_json::Value::Bool(true)));
}

#[test]
fn collects_videos_in_array_order() {
    let value = obj(vec![(
        "contents",
        Json::Array(vec![
            obj(vec![(
                "playlistVideoRenderer",
                obj(vec![
                    ("videoId", s("one")),
                    ("title", obj(vec![("simpleText", s("First"))])),
                    ("lengthSeconds", s("61")),
                ]),
            )]),
            obj(vec![(
                "playlistVideoRenderer",
                obj(vec![
                    ("videoId", s("two")),
                    ("title", obj(vec![("runs", Json::Array(vec![obj(vec![("text", s("Second"))])]))])),
                ]),
            )]),
        ]),
    )]);
    let mut videos = Vec::new();
    let mut tokens = Vec::new();
    collect_playlist_data(&value, &mut videos, &mut tokens);
    assert_eq!(
        videos.iter().map(|video| video.video_id.as_str()).collect::<Vec<_>>(),
        vec!["one", "two"]
    );
    assert_eq!(videos[0].duration.as_deref(), Some("1:01"));
}

#[test]
fn playlist_errors_have_their_messages() {
    assert_eq!(playlist_id_from_url("not a url").unwrap_err(), YoutubeError::InvalidUrl);
    assert_eq!(
        playlist_id_from_url("https://example.com/?list=PLabc").unwrap_err(),
        YoutubeError::NotYoutube
    );
    assert_eq!(
        playlist_id_from_url("https://youtube.com/watch?v=abc").unwrap_err(),
        YoutubeError::MissingPlaylistId
    );
    assert_eq!(
        playlist_id_from_url("https://youtube.com/playlist?list=PL%20x").unwrap_err(),
        YoutubeError::InvalidPlaylistId
    );
    assert!(YoutubeError::NoVideos.message().contains("no videos"));
}

#[test]
fn continuation_tokens_are_collected() {
    let value = obj(vec![(
        "continuationItemRenderer",
        obj(vec![(
            "continuationEndpoint",
            obj(vec![("continuationCommand", obj(vec![("token", s("next-page"))]))]),
        )]),
    )]);
    let mut videos = Vec::new();
    let mut tokens = Vec::new();
    collect_playlist_data(&value, &mut videos, &mut tokens);
    assert!(videos.is_empty());
    assert_eq!(tokens, vec!["next-page".to_string()]);
}

#[test]
fn queue_skips_seen_tokens_and_counts_pages() {
    let mut queue = ContinuationQueue::new(vec!["a".to_string(), "a".to_string(), "b".to_string()]);
    assert_eq!(queue.next_token(), Ok(Some("a".to_string())));
    assert_eq!(queue.next_token(), Ok(Some("b".to_string())));
    assert_eq!(queue.next_token(), Ok(None));
    assert_eq!(queue.pages(), 2);
    let page = obj(vec![("continuationCommand", obj(vec![("token", s("a"))]))]);
    let mut videos = Vec::new();
    queue.add_page(&page, &mut videos);
    assert_eq!(queue.next_token(), Ok(None));
}

#[test]
fn duplicate_videos_keep_their_first_place() {
    let mut videos = vec![video("a"), video("b"), video("a")];
    deduplicate_videos(&mut videos);
    assert_eq!(videos.iter().map(|v| v.video_id.as_str()).collect::<Vec<_>>(), vec!["a", "b"]);
}

#[test]
fn finishing_an_empty_playlist_is_refused() {
    assert_eq!(
        finish_playlist("PL1".to_string(), "T".to_string(), Vec::new()).unwrap_err(),
        YoutubeError::NoVideos
    );
    let preview = finish_playlist("PL1".to_string(), "T".to_string(), vec![video("a"), video("a")]).unwrap();
    assert_eq!(preview.video_count, 1);
    assert_eq!(preview.playlist_url, "https://www.youtube.com/playlist?list=PL1");
}

#[test]
fn page_credentials_and_endpoints() {
    let html = r#"{"INNERTUBE_API_KEY":"key\u0031","INNERTUBE_CLIENT_VERSION":"2.0"}"#;
    assert_eq!(
        continuation_credentials(html),
        Ok(("key1".to_string(), "2.0".to_string()))
    );
    assert_eq!(continuation_credentials("{}"), Err(YoutubeError::MissingApiKey));
    assert_eq!(
        continuation_credentials(r#"{"INNERTUBE_API_KEY":"k"}"#),
        Err(YoutubeError::MissingClientVersion)
    );
    assert_eq!(extract_json_string(r#""a":"b""#, "a"), Some("b".to_string()));
    assert_eq!(
        continuation_endpoint("K"),
        "https://www.youtube.com/youtubei/v1/browse?key=K"
    );
    assert_eq!(canonical_playlist_url("PL"), "https://www.youtube.com/playlist?list=PL");
    assert_eq!(playlist_initial_data("<html></html>"), Err(YoutubeError::MissingPlaylistData));
    assert_eq!(
        playlist_initial_data("ytInitialData = {\"a\":1};").unwrap(),
        "{\"a\":1}"
    );
}

#[test]
fn playlist_title_falls_back() {
    assert_eq!(playlist_title(&obj(vec![])), "YouTube playlist");
    let body = continuation_request("2.0", "tok");
    let json = match &body {
        Json::Object(entries) => entries.len(),
        _ => 0,
    };
    assert_eq!(json, 2);
}

#[test]
fn formatted_durations_parse_back() {
    for n in [0u64, 59, 61, 3599, 3600, 3723, 86399, 360000] {
        let text: Vec<char> = n.to_string().chars().collect();
        let formatted = format_seconds(&text);
        assert_eq!(parse_duration_seconds(&formatted), Some(n));
    }
    assert_eq!(format_seconds(&['3', '7', '2', '3']).iter().collect::<String>(), "1:02:03");
}
