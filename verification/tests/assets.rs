use courselib::assets::{
    append_chunk, check_asset_size, check_content_length, collect_image_urls, find_asset,
    finish_download, follow_redirect, local_attachment_record, missing_protocol_url,
    parse_asset_request, protocol_url, resolve_image_url, rewrite_image_urls, sniff_image,
    validate_image_url, AssetError, AssetManifest, AssetOwnership, AssetPlan, ImageStep,
    MAX_IMAGE_BYTES, MAX_IMAGE_COUNT,
};

#[test]
fn resolves_relative_repository_images() {
    let base = "https://raw.githubusercontent.com/owner/repo/main/docs/readme.md";
    let resolved = resolve_image_url("../images/diagram.png", Some(base)).unwrap();
    assert_eq!(
        resolved.href,
        "https://raw.githubusercontent.com/owner/repo/main/images/diagram.png"
    );
}

#[test]
fn rejects_http_private_and_unapproved_hosts() {
    assert!(resolve_image_url("http://github.com/a.png", None).is_err());
    assert!(resolve_image_url("https://127.0.0.1/a.png", None).is_err());
    assert!(resolve_image_url("https://example.com/a.png", None).is_err());
}

#[test]
fn rewrites_inline_and_reference_images() {
    let markdown = "![One](image.png)\n\n![Two][two]\n\n[two]: ./two.jpg\n";
    let replacements = vec![
        (
            "image.png".to_string(),
            "courselib-asset://localhost/course/c/one".to_string(),
        ),
        (
            "./two.jpg".to_string(),
            "courselib-asset://localhost/course/c/two".to_string(),
        ),
    ];
    let rewritten = rewrite_image_urls(markdown, &replacements).unwrap();
    assert!(rewritten.contains("courselib-asset://localhost/course/c/one"));
    assert!(rewritten.contains("courselib-asset://localhost/course/c/two"));
}

#[test]
fn detects_supported_raster_formats_only() {
    assert_eq!(
        sniff_image(b"\x89PNG\r\n\x1a\nrest"),
        Some(("image/png", "png"))
    );
    assert_eq!(sniff_image(b"<svg></svg>"), None);
}

#[test]
fn sniffs_each_raster_format() {
    assert_eq!(sniff_image(b"\xff\xd8\xffrest"), Some(("image/jpeg", "jpg")));
    assert_eq!(sniff_image(b"GIF89a..."), Some(("image/gif", "gif")));
    assert_eq!(sniff_image(b"RIFF\x00\x00\x00\x00WEBPVP8"), Some(("image/webp", "webp")));
    assert_eq!(sniff_image(b""), None);
}

#[test]
fn local_attachments_are_rewritten_served_and_preserved() {
    let image_bytes = b"\x89PNG\r\n\x1a\nfake-image-data";
    let (record, aliases, stored) =
        local_attachment_record(image_bytes, "/tmp/diagram.png", Some("diagram.png"), Some("diagram.png"))
            .unwrap();
    let hash = "3becb6c623beb232f1f932e12706b176966581634b11882953bd7b7796b6dc29";
    assert_eq!(record.id, format!("local-{hash}"));
    assert_eq!(record.ownership, AssetOwnership::Local);
    assert_eq!(record.media_type, "image/png");
    assert_eq!(record.sha256, format!("sha256:{hash}"));
    assert_eq!(stored, format!("{hash}.png"));
    assert_eq!(aliases, vec!["diagram.png".to_string(), "./diagram.png".to_string()]);

    let (mut plan, sources) =
        AssetPlan::begin("image-course", AssetManifest { assets: Vec::new() }, 1).unwrap();
    assert!(sources.is_empty());
    plan.add_local(record.clone(), aliases).unwrap();
    let markdown = "# Images\n\n![Diagram](diagram.png)\n";
    for original in collect_image_urls(markdown) {
        assert!(matches!(plan.next_image(&original), ImageStep::Done));
    }
    let (manifest, replacements, warnings) = plan.finish();
    assert!(warnings.is_empty());
    for (_, target) in &replacements {
        assert!(manifest.assets.iter().any(|a| *target == protocol_url("image-course", &a.id)));
    }
    let rewritten = rewrite_image_urls(markdown, &replacements).unwrap();
    assert!(rewritten.contains("courselib-asset://localhost/course/image-course/local-"));
    assert_eq!(manifest.assets.len(), 1);

    let (slug, id) = parse_asset_request(&format!("/course/image-course/{}", manifest.assets[0].id)).unwrap();
    assert_eq!(slug, "image-course");
    let found = find_asset(&manifest, &id).unwrap();
    assert_eq!(found.media_type, "image/png");
    assert!(check_asset_size(found, image_bytes.len()).is_ok());

    let (plan, _) = AssetPlan::begin("image-course", manifest, 0).unwrap();
    let (kept, _, _) = plan.finish();
    assert_eq!(kept.assets.len(), 1);
    assert!(parse_asset_request("/course/image-course/../../settings").is_err());
}

#[test]
fn attachment_errors() {
    assert_eq!(
        local_attachment_record(b"<svg/>", "a.svg", Some("a.svg"), None).unwrap_err(),
        AssetError::UnsupportedAttachment("a.svg".to_string())
    );
    assert_eq!(
        local_attachment_record(b"\x89PNG\r\n\x1a\n", "dir", None, None).unwrap_err(),
        AssetError::NoFileName
    );
    assert!(AssetPlan::begin("c", AssetManifest { assets: Vec::new() }, MAX_IMAGE_COUNT + 1).is_err());
}

#[test]
fn duplicate_aliases_are_refused() {
    let png = b"\x89PNG\r\n\x1a\none";
    let other = b"\x89PNG\r\n\x1a\ntwo";
    let (a, a_aliases, _) = local_attachment_record(png, "a", Some("x.png"), None).unwrap();
    let (b, b_aliases, _) = local_attachment_record(other, "b", Some("x.png"), None).unwrap();
    let (mut plan, _) = AssetPlan::begin("c", AssetManifest { assets: Vec::new() }, 2).unwrap();
    plan.add_local(a, a_aliases).unwrap();
    assert_eq!(
        plan.add_local(b, b_aliases).unwrap_err(),
        AssetError::DuplicateAlias("x.png".to_string())
    );
}

#[test]
fn asset_requests_are_checked() {
    assert_eq!(parse_asset_request("/other/c/id").unwrap_err(), AssetError::InvalidAssetPath);
    assert_eq!(parse_asset_request("/course/c/a.b").unwrap_err(), AssetError::InvalidAssetId);
    assert_eq!(
        find_asset(&AssetManifest { assets: Vec::new() }, "x").unwrap_err(),
        AssetError::AssetNotFound
    );
    assert_eq!(protocol_url("c", "id"), "courselib-asset://localhost/course/c/id");
    assert_eq!(missing_protocol_url(), "courselib-asset://localhost/missing");
}

#[test]
fn image_urls_are_validated() {
    assert_eq!(resolve_image_url("", None).unwrap_err(), AssetError::EmptyImageUrl);
    assert_eq!(resolve_image_url("a.png", None).unwrap_err(), AssetError::NoBaseUrl);
    assert_eq!(resolve_image_url("http://github.com/a.png", None).unwrap_err(), AssetError::NotHttps);
    assert_eq!(resolve_image_url("https://localhost/a.png", None).unwrap_err(), AssetError::LocalHost);
    assert_eq!(resolve_image_url("https://10.0.0.1/a.png", None).unwrap_err(), AssetError::PrivateHost);
    let ok = resolve_image_url("https://raw.githubusercontent.com/a.png#x", None).unwrap();
    assert_eq!(ok.href_without_fragment, "https://raw.githubusercontent.com/a.png");
    assert!(validate_image_url(&ok).is_ok());
}

#[test]
fn redirects_and_downloads_are_bounded() {
    let start = resolve_image_url("https://github.com/a.png", None).unwrap();
    assert_eq!(follow_redirect(&start, 5, Some("/b.png")).unwrap_err(), AssetError::TooManyRedirects);
    assert_eq!(follow_redirect(&start, 0, None).unwrap_err(), AssetError::NoRedirectLocation);
    assert_eq!(follow_redirect(&start, 0, Some("/b.png")).unwrap().href, "https://github.com/b.png");
    assert_eq!(check_content_length(Some(MAX_IMAGE_BYTES as u64 + 1)).unwrap_err(), AssetError::ImageTooLarge);
    assert!(check_content_length(None).is_ok());
    let mut bytes = vec![1u8];
    append_chunk(&mut bytes, &[2, 3]).unwrap();
    assert_eq!(bytes, vec![1, 2, 3]);
    assert_eq!(finish_download(vec![0, 1], &start).unwrap_err(), AssetError::NotAnImage);
    let image = finish_download(b"GIF87a".to_vec(), &start).unwrap();
    assert_eq!(image.extension, "gif");
}

#[test]
fn failed_downloads_point_at_the_missing_image() {
    let (mut plan, _) = AssetPlan::begin("c", AssetManifest { assets: Vec::new() }, 0).unwrap();
    let step = plan.next_image("https://github.com/a.png");
    let key = match step {
        ImageStep::Fetch { key, .. } => key,
        ImageStep::Done => panic!("expected a fetch"),
    };
    plan.record_failure("https://github.com/a.png", key, "offline", None);
    assert!(matches!(plan.next_image("http://github.com/b.png"), ImageStep::Done));
    let (_, replacements, warnings) = plan.finish();
    assert_eq!(warnings.len(), 2);
    assert!(replacements
        .iter()
        .all(|(_, target)| target == "courselib-asset://localhost/missing"));
}
