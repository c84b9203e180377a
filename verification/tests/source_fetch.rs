use courselib::source_fetch::{
    content_hash, fetched_from_link, fetched_from_paste, github_readme_url, resolve_link,
    LinkError, LinkResolution, SourceType,
};

#[test]
fn rewrites_github_blob_to_raw_url() {
    let resolved = resolve_link("https://github.com/owner/repo/blob/main/docs/readme.md").unwrap();

    assert_eq!(
        resolved,
        LinkResolution::Raw {
            source_type: SourceType::Github,
            origin_url: "https://github.com/owner/repo/blob/main/docs/readme.md".to_string(),
            raw_url: "https://raw.githubusercontent.com/owner/repo/main/docs/readme.md".to_string(),
        }
    );
}

#[test]
fn recognizes_github_bare_repo_for_default_branch_resolution() {
    let resolved = resolve_link("https://github.com/owner/repo").unwrap();

    assert_eq!(
        resolved,
        LinkResolution::GithubBareRepo {
            owner: "owner".to_string(),
            repo: "repo".to_string(),
            origin_url: "https://github.com/owner/repo".to_string(),
        }
    );
}

#[test]
fn rewrites_gitlab_blob_to_raw_url() {
    let resolved = resolve_link("https://gitlab.com/group/project/-/blob/main/README.md").unwrap();

    assert_eq!(
        resolved,
        LinkResolution::Raw {
            source_type: SourceType::Gitlab,
            origin_url: "https://gitlab.com/group/project/-/blob/main/README.md".to_string(),
            raw_url: "https://gitlab.com/group/project/-/raw/main/README.md".to_string(),
        }
    );
}

#[test]
fn rewrites_codeberg_branch_url_to_raw_url() {
    let resolved =
        resolve_link("https://codeberg.org/owner/repo/src/branch/main/docs/guide.md").unwrap();

    assert_eq!(
        resolved,
        LinkResolution::Raw {
            source_type: SourceType::Codeberg,
            origin_url: "https://codeberg.org/owner/repo/src/branch/main/docs/guide.md".to_string(),
            raw_url: "https://codeberg.org/owner/repo/raw/branch/main/docs/guide.md".to_string(),
        }
    );
}

#[test]
fn rejects_unsupported_hosts() {
    let err = resolve_link("https://example.com/readme.md").unwrap_err();

    assert!(err.message().contains("unsupported source host"));
}

#[test]
fn hashes_content_with_sha256_prefix() {
    assert_eq!(
        content_hash("abc"),
        "sha256:ba7816bf8f01cfea414140de5dae2223b00361a396177a9cb410ff61f20015ad"
    );
}

#[test]
fn rejects_unparseable_links() {
    let err = resolve_link("not a url").unwrap_err();
    assert!(matches!(err, LinkError::InvalidUrl(_)));
}

#[test]
fn rejects_github_links_without_a_repository() {
    assert_eq!(resolve_link("https://github.com/owner").unwrap_err(), LinkError::GithubMissingRepository);
}

#[test]
fn readme_url_points_at_the_branch() {
    assert_eq!(
        github_readme_url("owner", "repo", "main"),
        "https://raw.githubusercontent.com/owner/repo/main/README.md"
    );
}

#[test]
fn pasted_markdown_records_its_hash() {
    let fetched = fetched_from_paste("abc".to_string(), Some("Title".to_string()));
    assert_eq!(fetched.content, "abc");
    assert_eq!(fetched.title_hint, Some("Title".to_string()));
    assert_eq!(fetched.source.source_type, SourceType::Pasted);
    assert_eq!(fetched.source.origin_url, None);
    let stamp = &fetched.source.imported_at;
    assert!(stamp.ends_with('Z') && stamp.len() >= 20 && stamp.as_bytes()[stamp.len() - 10] == b'T');
    assert_eq!(
        fetched.source.content_hash,
        "sha256:ba7816bf8f01cfea414140de5dae2223b00361a396177a9cb410ff61f20015ad"
    );
}

#[test]
fn linked_markdown_keeps_its_origin() {
    let fetched = fetched_from_link("abc".to_string(), SourceType::Github, "https://github.com/o/r".to_string());
    assert_eq!(fetched.source.origin_url, Some("https://github.com/o/r".to_string()));
    assert_eq!(fetched.title_hint, None);
}
