use courselib::assets::{follow_redirect, resolve_image_url};
use courselib::hashing::short_hash;
use courselib::source_fetch::content_hash;
use courselib::text::{decimal2_chars, parse_u64, split_chars, trim_chars};

#[test]
fn digests_are_rendered_in_lowercase_hex() {
    assert_eq!(
        content_hash(""),
        "sha256:e3b0c44298fc1c149afbf4c8996fb92427ae41e4649b934ca495991b7852b855"
    );
    assert_eq!(short_hash(&['a', 'b', 'c']), "ba7816bf".chars().collect::<Vec<_>>());
}

#[test]
fn decimal_and_parse_helpers() {
    assert_eq!(decimal2_chars(7), vec!['0', '7']);
    assert_eq!(decimal2_chars(12), vec!['1', '2']);
    assert_eq!(parse_u64(&['+', '4', '2']), Some(42));
    assert_eq!(parse_u64(&['4', 'x']), None);
    assert_eq!(trim_chars(&[' ', 'a', ' ']), vec!['a']);
    assert_eq!(split_chars(&['a', '/', '/', 'b'], '/'), vec![vec!['a'], vec![], vec!['b']]);
}

#[test]
fn urls_are_parsed_and_joined() {
    let u = resolve_image_url("HTTPS://GitHub.com/a/b?x=1&y=two#frag", None).unwrap();
    assert_eq!(u.scheme, "https");
    assert_eq!(u.host, Some("github.com".to_string()));
    assert_eq!(u.segments, Some(vec!["a".to_string(), "b".to_string()]));
    assert_eq!(u.query, vec![("x".to_string(), "1".to_string()), ("y".to_string(), "two".to_string())]);
    assert_eq!(u.href_without_fragment, "https://github.com/a/b?x=1&y=two");
    let joined = follow_redirect(&u, 0, Some("../z")).unwrap();
    assert_eq!(joined.href, "https://github.com/z");
}
