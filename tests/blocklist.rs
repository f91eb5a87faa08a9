use ut1_blocklist::{Blocklist, ParsedUrl};

fn url(s: &str) -> ParsedUrl {
    ParsedUrl::parse(s).unwrap()
}

/// The blocklist that a folder `adult` holding `domains` = `foo.bar` and
/// `urls` = `foo.bar/baz` yields.
fn get_test_blocklist() -> Blocklist<'static> {
    Blocklist::new(
        "adult",
        vec!["foo.bar".to_string()],
        vec!["foo.bar/baz".to_string()],
    )
}

#[test]
fn test_new() {
    let domains = vec!["foo.bar".to_string()].into_iter();
    let bl = Blocklist::new("test", domains.collect(), Vec::new());

    let is_detected = url("https://foo.bar");
    let is_not_detected = url("https://baz.quux");

    assert!(bl.detect_domain(&is_detected));
    assert!(!bl.detect_domain(&is_not_detected));
}

#[test]
fn domain_contains() {
    let u = url("https://foo.bar");
    let bl = get_test_blocklist();

    assert!(bl.detect_domain(&u));
}

#[test]
fn domain_is_address() {
    // addresses are kept as they are, not matched as domains
    let u = url("https://127.0.0.1");
    let bl = get_test_blocklist();
    assert!(!bl.detect_domain(&u));
}

#[test]
fn domain_no_domain() {
    let u = url("mailto::foo@bar.baz");
    let bl = get_test_blocklist();
    assert!(!bl.detect_domain(&u));
}

#[test]
fn domain_not_contains() {
    let u = url("https://good.domain");
    let bl = get_test_blocklist();

    assert!(!bl.detect_domain(&u));
}

#[test]
fn url_contains() {
    let u = url("https://foo.bar/baz");
    let bl = get_test_blocklist();

    assert!(bl.detect_url(&u));
}

#[test]
fn url_not_contains() {
    let u = url("https://foo.bar/baz/quux");
    let bl = get_test_blocklist();

    assert!(!bl.detect_url(&u));
}

#[test]
fn url_ignores_query_and_fragment() {
    let u = url("https://foo.bar/baz?quux=true#top");
    let bl = get_test_blocklist();

    assert!(bl.detect_url(&u));
}

#[test]
fn kind_is_kept() {
    let bl = get_test_blocklist();
    assert_eq!(bl.kind(), "adult");
}

#[test]
fn parsed_url_parts() {
    let u = url("HTTPS://Example.COM/a/b?x=1#y");
    assert_eq!(u.as_str(), "https://example.com/a/b?x=1#y");
    assert_eq!(u.host_str(), Some("example.com"));
    assert_eq!(u.through_path(), "https://example.com/a/b");
    assert_eq!(u.host_through_path(), "example.com/a/b");
}

#[test]
fn parsed_url_without_host() {
    let u = url("mailto:foo@bar.baz");
    assert_eq!(u.host_str(), None);
    assert_eq!(u.through_path(), "mailto:foo@bar.baz");
}

#[test]
fn parsed_url_refuses_relative() {
    assert!(matches!(
        ParsedUrl::parse("example.com/path"),
        Err(ut1_blocklist::Error::MalformedUrl(_))
    ));
}
