use std::collections::HashSet;

use ut1_blocklist::{Error, MultipleBlocklist};

fn tag_set(r: Option<Vec<String>>) -> Option<HashSet<String>> {
    r.map(|v| {
        let n = v.len();
        let s: HashSet<String> = v.into_iter().collect();
        assert_eq!(s.len(), n, "a tag is returned twice");
        s
    })
}

fn expected(tags: &[&str]) -> Option<HashSet<String>> {
    Some(tags.iter().map(|t| t.to_string()).collect())
}

fn blog_blocklist() -> MultipleBlocklist {
    let domains = vec![
        ("blogspot.com".to_string(), vec!["blog".to_string()]),
        (
            "adultblog.blogspot.com".to_string(),
            vec!["adult".to_string()],
        ),
    ]
    .into_iter()
    .collect();
    MultipleBlocklist::new(domains, Vec::new())
}

#[test]
fn subdomains() {
    let b = blog_blocklist();

    let test_urls: Vec<(&str, Option<Vec<&str>>)> = vec![
        ("https://ujj.blogspot.com/things", Some(vec!["blog"])),
        (
            "https://ujj.foo.bar.blogspot.com/things/etc.txt",
            Some(vec!["blog"]),
        ),
        ("https://blogspot.com/index.html", Some(vec!["blog"])),
        ("https://logspot.com/index.html", None),
        (
            "https://adultblog.blogspot.com/index.html",
            Some(vec!["blog", "adult"]),
        ),
    ];

    for (test_url, categories) in test_urls {
        let results = tag_set(b.detect(test_url));
        let categories = categories.map(|c| c.into_iter().map(|t| t.to_string()).collect());
        assert_eq!(results, categories, "{test_url}");
    }
}

#[test]
fn blocklist_multi_test_normalize_domain_add_https() {
    let domain = "abastrologie.com";
    let _normalized = MultipleBlocklist::normalize_domain(domain).unwrap();
}

#[test]
fn blocklist_multi_test_normalize_url_add_https() {
    let url = "cri.univ-tlse1.fr/tools/test_filtrage/astrology/";
    let _normalized = MultipleBlocklist::normalize_url(url).unwrap();
}

#[test]
fn multibl_test_normalize_domain_add_https() {
    let domain = "abastrologie.com";
    MultipleBlocklist::normalize_domain(domain).unwrap();
}

#[test]
fn multibl_test_normalize_url_add_https() {
    let url = "cri.univ-tlse1.fr/tools/test_filtrage/astrology/";
    MultipleBlocklist::normalize_url(url).unwrap();
}

#[test]
fn normalize_domain_values() {
    assert_eq!(
        MultipleBlocklist::normalize_domain("abastrologie.com").unwrap(),
        "abastrologie.com"
    );
    assert_eq!(
        MultipleBlocklist::normalize_domain("HTTP://Foo.Example.COM:8080/x").unwrap(),
        "foo.example.com"
    );
    assert_eq!(
        MultipleBlocklist::normalize_domain("https://127.0.0.1/a").unwrap(),
        "127.0.0.1"
    );
}

#[test]
fn normalize_url_values() {
    let u = MultipleBlocklist::normalize_url("cri.univ-tlse1.fr/tools/test_filtrage/astrology/")
        .unwrap();
    assert_eq!(
        u.as_str(),
        "https://cri.univ-tlse1.fr/tools/test_filtrage/astrology/"
    );
    let u = MultipleBlocklist::normalize_url("https://foo.bar").unwrap();
    assert_eq!(u.as_str(), "https://foo.bar/");
}

#[test]
fn normalize_url_drops_query_and_fragment() {
    let a = MultipleBlocklist::normalize_url("example.com/path?x=1#y").unwrap();
    let b = MultipleBlocklist::normalize_url("https://example.com/path").unwrap();
    assert_eq!(a.as_str(), b.as_str());
    assert_eq!(a.as_str(), "https://example.com/path");
}

#[test]
fn normalize_domain_without_scheme() {
    let a = MultipleBlocklist::normalize_domain("example.com").unwrap();
    let b = MultipleBlocklist::normalize_domain("https://example.com").unwrap();
    assert_eq!(a, b);
    assert_eq!(a, "example.com");
}

#[test]
fn normalize_domain_no_hostname() {
    match MultipleBlocklist::normalize_domain("mailto:foo@bar.baz") {
        Err(Error::NoHostname(s)) => assert_eq!(s, "mailto:foo@bar.baz"),
        other => panic!("unexpected {other:?}"),
    }
}

#[test]
fn normalize_domain_malformed() {
    assert!(matches!(
        MultipleBlocklist::normalize_domain(""),
        Err(Error::MalformedUrl(_))
    ));
    assert!(matches!(
        MultipleBlocklist::normalize_url(""),
        Err(Error::MalformedUrl(_))
    ));
}

#[test]
fn detect_mailto_is_none() {
    let b = blog_blocklist();
    assert_eq!(b.detect("mailto:foo@bar.baz"), None);
}

#[test]
fn detect_malformed_is_none() {
    let b = blog_blocklist();
    assert_eq!(b.detect(""), None);
}

#[test]
fn domain_and_url_tags_merge() {
    let url_key = MultipleBlocklist::normalize_url("foo.bar/baz").unwrap();
    let b = MultipleBlocklist::new(
        vec![("foo.bar".to_string(), vec!["adult".to_string()])],
        vec![(url_key.as_str().to_string(), vec!["adult".to_string()])],
    );
    assert_eq!(tag_set(b.detect("https://foo.bar/baz")), expected(&["adult"]));
}

#[test]
fn url_match_only() {
    let mut b = MultipleBlocklist::new(Vec::new(), Vec::new());
    b.add_urls(&"shop".to_string(), &vec!["foo.bar/baz".to_string()]);
    assert_eq!(tag_set(b.detect("https://foo.bar/baz?q=1")), expected(&["shop"]));
    assert_eq!(b.detect("https://foo.bar/baz/quux"), None);
    assert_eq!(b.detect("https://foo.bar/"), None);
}

#[test]
fn exact_key_is_detected() {
    let b = MultipleBlocklist::new(
        vec![("example.com".to_string(), vec!["a".to_string(), "b".to_string()])],
        Vec::new(),
    );
    assert_eq!(tag_set(b.detect("example.com")), expected(&["a", "b"]));
}

#[test]
fn ancestor_key_is_detected() {
    let b = MultipleBlocklist::new(
        vec![("example.co.uk".to_string(), vec!["a".to_string()])],
        Vec::new(),
    );
    assert_eq!(tag_set(b.detect("x.y.example.co.uk")), expected(&["a"]));
}

#[test]
fn top_label_is_never_an_ancestor() {
    let b = MultipleBlocklist::new(
        vec![("com".to_string(), vec!["tld".to_string()])],
        Vec::new(),
    );
    assert_eq!(b.detect("https://example.com/"), None);
    assert_eq!(b.detect("https://a.b.example.com/"), None);
    // the key itself still matches exactly
    assert_eq!(tag_set(b.detect("https://com/")), expected(&["tld"]));
}

#[test]
fn detect_twice_gives_the_same() {
    let b = blog_blocklist();
    let c = "https://adultblog.blogspot.com/index.html";
    assert_eq!(tag_set(b.detect(c)), tag_set(b.detect(c)));
}

#[test]
fn tags_of_one_key_are_merged_once() {
    let b = MultipleBlocklist::new(
        vec![
            ("x.org".to_string(), vec!["a".to_string(), "a".to_string()]),
            ("x.org".to_string(), vec!["b".to_string()]),
        ],
        Vec::new(),
    );
    assert_eq!(tag_set(b.detect("x.org")), expected(&["a", "b"]));
}

#[test]
fn build_skips_malformed_lines() {
    let mut b = MultipleBlocklist::new(Vec::new(), Vec::new());
    let lines = vec![
        "".to_string(),
        "good.example".to_string(),
        "mailto:x@y.z".to_string(),
        "https://Other.Example/path".to_string(),
    ];
    b.add_domains(&"cat".to_string(), &lines);
    b.add_domains(&"dog".to_string(), &vec!["good.example".to_string()]);
    assert_eq!(tag_set(b.detect("good.example")), expected(&["cat", "dog"]));
    assert_eq!(tag_set(b.detect("other.example")), expected(&["cat"]));
    assert_eq!(b.detect("y.z"), None);
}

#[test]
fn detect_normalized_scenario() {
    let b = blog_blocklist();
    let d = |s: &str| s.to_string();
    assert_eq!(
        tag_set(b.detect_normalized(Some(&d("ujj.blogspot.com")), None)),
        expected(&["blog"])
    );
    assert_eq!(
        tag_set(b.detect_normalized(Some(&d("adultblog.blogspot.com")), None)),
        expected(&["blog", "adult"])
    );
    assert_eq!(
        tag_set(b.detect_normalized(Some(&d("x.adultblog.blogspot.com")), None)),
        expected(&["blog", "adult"])
    );
    assert_eq!(b.detect_normalized(Some(&d("logspot.com")), None), None);
    assert_eq!(b.detect_normalized(None, None), None);
}

#[test]
fn detect_normalized_merges_url_tags() {
    let b = MultipleBlocklist::new(
        vec![("foo.bar".to_string(), vec!["adult".to_string()])],
        vec![("https://foo.bar/baz".to_string(), vec!["shop".to_string(), "adult".to_string()])],
    );
    assert_eq!(
        tag_set(b.detect_normalized(
            Some(&"foo.bar".to_string()),
            Some(&"https://foo.bar/baz".to_string())
        )),
        expected(&["adult", "shop"])
    );
    assert_eq!(
        tag_set(b.detect_normalized(None, Some(&"https://foo.bar/baz".to_string()))),
        expected(&["shop", "adult"])
    );
}

fn strings(v: &[&str]) -> Vec<String> {
    v.iter().map(|t| t.to_string()).collect()
}

#[test]
fn build_keeps_repeats_in_order() {
    let mut b = MultipleBlocklist::new(Vec::new(), Vec::new());
    b.add_domains(&"c".to_string(), &strings(&["foo.bar", "foo.bar"]));
    b.add_domains(&"d".to_string(), &strings(&["https://foo.bar/x"]));
    assert_eq!(
        b.tags_for_domain(&"foo.bar".to_string()),
        Some(&strings(&["c", "c", "d"]))
    );
    assert_eq!(tag_set(b.detect("foo.bar")), expected(&["c", "d"]));
}

#[test]
fn build_skipped_lines_leave_one_tag() {
    let mut b = MultipleBlocklist::new(Vec::new(), Vec::new());
    b.add_domains(&"c".to_string(), &strings(&["foo.bar", "", "a b"]));
    assert_eq!(
        b.tags_for_domain(&"foo.bar".to_string()),
        Some(&strings(&["c"]))
    );
    assert_eq!(b.tags_for_domain(&"a b".to_string()), None);
    assert_eq!(b.tags_for_domain(&"".to_string()), None);
}

#[test]
fn build_two_files() {
    let mut b = MultipleBlocklist::new(Vec::new(), Vec::new());
    b.add_domains(&"adult".to_string(), &strings(&["foo.bar"]));
    b.add_urls(&"adult".to_string(), &strings(&["foo.bar/baz"]));
    assert_eq!(
        b.tags_for_domain(&"foo.bar".to_string()),
        Some(&strings(&["adult"]))
    );
    assert_eq!(
        b.tags_for_url(&"https://foo.bar/baz".to_string()),
        Some(&strings(&["adult"]))
    );
    assert_eq!(b.tags_for_url(&"foo.bar/baz".to_string()), None);
}

#[test]
fn new_keeps_lists_as_given() {
    let b = MultipleBlocklist::new(
        vec![
            ("x.org".to_string(), strings(&["a", "a"])),
            ("y.org".to_string(), strings(&["b"])),
            ("x.org".to_string(), strings(&["c"])),
        ],
        vec![("NotNormalized".to_string(), strings(&["u"]))],
    );
    assert_eq!(
        b.tags_for_domain(&"x.org".to_string()),
        Some(&strings(&["a", "a", "c"]))
    );
    assert_eq!(
        b.tags_for_domain(&"y.org".to_string()),
        Some(&strings(&["b"]))
    );
    assert_eq!(
        b.tags_for_url(&"NotNormalized".to_string()),
        Some(&strings(&["u"]))
    );
}

#[test]
fn no_hostname_carries_serialization() {
    match MultipleBlocklist::normalize_domain("mailto:foo@bar.baz") {
        Err(Error::NoHostname(s)) => assert_eq!(s, "mailto:foo@bar.baz".to_string()),
        other => panic!("unexpected {other:?}"),
    }
}
