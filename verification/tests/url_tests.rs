use spider_core::url_parser::normalize_url;
use spider_core::url_parser::UrlRef;

#[test]
fn test_normalization() {
    let url1 = "https://quotes.toscrape.com/tag/age/page/1/";
    let url2 = "https://quotes.toscrape.com/tag/age/page/1";
    let url3 = "https://quotes.toscrape.com/tag/age/page/1?b=2&a=1";

    assert_eq!(normalize_url(url1), normalize_url(url2));
    assert_eq!(
        normalize_url(url3),
        "https://quotes.toscrape.com/tag/age/page/1?a=1&b=2"
    );
    println!("Normalized URL: {}", normalize_url(url3));
}

#[test]
fn test_url_components() {
    let url = "https://blog.example.com/path/to/page.html?q=1#section";
    let u = UrlRef::from_str(url).unwrap();

    assert_eq!(u.protocol, "https");
    assert_eq!(u.hostname, "blog.example.com");
    assert_eq!(u.subdomain, "blog");
    assert_eq!(u.domain, "example.com");
    assert_eq!(u.path, "/path/to/page.html");
    assert_eq!(u.query, "?q=1");
    assert_eq!(u.fragment, "#section");
    assert_eq!(u.depth, 3);

    let root = "https://example.com/";
    let u_root = UrlRef::from_str(root).unwrap();
    assert_eq!(u_root.depth, 0);
    assert_eq!(u_root.subdomain, "");
    assert_eq!(u_root.domain, "example.com");
}

#[test]
fn test_normalize_trailing_slash_insensitive() {
    assert_eq!(
        normalize_url("https://example.com/a/b/"),
        normalize_url("https://example.com/a/b")
    );
    assert_eq!(normalize_url("https://example.com/a//"), "https://example.com/a");
    assert_eq!(normalize_url("https://example.com"), "https://example.com/");
}

#[test]
fn test_normalize_query_order_insensitive() {
    assert_eq!(
        normalize_url("https://example.com/p?b=2&a=1&flag"),
        normalize_url("https://example.com/p?flag&a=1&b=2")
    );
    // A repeated key keeps the order of its values: the sort is stable.
    assert_eq!(
        normalize_url("https://example.com/p?a=2&a=1"),
        "https://example.com/p?a=2&a=1"
    );
}

#[test]
fn test_normalize_case_insensitive() {
    assert_eq!(
        normalize_url("HTTPS://Example.COM/Path"),
        normalize_url("https://example.com/Path")
    );
    // Path case is significant and kept.
    assert_eq!(normalize_url("https://example.com/Path"), "https://example.com/Path");
}

#[test]
fn test_normalize_idempotent() {
    let inputs = [
        "https://example.com/a/b/?z=1&y&x=2#frag",
        "https://example.com",
        "https://example.com/p?a=2&a=1",
        "https://example.com/p?=",
        "https://example.com:8080/x",
        "not a url at all",
    ];
    for raw in inputs.iter() {
        let once = normalize_url(raw);
        let twice = normalize_url(&once);
        assert_eq!(once, twice);
    }
}

#[test]
fn test_normalize_drops_fragment_and_empty_pairs() {
    assert_eq!(normalize_url("https://example.com/a#sec"), "https://example.com/a");
    assert_eq!(normalize_url("https://example.com/a?="), "https://example.com/a");
    assert_eq!(normalize_url("https://example.com/a?&b=1"), "https://example.com/a?b=1");
    assert_eq!(normalize_url("https://example.com/a?k="), "https://example.com/a?k");
}

#[test]
fn test_parse_error_on_bad_input() {
    assert!(UrlRef::from_str("not a url at all").is_err());
    assert!(UrlRef::from_str("/relative/only").is_err());
    assert!(UrlRef::from_str("").is_err());
    assert!(UrlRef::from_str("https://ok.example.com/x").is_ok());
}

#[test]
fn test_path_segments() {
    let u = UrlRef::from_str("https://example.com/a//b/c/").unwrap();
    let segs = u.path_segments();
    assert_eq!(segs, vec!["a".to_string(), "b".to_string(), "c".to_string()]);
    assert_eq!(u.depth, 3);
}

#[test]
fn test_single_label_host_domain() {
    let u = UrlRef::from_str("http://localhost/x").unwrap();
    assert_eq!(u.subdomain, "");
    assert_eq!(u.domain, "localhost");
    let v = UrlRef::from_str("http://a.b.c.example.com/").unwrap();
    assert_eq!(v.subdomain, "a.b.c");
    assert_eq!(v.domain, "example.com");
}
