use spider_core::config::apply_overrides;
use spider_core::config::default_concurrency;
use spider_core::config::default_delay;
use spider_core::config::effective_selectors;
use spider_core::config::merge_configs;
use spider_core::config::SelectorConfig;
use spider_core::config::SpiderConfig;

fn base_config(name: &str) -> SpiderConfig {
    SpiderConfig {
        name: name.to_string(),
        start_urls: vec!["https://example.com/".to_string()],
        selectors: vec![("title".to_string(), SelectorConfig::Simple("title".to_string()))],
        concurrency: 1,
        delay_ms: 100,
        respect_robots: false,
        blacklist: vec![],
        whitelist: vec![],
        max_depth: Some(3),
        extends: None,
    }
}

#[test]
fn test_merge_configs_child_overrides() {
    let parent = base_config("parent");
    let child = SpiderConfig {
        name: "child".to_string(),
        start_urls: vec![],
        selectors: vec![
            ("title".to_string(), SelectorConfig::Simple("h1".to_string())),
            ("price".to_string(), SelectorConfig::Simple(".price".to_string())),
        ],
        concurrency: 4,
        delay_ms: 0,
        respect_robots: true,
        blacklist: vec!["bad.example.com".to_string()],
        whitelist: vec![],
        max_depth: None,
        extends: Some("parent.toml".to_string()),
    };
    let merged = merge_configs(parent, child);
    assert_eq!(merged.name, "child");
    // The child set no start URLs, so the parent's stay.
    assert_eq!(merged.start_urls, vec!["https://example.com/".to_string()]);
    assert_eq!(merged.concurrency, 4);
    assert_eq!(merged.delay_ms, 100);
    assert!(merged.respect_robots);
    assert_eq!(merged.blacklist, vec!["bad.example.com".to_string()]);
    assert_eq!(merged.max_depth, Some(3));
    assert!(merged.extends.is_none());
    // The child's title selector replaced the parent's; price was added.
    assert_eq!(merged.selectors.len(), 2);
    assert_eq!(merged.selectors[0].0, "title");
    assert_eq!(merged.selectors[0].1.to_query_string(), "h1");
    assert_eq!(merged.selectors[1].0, "price");
}

#[test]
fn test_apply_overrides() {
    let config = base_config("run");
    let out = apply_overrides(
        config,
        Some("https://other.example.com/".to_string()),
        true,
        Some(250),
        8,
    );
    assert_eq!(out.start_urls, vec!["https://other.example.com/".to_string()]);
    assert!(out.respect_robots);
    assert_eq!(out.delay_ms, 250);
    assert_eq!(out.concurrency, 8);

    let untouched = apply_overrides(base_config("run"), None, false, None, 1);
    assert_eq!(untouched.start_urls, vec!["https://example.com/".to_string()]);
    assert!(!untouched.respect_robots);
    assert_eq!(untouched.delay_ms, 100);
    assert_eq!(untouched.concurrency, 1);
}

#[test]
fn test_effective_selectors_default_title() {
    let none = effective_selectors(vec![]);
    assert_eq!(none, vec![("title".to_string(), "title".to_string())]);

    let some = effective_selectors(vec![
        ("price".to_string(), SelectorConfig::Advanced {
            selector: ".price".to_string(),
            attr: Some("content".to_string()),
        }),
    ]);
    assert_eq!(some, vec![("price".to_string(), ".price".to_string())]);
}

#[test]
fn test_selector_config() {
    assert_eq!(SelectorConfig::Simple("h1".to_string()).to_query_string(), "h1");
    assert_eq!(
        SelectorConfig::Advanced { selector: ".x".to_string(), attr: None }.to_query_string(),
        ".x"
    );
    assert_eq!(SelectorConfig::default().to_query_string(), "");
}

#[test]
fn test_validate_and_defaults() {
    assert!(base_config("ok").validate());
    let mut missing_name = base_config("");
    assert!(!missing_name.validate());
    missing_name.name = "named".to_string();
    missing_name.start_urls = vec![];
    assert!(!missing_name.validate());

    assert_eq!(default_concurrency(), 1);
    assert_eq!(default_delay(), 0);

    let d = SpiderConfig::default();
    assert_eq!(d.name, "");
    assert!(d.start_urls.is_empty());
    assert_eq!(d.concurrency, 0);
}
