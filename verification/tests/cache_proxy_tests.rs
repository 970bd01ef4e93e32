use spider_core::cache::CacheManager;
use spider_core::proxy::ProxyManager;

#[test]
fn test_cache_functionality() {
    let mut manager = CacheManager::new();
    let url = "http://example.com".to_string();

    assert!(!manager.is_cached(&url));
    manager.cache(url.clone());
    assert!(manager.is_cached(&url));
}

#[test]
fn test_cache_seed_and_duplicate_insert() {
    let mut manager = CacheManager::new();
    manager.extend(vec![
        "https://example.com/a".to_string(),
        "https://example.com/b".to_string(),
        "https://example.com/c".to_string(),
    ]);
    assert_eq!(manager.len(), 3);
    assert!(manager.is_cached("https://example.com/a"));
    assert!(manager.is_cached("https://example.com/b"));
    assert!(manager.is_cached("https://example.com/c"));
    assert!(!manager.is_cached("https://example.com/d"));

    // Re-inserting an existing key leaves the size unchanged.
    manager.cache("https://example.com/b".to_string());
    assert_eq!(manager.len(), 3);
    // Seeding again with a known and a new key adds only the new one.
    manager.extend(vec![
        "https://example.com/a".to_string(),
        "https://example.com/d".to_string(),
    ]);
    assert_eq!(manager.len(), 4);
}

#[test]
fn test_proxy_rotation() {
    let proxies = vec![
        "http://proxy1:8080".to_string(),
        "http://proxy2:8080".to_string(),
    ];
    let mut manager = ProxyManager::new(proxies);

    assert_eq!(manager.get_next().unwrap(), "http://proxy1:8080");
    assert_eq!(manager.get_next().unwrap(), "http://proxy2:8080");
    assert_eq!(manager.get_next().unwrap(), "http://proxy1:8080");
}

#[test]
fn test_empty_proxy_manager() {
    let mut manager = ProxyManager::new(vec![]);
    assert!(manager.get_next().is_none());
}

#[test]
fn test_proxy_full_cycles() {
    let mut manager = ProxyManager::new(vec![
        "p1".to_string(),
        "p2".to_string(),
        "p3".to_string(),
    ]);
    let mut seen: Vec<String> = Vec::new();
    for _ in 0..6 {
        seen.push(manager.get_next().unwrap());
    }
    assert_eq!(seen, vec!["p1", "p2", "p3", "p1", "p2", "p3"]);
}
