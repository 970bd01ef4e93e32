use spider_core::state::StateManager;

#[test]
fn test_state_manager_init() {
    let mut manager = StateManager::new();
    let crawl_id = manager.create_crawl("test");
    assert_eq!(crawl_id, 1);
}

#[test]
fn test_frontier_management() {
    let mut manager = StateManager::new();
    let crawl_id = manager.create_crawl("test");

    manager.add_to_frontier(crawl_id, vec![("http://example.com".to_string(), 0)]);

    let pending = manager.get_pending_frontier(crawl_id, 10);
    assert_eq!(pending.len(), 1);
    assert_eq!(pending[0].1, "http://example.com");

    let pending_after = manager.get_pending_frontier(crawl_id, 10);
    assert_eq!(pending_after.len(), 1);
}

#[test]
fn test_add_to_frontier_idempotent() {
    let mut manager = StateManager::new();
    let crawl_id = manager.create_crawl("test");
    manager.add_to_frontier(crawl_id, vec![("https://example.com/a".to_string(), 0)]);
    manager.add_to_frontier(crawl_id, vec![("https://example.com/a".to_string(), 2)]);
    manager.add_to_frontier(
        crawl_id,
        vec![
            ("https://example.com/a".to_string(), 5),
            ("https://example.com/b".to_string(), 1),
        ],
    );
    let pending = manager.get_pending_frontier(crawl_id, 100);
    assert_eq!(pending.len(), 2);
    assert_eq!(pending[0].1, "https://example.com/a");
    // The first insert won: the depth stayed 0.
    assert_eq!(pending[0].2, 0);
    assert_eq!(pending[1].1, "https://example.com/b");
}

#[test]
fn test_save_result_idempotent() {
    let mut manager = StateManager::new();
    let crawl_id = manager.create_crawl("test");
    let data1 = vec![("title".to_string(), "first".to_string())];
    let data2 = vec![("title".to_string(), "second".to_string())];
    manager.save_result(crawl_id, "https://example.com/a", data1);
    manager.save_result(crawl_id, "https://example.com/a", data2);
    let urls = manager.get_results_urls(crawl_id);
    assert_eq!(urls.len(), 1);
    assert_eq!(urls[0], "https://example.com/a");
}

#[test]
fn test_results_scoped_by_crawl() {
    let mut manager = StateManager::new();
    let c1 = manager.create_crawl("one");
    let c2 = manager.create_crawl("two");
    manager.save_result(c1, "https://example.com/a", vec![]);
    manager.save_result(c2, "https://example.com/a", vec![]);
    manager.save_result(c2, "https://example.com/b", vec![]);
    assert_eq!(manager.get_visited_urls(c1).len(), 1);
    assert_eq!(manager.get_visited_urls(c2).len(), 2);
}

#[test]
fn test_get_active_crawl() {
    let mut manager = StateManager::new();
    assert!(manager.get_active_crawl().is_none());
    let _c1 = manager.create_crawl("one");
    let c2 = manager.create_crawl("two");
    // The most recently created active crawl wins.
    assert_eq!(manager.get_active_crawl(), Some(c2));
}

#[test]
fn test_get_pending_frontier_limit() {
    let mut manager = StateManager::new();
    let crawl_id = manager.create_crawl("test");
    manager.add_to_frontier(
        crawl_id,
        vec![
            ("https://example.com/1".to_string(), 0),
            ("https://example.com/2".to_string(), 1),
            ("https://example.com/3".to_string(), 2),
        ],
    );
    let two = manager.get_pending_frontier(crawl_id, 2);
    assert_eq!(two.len(), 2);
    assert_eq!(two[0].1, "https://example.com/1");
    assert_eq!(two[1].1, "https://example.com/2");
    let all = manager.get_pending_frontier(crawl_id, 50);
    assert_eq!(all.len(), 3);
    assert_eq!(all[2].0, 3);
}
