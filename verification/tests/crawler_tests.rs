use spider_core::crawler::CrawlStatus;
use spider_core::crawler::Crawler;
use spider_core::crawler::EventOutcome;
use spider_core::crawler::FetchEvent;
use spider_core::extract::extract_fields;
use spider_core::extract::qualify_selector;
use spider_core::state::StateManager;

fn title_selectors() -> Vec<(String, String)> {
    vec![("title".to_string(), "title".to_string())]
}

#[test]
fn test_end_to_end_two_pages() {
    let mut sm = StateManager::new();
    let id = sm.create_crawl("Crawl: https://example.com/");
    let mut crawler = Crawler::new(sm, id, vec![]);
    assert_eq!(crawler.status, CrawlStatus::Idle);
    crawler.seed("https://example.com/", false);
    assert_eq!(crawler.status, CrawlStatus::Running);

    let selectors = title_selectors();
    let mut emitted: Vec<String> = Vec::new();

    let html_a = "<html><head><title>A</title></head><body>a</body></html>".to_string();
    match crawler.handle_event(FetchEvent::Page("https://example.com/".to_string(), html_a), &selectors) {
        EventOutcome::Persisted(u) => emitted.push(u),
        _ => panic!("the first page should persist a result"),
    }
    let html_b = "<html><head><title>B</title></head><body>b</body></html>".to_string();
    match crawler.handle_event(FetchEvent::Page("https://example.com/b".to_string(), html_b), &selectors) {
        EventOutcome::Persisted(u) => emitted.push(u),
        _ => panic!("the second page should persist a result"),
    }
    match crawler.handle_event(FetchEvent::Closed, &selectors) {
        EventOutcome::Finished => {}
        _ => panic!("closing the stream should finish the run"),
    }

    assert_eq!(crawler.status, CrawlStatus::Completed);
    assert_eq!(crawler.state_manager.get_results_urls(id).len(), 2);
    assert_eq!(crawler.cache_manager.len(), 2);
    assert_eq!(emitted, vec!["https://example.com/".to_string(), "https://example.com/b".to_string()]);
}

#[test]
fn test_cancellation_after_one_event() {
    let mut sm = StateManager::new();
    let id = sm.create_crawl("Crawl: https://example.com/");
    let mut crawler = Crawler::new(sm, id, vec![]);
    crawler.seed("https://example.com/", false);

    let selectors = title_selectors();
    let html = "<html><head><title>1</title></head><body></body></html>".to_string();
    match crawler.handle_event(FetchEvent::Page("https://example.com/1".to_string(), html), &selectors) {
        EventOutcome::Persisted(_) => {}
        _ => panic!("the delivered page should persist a result"),
    }
    // The cancel signal fires; the two remaining pages are never delivered.
    crawler.cancel();
    assert_eq!(crawler.status, CrawlStatus::Cancelled);
    assert!(crawler.status != CrawlStatus::Failed);
    assert_eq!(crawler.state_manager.get_results_urls(id).len(), 1);
}

#[test]
fn test_duplicate_page_skipped() {
    let mut sm = StateManager::new();
    let id = sm.create_crawl("test");
    let mut crawler = Crawler::new(sm, id, vec![]);
    crawler.seed("https://example.com/", false);
    let selectors = title_selectors();
    let html = "<html><head><title>x</title></head><body></body></html>";
    match crawler.handle_event(
        FetchEvent::Page("https://example.com/a".to_string(), html.to_string()),
        &selectors,
    ) {
        EventOutcome::Persisted(_) => {}
        _ => panic!("the first delivery should persist"),
    }
    // The same page again, with a byte-for-byte different URL that
    // normalizes identically.
    match crawler.handle_event(
        FetchEvent::Page("https://example.com/a/".to_string(), html.to_string()),
        &selectors,
    ) {
        EventOutcome::Duplicate => {}
        _ => panic!("the second delivery should be deduplicated"),
    }
    assert_eq!(crawler.state_manager.get_results_urls(id).len(), 1);
}

#[test]
fn test_malformed_url_skips_single_event() {
    let mut sm = StateManager::new();
    let id = sm.create_crawl("test");
    let mut crawler = Crawler::new(sm, id, vec![]);
    crawler.seed("https://example.com/", false);
    let selectors = title_selectors();
    match crawler.handle_event(
        FetchEvent::Page("not a url".to_string(), "<html></html>".to_string()),
        &selectors,
    ) {
        EventOutcome::Skipped => {}
        _ => panic!("a malformed URL should skip that one event"),
    }
    // The run goes on.
    assert_eq!(crawler.status, CrawlStatus::Running);
    assert_eq!(crawler.state_manager.get_results_urls(id).len(), 0);
}

#[test]
fn test_fetcher_failure_fails_run() {
    let mut sm = StateManager::new();
    let id = sm.create_crawl("test");
    let mut crawler = Crawler::new(sm, id, vec![]);
    crawler.seed("https://example.com/", false);
    let selectors = title_selectors();
    match crawler.handle_event(FetchEvent::Failed, &selectors) {
        EventOutcome::Finished => {}
        _ => panic!("a fetcher failure should end the run"),
    }
    assert_eq!(crawler.status, CrawlStatus::Failed);
}

#[test]
fn test_store_error_reported_fails_run() {
    let mut sm = StateManager::new();
    let id = sm.create_crawl("test");
    let mut crawler = Crawler::new(sm, id, vec![]);
    crawler.seed("https://example.com/", false);
    crawler.fail();
    assert_eq!(crawler.status, CrawlStatus::Failed);
}

#[test]
fn test_resume_seeds_cache_from_results() {
    let mut sm = StateManager::new();
    let id = sm.create_crawl("test");
    sm.save_result(id, "https://example.com/old", vec![]);
    let mut crawler = Crawler::new(sm, id, vec![]);
    crawler.seed("https://example.com/", true);
    assert_eq!(crawler.cache_manager.len(), 1);
    let selectors = title_selectors();
    // A page already recorded in a previous run is never re-emitted.
    match crawler.handle_event(
        FetchEvent::Page(
            "https://example.com/old".to_string(),
            "<html><head><title>t</title></head><body></body></html>".to_string(),
        ),
        &selectors,
    ) {
        EventOutcome::Duplicate => {}
        _ => panic!("a recorded URL should be deduplicated on resume"),
    }
    assert_eq!(crawler.state_manager.get_results_urls(id).len(), 1);
}

#[test]
fn test_extract_fields_values() {
    let html = "<span class=\"price\">$49.99</span>";
    let fields = extract_fields(
        html,
        &vec![("price".to_string(), "css:.price".to_string())],
    );
    assert_eq!(fields.len(), 1);
    assert_eq!(fields[0].0, "price");
    assert_eq!(fields[0].1, "$49.99");

    // An unprefixed selector defaults to the css engine.
    let fields2 = extract_fields(html, &vec![("price".to_string(), ".price".to_string())]);
    assert_eq!(fields2.len(), 1);
    assert_eq!(fields2[0].1, "$49.99");

    // A selector that matches nothing omits its field.
    let fields3 = extract_fields(html, &vec![("x".to_string(), "css:.missing".to_string())]);
    assert_eq!(fields3.len(), 0);
}

#[test]
fn test_qualify_selector() {
    assert_eq!(qualify_selector(".price"), "css:.price");
    assert_eq!(qualify_selector("css:.price"), "css:.price");
    assert_eq!(qualify_selector("xpath://div"), "xpath://div");
    assert_eq!(qualify_selector("regex:(\\d+)"), "regex:(\\d+)");
}
