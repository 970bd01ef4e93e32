use spider_core::url_parser::UrlRef;
use spider_core::url_tree::NodeType;
use spider_core::url_tree::TreeNode;
use spider_core::url_tree::UrlCollection;

#[test]
fn test_hierarchical_tree() {
    let mut collection = UrlCollection::new();

    let urls = vec![
        "https://example.com/blog/posts/rust.html",
        "https://example.com/blog/posts/python.html",
        "https://example.com/about",
        "https://api.example.com/v1/users",
    ];

    for url_str in &urls {
        let url_ref = UrlRef::from_str(url_str).unwrap();
        collection.add(url_ref);
    }

    assert_eq!(collection.unique_count(), 4);
    assert_eq!(collection.hierarchies.len(), 2);

    println!("Collection Stats:\n{}", collection.stats());
    println!("Tree Structure:\n{}", collection.display_trees());

    let root = collection
        .hierarchies
        .iter()
        .find(|t| t.name == "example.com")
        .unwrap();
    assert_eq!(root.name, "example.com");
    assert_eq!(root.children.len(), 2);
}

#[test]
fn test_collection_deduplicates() {
    let mut collection = UrlCollection::new();
    let a = UrlRef::from_str("https://example.com/a/").unwrap();
    let b = UrlRef::from_str("https://example.com/a").unwrap();
    collection.add(a);
    collection.add(b);
    // The two normalize to the same canonical key.
    assert_eq!(collection.unique_count(), 1);
}

#[test]
fn test_stats_exact() {
    let mut collection = UrlCollection::new();
    for url_str in [
        "https://example.com/blog/posts/rust.html",
        "https://example.com/blog/posts/python.html",
        "https://example.com/about",
        "https://api.example.com/v1/users",
    ] {
        collection.add(UrlRef::from_str(url_str).unwrap());
    }
    // Depth sum 3 + 3 + 1 + 2 = 9 over 4 URLs: average 2.25.
    assert_eq!(
        collection.stats(),
        "  Total Unique URLs:    4\n  Total Domains:        2\n  Average Depth:        2.25\n"
    );
}

#[test]
fn test_stats_empty() {
    let collection = UrlCollection::new();
    assert_eq!(
        collection.stats(),
        "  Total Unique URLs:    0\n  Total Domains:        0\n"
    );
}

#[test]
fn test_display_trees_exact() {
    let mut collection = UrlCollection::new();
    for url_str in [
        "https://example.com/blog/posts/rust.html",
        "https://example.com/blog/posts/python.html",
        "https://example.com/about",
        "https://api.example.com/v1/users",
    ] {
        collection.add(UrlRef::from_str(url_str).unwrap());
    }
    let expected = " api.example.com\n\u{2514}\u{2500}\u{2500}  v1 (0)\n    \u{2514}\u{2500}\u{2500}  users (1)\n example.com\n\u{251c}\u{2500}\u{2500}  about (1)\n\u{2514}\u{2500}\u{2500}  blog (0)\n    \u{2514}\u{2500}\u{2500}  posts (0)\n        \u{251c}\u{2500}\u{2500}  python.html (1)\n        \u{2514}\u{2500}\u{2500}  rust.html (1)\n";
    assert_eq!(collection.display_trees(), expected);
}

#[test]
fn test_tree_node_insert_and_render() {
    let mut root = TreeNode::new("example.com", NodeType::Domain);
    let u = UrlRef::from_str("https://example.com/docs/intro").unwrap();
    root.insert(u);
    let rendered = root.render_to_string("", true, true);
    let expected = " example.com\n\u{2514}\u{2500}\u{2500}  docs (0)\n    \u{2514}\u{2500}\u{2500}  intro (1)\n";
    assert_eq!(rendered, expected);
}

#[test]
fn test_stats_rounding_and_wide_counts() {
    let mut collection = UrlCollection::new();
    // Twelve URLs: eleven at depth 0 and one at depth 1; the average
    // 1/12 = 0.8333… per cent-digits rounds to 0.08.
    for i in 0..11 {
        let raw = format!("https://h{}.example.com", i);
        collection.add(UrlRef::from_str(&raw).unwrap());
    }
    collection.add(UrlRef::from_str("https://deep.example.com/one").unwrap());
    let stats = collection.stats();
    assert!(stats.contains("  Total Unique URLs:    12\n"));
    assert!(stats.contains("  Average Depth:        0.08\n"));

    let mut single = UrlCollection::new();
    single.add(UrlRef::from_str("https://example.com/a").unwrap());
    assert!(single.stats().contains("  Average Depth:        1.00\n"));
}

#[test]
fn test_tree_children_sorted_by_name() {
    let mut root = TreeNode::new("example.com", NodeType::Domain);
    for p in ["https://example.com/zebra", "https://example.com/alpha", "https://example.com/mid"] {
        root.insert(UrlRef::from_str(p).unwrap());
    }
    let names: Vec<&str> = root.children.iter().map(|c| c.name.as_str()).collect();
    assert_eq!(names, vec!["alpha", "mid", "zebra"]);
}
