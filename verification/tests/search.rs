use bktree::tree::BKTree;

#[test]
fn test_insert_and_search() {
    let mut tree = BKTree::new();
    tree.insert("book".to_string());
    tree.insert("books".to_string());
    tree.insert("cake".to_string());
    tree.insert("boo".to_string());

    let search_results = tree.search("bo", 1);
    assert!(search_results.contains(&"boo".to_string()));

    let search_results = tree.search("book", 1);
    assert!(search_results.contains(&"book".to_string()));
    assert!(search_results.contains(&"books".to_string()));
    assert!(!search_results.contains(&"cake".to_string()));
}

#[test]
fn test_empty_tree() {
    let tree = BKTree::new();
    let search_results = tree.search("anything", 1);
    assert!(search_results.is_empty());
}

#[test]
fn test_tolerance() {
    let mut tree = BKTree::new();
    tree.insert("example".to_string());
    tree.insert("samples".to_string());

    let search_results = tree.search("example", 2);
    assert!(search_results.contains(&"example".to_string()));
    assert!(!search_results.contains(&"samples".to_string()));
}

#[test]
fn test_test_insert_and_search() {
    let mut tree = BKTree::new();
    tree.insert("book".to_string());
    tree.insert("books".to_string());
    tree.insert("cake".to_string());
    tree.insert("boo".to_string());

    let search_results = tree.search("bo", 1);
    assert!(search_results.contains(&"boo".to_string()));

    let search_results = tree.search("book", 1);
    assert!(search_results.contains(&"book".to_string()));
    assert!(search_results.contains(&"books".to_string()));
    assert!(!search_results.contains(&"cake".to_string()));
}

#[test]
fn test_test_empty_tree() {
    let tree = BKTree::new();
    let search_results = tree.search("anything", 1);
    assert!(search_results.is_empty());
}

#[test]
fn test_test_tolerance() {
    let mut tree = BKTree::new();
    tree.insert("example".to_string());
    tree.insert("samples".to_string());

    let search_results = tree.search("example", 2);
    assert!(search_results.contains(&"example".to_string()));
    assert!(!search_results.contains(&"samples".to_string()));
}

#[test]
fn scenario_near_misses() {
    let mut tree = BKTree::new();
    tree.insert("book".to_string());
    tree.insert("books".to_string());
    tree.insert("cake".to_string());
    tree.insert("boo".to_string());

    let search_results = tree.search("bo", 1);
    assert!(search_results.contains(&"boo".to_string()));
    assert!(!search_results.contains(&"book".to_string()));
    assert!(!search_results.contains(&"cake".to_string()));
}

#[test]
fn duplicate_insertion_yields_one_match() {
    let mut tree = BKTree::new();
    tree.insert("book".to_string());
    tree.insert("book".to_string());
    tree.insert("boo".to_string());
    tree.insert("boo".to_string());

    let search_results = tree.search("book", 0);
    assert_eq!(search_results, vec!["book".to_string()]);

    let near = tree.search("book", 1);
    let count = near.iter().filter(|w| w.as_str() == "book").count();
    assert_eq!(count, 1);
}

#[test]
fn tolerance_monotonicity_samples() {
    let mut tree = BKTree::new();
    for w in ["book", "books", "cake", "boo", "cape", "cart"] {
        tree.insert(w.to_string());
    }
    for query in ["bo", "cake", "booms", "zzz"] {
        for t1 in 0..4usize {
            let smaller = tree.search(query, t1);
            let larger = tree.search(query, t1 + 1);
            for w in &smaller {
                assert!(larger.contains(w));
            }
        }
    }
}

#[test]
fn search_agrees_with_linear_scan() {
    let words = ["book", "books", "cake", "boo", "cape", "cart", "boon", "cook"];
    let mut tree = BKTree::new();
    for w in words {
        tree.insert(w.to_string());
    }
    for query in ["bo", "book", "cakes", "art", ""] {
        for tolerance in 0..5usize {
            let mut results = tree.search(query, tolerance);
            let mut expected: Vec<String> = words
                .iter()
                .filter(|w| bktree::metric::distance(query, w) <= tolerance)
                .map(|w| w.to_string())
                .collect();
            results.sort();
            expected.sort();
            assert_eq!(results, expected);
        }
    }
}

#[test]
fn empty_string_is_a_word_like_any_other() {
    let mut tree = BKTree::new();
    tree.insert("".to_string());
    tree.insert("a".to_string());

    let exact = tree.search("", 0);
    assert_eq!(exact, vec!["".to_string()]);

    let near = tree.search("", 1);
    assert!(near.contains(&"".to_string()));
    assert!(near.contains(&"a".to_string()));
}
