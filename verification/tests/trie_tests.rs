use fuzzy_trie::search::FuzzyResult;
use fuzzy_trie::trie::Trie;

/// The results as sorted (token, distance) pairs, for order-insensitive
/// comparison: the search order is unspecified.
fn sorted(results: Vec<FuzzyResult>) -> Vec<(String, usize)> {
    let mut v: Vec<(String, usize)> = results.into_iter().map(|r| (r.token, r.distance)).collect();
    v.sort();
    v
}

/// A straightforward reference implementation of the Levenshtein distance
/// over characters, to check reported distances against.
fn reference_levenshtein(a: &str, b: &str) -> usize {
    let a: Vec<char> = a.chars().collect();
    let b: Vec<char> = b.chars().collect();
    let mut row: Vec<usize> = (0..=b.len()).collect();
    for i in 1..=a.len() {
        let mut prev = row[0];
        row[0] = i;
        for j in 1..=b.len() {
            let cost = if a[i - 1] == b[j - 1] { 0 } else { 1 };
            let next = (row[j] + 1).min(row[j - 1] + 1).min(prev + cost);
            prev = row[j];
            row[j] = next;
        }
    }
    row[b.len()]
}

#[test]
fn exact_search_finds_inserted_word() {
    let mut t = Trie::new();
    t.insert("hello");
    let r = sorted(t.search_fuzzy("hello", 0));
    assert_eq!(r, vec![("hello".to_string(), 0)]);
}

#[test]
fn exact_search_finds_long_word() {
    let mut t = Trie::new();
    t.insert("abcde");
    let r = sorted(t.search_fuzzy("abcde", 0));
    assert_eq!(r, vec![("abcde".to_string(), 0)]);
    let r1 = sorted(t.search_fuzzy("abcde", 1));
    assert_eq!(r1, vec![("abcde".to_string(), 0)]);
}

#[test]
fn insert_then_delete_removes_word() {
    let mut t = Trie::new();
    t.insert("cat");
    t.insert("cats");
    t.delete("cats");
    assert!(t.search_fuzzy("cats", 0).is_empty());
    let r = sorted(t.search_fuzzy("cat", 0));
    assert_eq!(r, vec![("cat".to_string(), 0)]);
}

#[test]
fn insert_is_idempotent() {
    let mut t = Trie::new();
    t.insert("tree");
    let once = sorted(t.search_fuzzy("tree", 2));
    t.insert("tree");
    let twice = sorted(t.search_fuzzy("tree", 2));
    assert_eq!(once, twice);
    assert_eq!(twice, vec![("tree".to_string(), 0)]);
}

#[test]
fn delete_of_absent_word_is_noop() {
    let mut t = Trie::new();
    t.insert("cat");
    t.insert("dog");
    let before = sorted(t.search_fuzzy("cat", 2));
    t.delete("cow");
    t.delete("ca");
    t.delete("catsup");
    let after = sorted(t.search_fuzzy("cat", 2));
    assert_eq!(before, after);
    assert_eq!(t.root.children.len(), 2);
}

#[test]
fn results_grow_with_budget() {
    let mut t = Trie::new();
    for w in ["cat", "cats", "car", "card", "dog", "cart"] {
        t.insert(w);
    }
    let mut prev = sorted(t.search_fuzzy("cat", 0));
    for d in 1..5 {
        let cur = sorted(t.search_fuzzy("cat", d));
        for pair in &prev {
            assert!(cur.contains(pair));
        }
        prev = cur;
    }
}

#[test]
fn reported_distance_matches_reference() {
    let words = ["kitten", "sitting", "mitten", "king", "kit", "knitting"];
    let mut t = Trie::new();
    for w in words {
        t.insert(w);
    }
    for query in ["kitten", "sitting", "kin", ""] {
        let results = t.search_fuzzy(query, 7);
        for r in &results {
            assert_eq!(r.distance, reference_levenshtein(&r.token, query));
        }
        // exactly the words within the budget are reported
        let reported: Vec<&str> = results.iter().map(|r| r.token.as_str()).collect();
        for w in words {
            assert_eq!(reported.contains(&w), reference_levenshtein(w, query) <= 7);
        }
    }
}

#[test]
fn scenario_cat_family() {
    let mut t = Trie::new();
    for w in ["cat", "cats", "car", "dog"] {
        t.insert(w);
    }
    let exact = sorted(t.search_fuzzy("cat", 0));
    assert_eq!(exact, vec![("cat".to_string(), 0)]);
    let near = sorted(t.search_fuzzy("cat", 1));
    assert!(near.contains(&("cat".to_string(), 0)));
    assert!(near.contains(&("cats".to_string(), 1)));
    assert!(near.contains(&("car".to_string(), 1)));
    assert!(near.iter().all(|(w, _)| w != "dog"));
}

#[test]
fn empty_trie_reports_nothing() {
    let t = Trie::new();
    assert!(t.search_fuzzy("anything", 5).is_empty());
}

#[test]
fn delete_prunes_to_bare_root() {
    let mut t = Trie::new();
    t.insert("a");
    t.delete("a");
    assert_eq!(t.root.children.len(), 0);
    assert!(!t.root.is_terminal);
}

#[test]
fn delete_prunes_only_dead_branch() {
    let mut t = Trie::new();
    t.insert("car");
    t.insert("card");
    t.delete("card");
    // the shared path c-a-r stays, the dangling d is gone
    let r = sorted(t.search_fuzzy("car", 1));
    assert_eq!(r, vec![("car".to_string(), 0)]);
    let mut node = &t.root;
    let mut depth = 0;
    while !node.children.is_empty() {
        assert_eq!(node.children.len(), 1);
        node = &node.children[0].1;
        depth += 1;
    }
    assert_eq!(depth, 3);
    assert!(node.is_terminal);
}

#[test]
fn fuzzy_search_crosses_substitution() {
    let mut t = Trie::new();
    t.insert("cat");
    assert!(t.search_fuzzy("cot", 0).is_empty());
    let r = sorted(t.search_fuzzy("cot", 1));
    assert_eq!(r, vec![("cat".to_string(), 1)]);
}

#[test]
fn empty_word_is_never_reported() {
    let mut t = Trie::new();
    t.insert("");
    assert!(t.root.is_terminal);
    assert!(t.search_fuzzy("", 3).is_empty());
    t.insert("ab");
    let r = sorted(t.search_fuzzy("", 2));
    assert_eq!(r, vec![("ab".to_string(), 2)]);
    t.delete("");
    assert!(!t.root.is_terminal);
}

#[test]
fn multibyte_characters_count_as_single_edits() {
    let mut t = Trie::new();
    t.insert("héllo");
    let r = sorted(t.search_fuzzy("hello", 1));
    assert_eq!(r, vec![("héllo".to_string(), 1)]);
    t.delete("héllo");
    assert_eq!(t.root.children.len(), 0);
}
