use gofer2::search::search_mappings;
use gofer2::store::DictionarySource;
use gofer2::store::MappingSet;
use gofer2::store::MappingStore;
use gofer2::store::load_all_mappings;

fn set_of(rows: &[(&str, &str)]) -> MappingSet {
    let src = DictionarySource {
        location: "dict.csv".to_string(),
        header: vec!["English".to_string(), "French".to_string()],
        rows: rows.iter().map(|(s, t)| vec![s.to_string(), t.to_string()]).collect(),
    };
    load_all_mappings(&vec![src]).expect("load should succeed")
}

#[test]
fn empty_query_is_idle() {
    let small = set_of(&[("hello", "bonjour")]);
    assert!(search_mappings(&small, "", 10).is_empty());
    let rows: Vec<(String, String)> =
        (0..100).map(|i| (format!("word{}", i), format!("mot{}", i))).collect();
    let refs: Vec<(&str, &str)> =
        rows.iter().map(|(a, b)| (a.as_str(), b.as_str())).collect();
    let large = set_of(&refs);
    assert!(search_mappings(&large, "", 10).is_empty());
}

#[test]
fn unmatched_query_finds_nothing() {
    let set = set_of(&[("hello", "bonjour")]);
    assert!(search_mappings(&set, "xyz", 10).is_empty());
}

#[test]
fn subsequence_must_appear_in_order() {
    let set = set_of(&[("abc", "zzz"), ("axbycz", "zzz2")]);
    // "abx" is not a subsequence of "abc" and matches nothing here.
    assert!(search_mappings(&set, "abx", 10).is_empty());
    // "abc" is a subsequence of both "abc" and "axbycz".
    let r = search_mappings(&set, "abc", 10);
    assert_eq!(r.len(), 2);
}

#[test]
fn source_only_match_appears_once() {
    let set = set_of(&[("hello", "bonjour")]);
    let r = search_mappings(&set, "hello", 10);
    assert_eq!(r.len(), 1);
    assert_eq!(r[0].source, "hello");
    assert_eq!(r[0].target, "bonjour");
}

#[test]
fn both_sides_matching_dedups_to_the_higher_score() {
    // The first mapping matches "hello" on both its source (exactly) and its
    // target (with a gap); the second only on its target, with the same
    // characters as the first one's target.
    let set = set_of(&[("hello", "xhello"), ("zzz", "xhello")]);
    let r = search_mappings(&set, "hello", 10);
    assert_eq!(r.len(), 2);
    let first = r.iter().find(|c| c.source == "hello").expect("pair should be kept");
    let second = r.iter().find(|c| c.source == "zzz").expect("pair should be kept");
    // The kept score for the doubly-matching mapping is its better (exact,
    // source-side) score, so it beats the target-only mapping.
    assert!(first.score > second.score);
    assert_eq!(r[0].source, "hello");
}

#[test]
fn scores_are_sorted_descending() {
    let set = set_of(&[("a-b-c", "spread"), ("abc", "tight"), ("xabcx", "mid")]);
    let r = search_mappings(&set, "abc", 10);
    assert_eq!(r.len(), 3);
    for w in r.windows(2) {
        assert!(w[0].score >= w[1].score);
    }
    // The contiguous exact match scores best.
    assert_eq!(r[0].source, "abc");
}

#[test]
fn results_are_capped_at_limit() {
    let rows: Vec<(String, String)> =
        (0..30).map(|i| (format!("match{}", i), format!("mot{}", i))).collect();
    let refs: Vec<(&str, &str)> =
        rows.iter().map(|(a, b)| (a.as_str(), b.as_str())).collect();
    let set = set_of(&refs);
    let r = search_mappings(&set, "match", 10);
    assert!(r.len() <= 10);
    assert!(!r.is_empty());
}

#[test]
fn scan_stops_after_the_raw_cutoff() {
    // Eleven matching entries stand before a twelfth, better one; the scan
    // stops once more than `limit` raw candidates exist, so the later entry
    // never surfaces. This approximation is deliberate.
    let mut rows: Vec<(String, String)> =
        (0..11).map(|i| (format!("xmatchx{}", i), format!("mot{}", i))).collect();
    rows.push(("match".to_string(), "exact".to_string()));
    let refs: Vec<(&str, &str)> =
        rows.iter().map(|(a, b)| (a.as_str(), b.as_str())).collect();
    let set = set_of(&refs);
    let r = search_mappings(&set, "match", 10);
    assert!(r.iter().all(|c| c.source != "match"));
}

#[test]
fn store_search_needs_a_published_set() {
    let store = MappingStore::new();
    assert!(store.search("hello").is_none());
    let mut store = MappingStore::new();
    let src = DictionarySource {
        location: "dict.csv".to_string(),
        header: vec!["English".to_string(), "French".to_string()],
        rows: vec![vec!["hello".to_string(), "bonjour".to_string()]],
    };
    store.load(&vec![src]).expect("load should succeed");
    let r = store.search("hello").expect("a published set is searchable");
    assert_eq!(r.len(), 1);
    assert_eq!(r[0].target, "bonjour");
}

#[test]
fn small_limit_is_respected() {
    let set = set_of(&[("aaa", "x"), ("aab", "y"), ("aac", "z")]);
    let r = search_mappings(&set, "aa", 2);
    assert!(r.len() <= 2);
}
