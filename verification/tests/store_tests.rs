use gofer2::store::DictionarySource;
use gofer2::store::LoadError;
use gofer2::store::MappingError;
use gofer2::store::MappingSet;
use gofer2::store::MappingStore;
use gofer2::store::find_target;
use gofer2::store::load_all_mappings;
use gofer2::store::source_from_csv;
use gofer2::text::trim_str;
use gofer2::text::usize_to_string;
use gofer2::get_app_version;

fn source(location: &str, header: &[&str], rows: &[&[&str]]) -> DictionarySource {
    DictionarySource {
        location: location.to_string(),
        header: header.iter().map(|c| c.to_string()).collect(),
        rows: rows.iter().map(|r| r.iter().map(|c| c.to_string()).collect()).collect(),
    }
}

fn load(sources: Vec<DictionarySource>) -> MappingSet {
    load_all_mappings(&sources).expect("load should succeed")
}

#[test]
fn two_dictionaries_override() {
    let a = source(
        "base.csv",
        &["English", "French"],
        &[&["hello", "bonjour"], &["goodbye", "au revoir"]],
    );
    let b = source("user.csv", &["English", "French"], &[&["hello", "salut"]]);
    let set = load(vec![a, b]);
    let hello = find_target(&set, "hello").expect("hello should be mapped");
    assert_eq!(hello.value, "salut");
    let goodbye = find_target(&set, "goodbye").expect("goodbye should be mapped");
    assert_eq!(goodbye.value, "au revoir");
    assert_eq!(hello.source_name, "English");
    assert_eq!(hello.target_name, "French");
    assert_eq!(set.len(), 2);
}

#[test]
fn exact_lookup_trims_query_only() {
    let set = load(vec![source("d.csv", &["En", "Fr"], &[&["hello", "bonjour"]])]);
    assert_eq!(find_target(&set, "  hello \t").unwrap().value, "bonjour");
    assert!(find_target(&set, "Hello").is_none());
    assert!(find_target(&set, "hell").is_none());
    assert!(find_target(&set, "missing").is_none());
}

#[test]
fn keys_and_values_are_trimmed_at_load() {
    let set = load(vec![source("d.csv", &[" En ", " Fr "], &[&[" hello ", " bonjour "]])]);
    let m = find_target(&set, "hello").expect("trimmed key should be found");
    assert_eq!(m.value, "bonjour");
    assert_eq!(m.source_name, "En");
    assert_eq!(m.target_name, "Fr");
}

#[test]
fn no_sources_load_an_empty_set() {
    let set = load(vec![]);
    assert_eq!(set.len(), 0);
    assert!(find_target(&set, "anything").is_none());
}

#[test]
fn empty_rows_are_skipped_not_errors() {
    let set = load(vec![source(
        "d.csv",
        &["En", "Fr"],
        &[&["  ", "bonjour"], &["hello", "  "], &["hi", "salut"]],
    )]);
    assert_eq!(set.len(), 1);
    assert_eq!(find_target(&set, "hi").unwrap().value, "salut");
}

#[test]
fn duplicate_keys_last_wins_within_one_source() {
    let set = load(vec![source(
        "d.csv",
        &["En", "Fr"],
        &[&["hello", "bonjour"], &["hello", "salut"]],
    )]);
    assert_eq!(set.len(), 1);
    assert_eq!(find_target(&set, "hello").unwrap().value, "salut");
}

#[test]
fn short_header_is_a_malformed_source() {
    let r = load_all_mappings(&vec![source("one.csv", &["OnlyColumn"], &[])]);
    match r {
        Err(LoadError::MalformedSource { location }) => assert_eq!(location, "one.csv"),
        other => panic!("expected MalformedSource, got {:?}", other),
    }
}

#[test]
fn short_row_is_a_row_error_with_its_line() {
    let r = load_all_mappings(&vec![source(
        "rows.csv",
        &["En", "Fr"],
        &[&["hello", "bonjour"], &["lonely"]],
    )]);
    match r {
        Err(LoadError::RowError { location, line }) => {
            assert_eq!(location, "rows.csv");
            // The header is line 1, the first data row line 2.
            assert_eq!(line, 3);
        }
        other => panic!("expected RowError, got {:?}", other),
    }
}

#[test]
fn extra_columns_are_ignored() {
    let set = load(vec![source(
        "wide.csv",
        &["En", "Fr", "Note"],
        &[&["hello", "bonjour", "greeting"]],
    )]);
    assert_eq!(find_target(&set, "hello").unwrap().value, "bonjour");
}

#[test]
fn failed_load_publishes_nothing() {
    let mut store = MappingStore::new();
    let good = source("good.csv", &["En", "Fr"], &[&["hello", "bonjour"]]);
    let bad = source("bad.csv", &["Broken"], &[]);
    let r = store.load(&vec![good, bad]);
    assert!(matches!(r, Err(LoadError::MalformedSource { .. })));
    assert!(!store.is_loaded());
    assert!(store.find_exact("hello").is_none());
}

#[test]
fn second_load_is_refused() {
    let mut store = MappingStore::new();
    store
        .load(&vec![source("d.csv", &["En", "Fr"], &[&["hello", "bonjour"]])])
        .expect("first load should succeed");
    assert!(store.is_loaded());
    assert_eq!(store.find_exact("hello").unwrap().value, "bonjour");
    let again = store.load(&vec![]);
    assert!(matches!(again, Err(LoadError::AlreadyLoaded)));
    assert_eq!(store.find_exact("hello").unwrap().value, "bonjour");
}

#[test]
fn csv_bytes_become_a_source() {
    let bytes = b"English,French\nhello,bonjour\ngoodbye,au revoir\n".to_vec();
    let src = source_from_csv("dict.csv", &bytes).expect("csv should parse");
    assert_eq!(src.location, "dict.csv");
    assert_eq!(src.header, vec!["English".to_string(), "French".to_string()]);
    assert_eq!(src.rows.len(), 2);
    let set = load(vec![src]);
    assert_eq!(find_target(&set, "goodbye").unwrap().value, "au revoir");
}

#[test]
fn csv_quoting_is_understood() {
    // A quoted cell holding a comma must stay one cell: this fails if the
    // bytes were split naively.
    let bytes = b"English,French\n\"one, two\",\"un, deux\"\n".to_vec();
    let src = source_from_csv("q.csv", &bytes).expect("csv should parse");
    let set = load(vec![src]);
    assert_eq!(find_target(&set, "one, two").unwrap().value, "un, deux");
}

#[test]
fn empty_csv_is_malformed() {
    let bytes: Vec<u8> = Vec::new();
    match source_from_csv("empty.csv", &bytes) {
        Err(LoadError::MalformedSource { location }) => assert_eq!(location, "empty.csv"),
        other => panic!("expected MalformedSource, got {:?}", other),
    }
}

#[test]
fn invalid_utf8_csv_is_malformed() {
    let bytes = vec![b'a', b',', 0xff, 0xfe, b'\n'];
    assert!(matches!(
        source_from_csv("bad.csv", &bytes),
        Err(LoadError::MalformedSource { .. })
    ));
}

#[test]
fn error_messages_name_source_and_reason() {
    let e = LoadError::RowError { location: "dict.csv".to_string(), line: 3 };
    let m = MappingError::from_load_error(&e);
    assert_eq!(m.message(), "Error in dict.csv: line 3 has fewer than 2 columns");
    let e = LoadError::MalformedSource { location: "x.csv".to_string() };
    let m = MappingError::from_load_error(&e);
    assert_eq!(m.message(), "Error in x.csv: source must have at least 2 columns");
    let m = MappingError::from_load_error(&LoadError::AlreadyLoaded);
    assert_eq!(m.error, "mappings already loaded");
}

#[test]
fn trimming_handles_unicode_whitespace() {
    assert_eq!(trim_str("  hello \t"), "hello");
    assert_eq!(trim_str("\u{00A0}x\u{3000}"), "x");
    assert_eq!(trim_str("   "), "");
    assert_eq!(trim_str(""), "");
    assert_eq!(trim_str("a b"), "a b");
}

#[test]
fn decimal_rendering() {
    assert_eq!(usize_to_string(0), "0");
    assert_eq!(usize_to_string(7), "7");
    assert_eq!(usize_to_string(10), "10");
    assert_eq!(usize_to_string(907), "907");
}

#[test]
fn version_string() {
    assert_eq!(get_app_version(), "0.1.0");
}
