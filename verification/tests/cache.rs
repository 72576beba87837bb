use skiffa_core::cache::NodeCache;
use skiffa_core::error::Error;
use skiffa_core::fetch::FetchFile;
use skiffa_core::fetch::FetchFileError;
use skiffa_core::fetch::MemoryFetchFile;
use skiffa_core::location::NodeLocation;
use skiffa_core::node::Node;

#[test]
fn flattening_indexes_every_sub_node() {
    let mut cache = NodeCache::new();
    let root = NodeLocation::parse("doc.json").unwrap();
    cache
        .load_from_text(&root, r#"{"a": {"b": [null, true]}, "n": 12}"#)
        .unwrap();

    let whole = cache.get_node(&root).unwrap();
    assert!(whole.is_object());

    let b = cache
        .get_node(&NodeLocation::parse("doc.json#/a/b").unwrap())
        .unwrap();
    assert!(matches!(b, Node::Array(_)));

    let second = cache
        .get_node(&NodeLocation::parse("doc.json#/a/b/1").unwrap())
        .unwrap();
    assert!(second.same(&Node::Boolean(true)));

    // numbers are carried as their literal text
    let n = cache
        .get_node(&NodeLocation::parse("doc.json#/n").unwrap())
        .unwrap();
    assert!(n.same(&Node::Number("12".to_string())));

    assert!(cache
        .get_node(&NodeLocation::parse("doc.json#/missing").unwrap())
        .is_none());
}

#[test]
fn rejects_invalid_text() {
    let mut cache = NodeCache::new();
    let root = NodeLocation::parse("doc.json").unwrap();
    let r = cache.load_from_text(&root, "{ not valid: [ yaml");
    assert!(matches!(r, Err(Error::InvalidYaml)));
}

#[test]
fn conflicting_content_is_not_the_same() {
    let mut cache = NodeCache::new();
    let root = NodeLocation::parse("doc.json").unwrap();
    cache.load_from_text(&root, r#"{"a": 1}"#).unwrap();
    // the same location with the same content is fine
    cache.load_from_text(&root, r#"{"a": 1}"#).unwrap();
    // structurally different content under the same location is fatal
    let r = cache.load_from_text(&root, r#"{"a": 2}"#);
    assert!(matches!(r, Err(Error::NotTheSame)));
}

/// Loading the same root twice performs exactly one fetch.
#[test]
fn cache_idempotence_counts_one_fetch() {
    let mut fetcher = MemoryFetchFile::new();
    fetcher.add("doc.json".to_string(), r#"{"a": 1}"#.to_string());
    let mut cache = NodeCache::new();
    let root = NodeLocation::parse("doc.json").unwrap();

    cache.load_from_location(&mut fetcher, &root).unwrap();
    assert_eq!(fetcher.calls(), 1);
    cache.load_from_location(&mut fetcher, &root).unwrap();
    assert_eq!(fetcher.calls(), 1);
}

#[test]
fn fetch_failures_surface_as_errors() {
    let mut fetcher = MemoryFetchFile::new();
    assert!(matches!(
        fetcher.fetch_file("missing.json"),
        Err(FetchFileError::IoError)
    ));
    let mut cache = NodeCache::new();
    let root = NodeLocation::parse("missing.json").unwrap();
    let r = cache.load_from_location(&mut fetcher, &root);
    assert!(matches!(r, Err(Error::IoError)));
}

/// A pointer-bearing alias of an already-cached root is a no-op: the
/// fetch key, not the given location, decides whether to fetch.
#[test]
fn alias_of_cached_root_does_not_refetch() {
    let mut fetcher = MemoryFetchFile::new();
    fetcher.add("doc.json".to_string(), r#"{"a": 1}"#.to_string());
    let mut cache = NodeCache::new();
    let root = NodeLocation::parse("doc.json").unwrap();
    cache.load_from_location(&mut fetcher, &root).unwrap();
    assert_eq!(fetcher.calls(), 1);
    let alias = NodeLocation::parse("doc.json#/a").unwrap();
    cache.load_from_location(&mut fetcher, &alias).unwrap();
    assert_eq!(fetcher.calls(), 1);
}

#[test]
fn test_1() {
    //
}
