use skiffa_core::cache::NodeCache;
use skiffa_core::context::DocumentContext;
use skiffa_core::error::DocumentError;
use skiffa_core::error::Error;
use skiffa_core::fetch::FetchFile;
use skiffa_core::fetch::FetchFileError;
use skiffa_core::fetch::MemoryFetchFile;
use skiffa_core::location::NodeLocation;
use skiffa_core::node::Node;
use skiffa_core::oas30::Oas30Document;

/// A pointer-bearing location is no valid root for a graph load.
#[test]
fn load_rejects_non_root() {
    let mut fetcher = MemoryFetchFile::new();
    let mut context = DocumentContext::new();
    let loc = NodeLocation::parse("doc.json#/a").unwrap();
    let r = context.load_from_location(&mut fetcher, &loc);
    assert!(matches!(r, Err(Error::NotARoot)));
}

/// An operation without an `operationId` cannot be compiled.
#[test]
fn missing_operation_name_fails() {
    let text = r##"{
      "openapi": "3.0.0",
      "paths": {"/x": {"get": {"responses": {"200": {"description": "ok"}}}}}
    }"##;
    let mut cache = NodeCache::new();
    let root = NodeLocation::parse("doc.json").unwrap();
    cache.load_from_text(&root, text).unwrap();
    let document = Oas30Document::new(root);
    let r = document.get_api_model(&cache);
    assert!(matches!(r, Err(DocumentError::Unknown)));
}

/// A response key that is no status kind fails compilation.
#[test]
fn bad_status_key_fails() {
    let text = r##"{
      "openapi": "3.0.0",
      "paths": {"/x": {"get": {"operationId": "x", "responses": {"banana": {"description": "?"}}}}}
    }"##;
    let mut cache = NodeCache::new();
    let root = NodeLocation::parse("doc.json").unwrap();
    cache.load_from_text(&root, text).unwrap();
    let document = Oas30Document::new(root);
    let r = document.get_api_model(&cache);
    assert!(matches!(r, Err(DocumentError::ParseStatusKindFailed)));
}

/// A reference string that is no location fails compilation.
#[test]
fn bad_reference_string_fails() {
    let text = r##"{
      "openapi": "3.0.0",
      "paths": {"/x": {"get": {
        "operationId": "x",
        "parameters": [{"$ref": "a#b"}],
        "responses": {"200": {"description": "ok"}}
      }}}
    }"##;
    let mut cache = NodeCache::new();
    let root = NodeLocation::parse("doc.json").unwrap();
    cache.load_from_text(&root, text).unwrap();
    let document = Oas30Document::new(root);
    let r = document.get_api_model(&cache);
    assert!(matches!(r, Err(DocumentError::ParseLocationFailed)));
}

/// The adapter reports a missing document node as `NodeNotFound`.
#[test]
fn missing_document_node() {
    let cache = NodeCache::new();
    let root = NodeLocation::parse("doc.json").unwrap();
    let document = Oas30Document::new(root);
    assert!(matches!(
        document.get_api_model(&cache),
        Err(DocumentError::NodeNotFound)
    ));
}

struct RefusingFetcher;

impl FetchFile for RefusingFetcher {
    fn fetch_file(&mut self, _location: &str) -> Result<String, FetchFileError> {
        Err(FetchFileError::HttpError)
    }
}

/// A fetcher's failure surfaces as the matching engine error.
#[test]
fn http_failure_surfaces() {
    let mut cache = NodeCache::new();
    let root = NodeLocation::parse("http://h/doc.json").unwrap();
    let mut fetcher = RefusingFetcher;
    let r = cache.load_from_location(&mut fetcher, &root);
    assert!(matches!(r, Err(Error::HttpError)));
}

/// YAML text parses into the same node shapes as JSON text.
#[test]
fn yaml_documents_parse() {
    let text = "a: 1\nb:\n  - x\n  - true\n";
    let mut cache = NodeCache::new();
    let root = NodeLocation::parse("doc.yaml").unwrap();
    cache.load_from_text(&root, text).unwrap();
    let b1 = cache
        .get_node(&NodeLocation::parse("doc.yaml#/b/1").unwrap())
        .unwrap();
    assert!(b1.same(&Node::Boolean(true)));
    let a = cache
        .get_node(&NodeLocation::parse("doc.yaml#/a").unwrap())
        .unwrap();
    assert!(a.same(&Node::Number("1".to_string())));
}
