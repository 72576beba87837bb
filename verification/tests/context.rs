use skiffa_core::cache::NodeCache;
use skiffa_core::context::DocumentContext;
use skiffa_core::context::DocumentType;
use skiffa_core::error::DocumentError;
use skiffa_core::error::Error;
use skiffa_core::fetch::MemoryFetchFile;
use skiffa_core::location::NodeLocation;
use skiffa_core::method::Method;
use skiffa_core::oas30::Oas30Document;
use skiffa_core::status::StatusKind;

/// A minimal OpenAPI 3.0 document compiles to one path with one `get`
/// operation whose single result owns exactly the code `200`.
#[test]
fn minimal_oas30_document() {
    let text = r##"{"openapi":"3.0.0","paths":{"/x":{"get":{"operationId":"x","responses":{"200":{"description":"ok"}}}}}}"##;
    let mut fetcher = MemoryFetchFile::new();
    fetcher.add("echo.json".to_string(), text.to_string());
    let mut context = DocumentContext::new();
    let root = NodeLocation::parse("echo.json").unwrap();

    context.load_from_location(&mut fetcher, &root).unwrap();
    let api = context.get_api_model(&root).unwrap();

    assert_eq!(api.location.to_string(), "echo.json");
    assert_eq!(api.paths.len(), 1);
    let path = &api.paths[0];
    assert_eq!(path.id, 1);
    assert_eq!(path.pattern, "/x");
    assert_eq!(path.operations.len(), 1);
    let operation = &path.operations[0];
    assert_eq!(operation.method, Method::Get);
    assert_eq!(operation.name, "x");
    assert!(!operation.deprecated);
    assert_eq!(operation.operation_results.len(), 1);
    let result = &operation.operation_results[0];
    assert_eq!(result.status_kind, StatusKind::Code(200));
    assert_eq!(result.status_codes, vec![200]);
    assert_eq!(result.description.as_deref(), Some("ok"));
}

/// A document with neither `swagger` nor `openapi` fails dialect
/// detection, and no entry is added to the document map.
#[test]
fn dialect_mismatch_is_document_type_error() {
    let mut fetcher = MemoryFetchFile::new();
    fetcher.add("odd.json".to_string(), r##"{"title":"nothing"}"##.to_string());
    let mut context = DocumentContext::new();
    let root = NodeLocation::parse("odd.json").unwrap();

    let r = context.load_from_location(&mut fetcher, &root);
    assert!(matches!(r, Err(Error::DocumentTypeError)));
    assert!(!context.has_document(&root));
}

#[test]
fn swagger_and_openapi_detection() {
    let doc = |text: &str| {
        let mut cache = NodeCache::new();
        let root = NodeLocation::parse("d.json").unwrap();
        cache.load_from_text(&root, text).unwrap();
        let node = cache.get_node(&root).unwrap().clone();
        DocumentType::detect(&node)
    };
    assert_eq!(doc(r##"{"swagger":"2.0.0"}"##), Ok(DocumentType::Swagger2));
    assert_eq!(doc(r##"{"openapi":"3.0.2"}"##), Ok(DocumentType::OpenApiV30));
    assert_eq!(doc(r##"{"openapi":"3.1.0"}"##), Ok(DocumentType::OpenApiV31));
    assert!(doc(r##"{"openapi":"4.0.0"}"##).is_err());
    assert!(doc(r##"{"openapi":"not a version"}"##).is_err());
    assert!(doc(r##"{"swagger":2}"##).is_err());
    assert!(doc(r##"[1,2]"##).is_err());
}

/// A `$ref` parameter compiles to a parameter whose location is the
/// dereference target, not the place the reference was written at.
#[test]
fn dereference_chain_keeps_target_location() {
    let text = r##"{
      "openapi": "3.0.0",
      "components": {"parameters": {"Foo": {"name": "foo", "in": "query", "required": true}}},
      "paths": {"/x": {"get": {
        "operationId": "x",
        "parameters": [{"$ref": "#/components/parameters/Foo"}],
        "responses": {"200": {"description": "ok"}}
      }}}
    }"##;
    let mut fetcher = MemoryFetchFile::new();
    fetcher.add("doc.json".to_string(), text.to_string());
    let mut context = DocumentContext::new();
    let root = NodeLocation::parse("doc.json").unwrap();
    context.load_from_location(&mut fetcher, &root).unwrap();
    let api = context.get_api_model(&root).unwrap();

    let operation = &api.paths[0].operations[0];
    assert_eq!(operation.query_parameters.len(), 1);
    let parameter = &operation.query_parameters[0];
    assert_eq!(parameter.name, "foo");
    assert!(parameter.required);
    assert_eq!(
        parameter.location.to_string(),
        "doc.json#/components/parameters/Foo"
    );
}

/// A body schema is only located, so a dangling schema reference does
/// not fail compilation; a dangling `$ref` parameter does, with
/// `NodeNotFound`.
#[test]
fn unresolvable_refs() {
    let good = r##"{
      "openapi": "3.0.0",
      "paths": {"/x": {"get": {
        "operationId": "x",
        "responses": {"200": {"description": "ok", "content": {"application/json": {"schema": {"$ref": "#/nowhere"}}}}}
      }}}
    }"##;
    let mut cache = NodeCache::new();
    let root = NodeLocation::parse("doc.json").unwrap();
    cache.load_from_text(&root, good).unwrap();
    let document = Oas30Document::new(root.clone());
    let api = document.get_api_model(&cache).unwrap();
    let result = &api.paths[0].operations[0].operation_results[0];
    assert_eq!(result.bodies.len(), 1);
    assert_eq!(result.bodies[0].content_type, "application/json");
    let schema_id = result.bodies[0].schema_id.as_ref().unwrap();
    assert_eq!(
        schema_id.to_string(),
        "doc.json#/paths/~1x/get/responses/200/content/application~1json/schema"
    );

    let bad = r##"{
      "openapi": "3.0.0",
      "paths": {"/x": {"get": {
        "operationId": "x",
        "parameters": [{"$ref": "#/components/parameters/Missing"}],
        "responses": {"200": {"description": "ok"}}
      }}}
    }"##;
    let mut cache = NodeCache::new();
    let root = NodeLocation::parse("bad.json").unwrap();
    cache.load_from_text(&root, bad).unwrap();
    let document = Oas30Document::new(root);
    let r = document.get_api_model(&cache);
    assert!(matches!(r, Err(DocumentError::NodeNotFound)));
}

/// Responses declared as `default`, `4XX`, `404` in document order are
/// still allocated most specific first.
#[test]
fn specificity_beats_document_order() {
    let text = r##"{
      "openapi": "3.0.0",
      "paths": {"/x": {"get": {
        "operationId": "x",
        "responses": {
          "default": {"description": "d"},
          "4XX": {"description": "c"},
          "404": {"description": "n"}
        }
      }}}
    }"##;
    let mut fetcher = MemoryFetchFile::new();
    fetcher.add("doc.json".to_string(), text.to_string());
    let mut context = DocumentContext::new();
    let root = NodeLocation::parse("doc.json").unwrap();
    context.load_from_location(&mut fetcher, &root).unwrap();
    let api = context.get_api_model(&root).unwrap();

    let results = &api.paths[0].operations[0].operation_results;
    assert_eq!(results.len(), 3);
    assert_eq!(results[0].status_kind, StatusKind::Code(404));
    assert_eq!(results[0].status_codes, vec![404]);
    assert_eq!(results[1].status_kind, StatusKind::Class(4));
    assert_eq!(results[1].status_codes.len(), 99);
    assert!(results[1].status_codes.contains(&400));
    assert!(!results[1].status_codes.contains(&404));
    assert_eq!(results[2].status_kind, StatusKind::Default);
    assert_eq!(results[2].status_codes.len(), 400);
    assert!(results[2].status_codes.contains(&200));
    assert!(!results[2].status_codes.contains(&450));
}

/// Loading a root twice performs exactly one fetch, and a second context
/// load is a no-op.
#[test]
fn context_load_is_idempotent() {
    let text = r##"{"openapi":"3.0.0","paths":{}}"##;
    let mut fetcher = MemoryFetchFile::new();
    fetcher.add("doc.json".to_string(), text.to_string());
    let mut context = DocumentContext::new();
    let root = NodeLocation::parse("doc.json").unwrap();
    context.load_from_location(&mut fetcher, &root).unwrap();
    assert_eq!(fetcher.calls(), 1);
    context.load_from_location(&mut fetcher, &root).unwrap();
    assert_eq!(fetcher.calls(), 1);
    assert!(context.has_document(&root));
}

/// A referenced document is discovered, fetched and resolved through the
/// graph walk, exactly once.
#[test]
fn referenced_documents_are_loaded() {
    let rootdoc = r##"{
      "openapi": "3.0.0",
      "paths": {"/x": {"$ref": "other.json"}}
    }"##;
    let other = r##"{
      "openapi": "3.0.0",
      "paths": {}
    }"##;
    let mut fetcher = MemoryFetchFile::new();
    fetcher.add("root.json".to_string(), rootdoc.to_string());
    fetcher.add("other.json".to_string(), other.to_string());
    let mut context = DocumentContext::new();
    let root = NodeLocation::parse("root.json").unwrap();
    context.load_from_location(&mut fetcher, &root).unwrap();
    assert_eq!(fetcher.calls(), 2);
    assert!(context.has_document(&root));
    assert!(context.has_document(&NodeLocation::parse("other.json").unwrap()));

    let api = context.get_api_model(&root).unwrap();
    assert_eq!(api.paths.len(), 1);
    assert_eq!(api.paths[0].location.to_string(), "other.json");
}

/// Schema-bearing positions are aggregated with the dialect's default
/// meta-schema id.
#[test]
fn schema_aggregation() {
    let text = r##"{
      "openapi": "3.0.0",
      "paths": {"/x": {"get": {
        "operationId": "x",
        "parameters": [{"name": "q", "in": "query", "schema": {"type": "string"}}],
        "responses": {"200": {"description": "ok", "content": {"application/json": {"schema": {"type": "object"}}}}}
      }}}
    }"##;
    let mut fetcher = MemoryFetchFile::new();
    fetcher.add("doc.json".to_string(), text.to_string());
    let mut context = DocumentContext::new();
    let root = NodeLocation::parse("doc.json").unwrap();
    context.load_from_location(&mut fetcher, &root).unwrap();

    let schemas = context.get_schemas();
    assert_eq!(schemas.len(), 2);
    for schema in &schemas {
        assert_eq!(schema.document_location.to_string(), "doc.json");
        assert_eq!(
            schema.default_schema_id,
            "https://spec.openapis.org/oas/3.0/schema/2021-09-28#/definitions/Schema"
        );
    }
    let locations: Vec<String> = schemas.iter().map(|s| s.schema_location.to_string()).collect();
    assert!(locations.contains(&"doc.json#/paths/~1x/get/parameters/0/schema".to_string()));
    assert!(locations
        .contains(&"doc.json#/paths/~1x/get/responses/200/content/application~1json/schema".to_string()));
}

/// The effective security of an operation: its own list overrides the
/// document's; without one the document's applies.
#[test]
fn security_composition() {
    let text = r##"{
      "openapi": "3.0.0",
      "security": [{"global": []}],
      "components": {"securitySchemes": {"global": {"type": "apiKey", "name": "k", "in": "header"}}},
      "paths": {"/x": {"get": {
        "operationId": "x",
        "security": [{"own": ["s1", "s2"]}],
        "responses": {"200": {"description": "ok"}}
      }},
      "/y": {"get": {
        "operationId": "y",
        "responses": {"200": {"description": "ok"}}
      }}}
    }"##;
    let mut fetcher = MemoryFetchFile::new();
    fetcher.add("doc.json".to_string(), text.to_string());
    let mut context = DocumentContext::new();
    let root = NodeLocation::parse("doc.json").unwrap();
    context.load_from_location(&mut fetcher, &root).unwrap();
    let api = context.get_api_model(&root).unwrap();

    assert_eq!(api.authentication.len(), 1);
    assert_eq!(api.authentication[0].name, "global");
    assert_eq!(api.authentication[0].auth_type, "apiKey");
    assert_eq!(api.authentication[0].auth_in.as_deref(), Some("header"));
    assert_eq!(api.authentication[0].parameter_name.as_deref(), Some("k"));

    let own = &api.paths[0].operations[0].authentication_requirements;
    assert_eq!(own.len(), 1);
    assert_eq!(own[0].requirements.len(), 1);
    assert_eq!(own[0].requirements[0].authentication_name, "own");
    assert_eq!(own[0].requirements[0].scopes, vec!["s1", "s2"]);

    let inherited = &api.paths[1].operations[0].authentication_requirements;
    assert_eq!(inherited.len(), 1);
    assert_eq!(inherited[0].requirements[0].authentication_name, "global");
    assert!(inherited[0].requirements[0].scopes.is_empty());
}
