use skiffa_core::method::Method;
use skiffa_core::method::MethodParseError;
use skiffa_core::node::Node;
use skiffa_core::node::read_node;
use skiffa_core::nodes30::ResponseParameter;

fn entry(key: &str, node: Node) -> (String, Node) {
    (key.to_string(), node)
}

#[test]
fn read_node_lists_parents_before_children() {
    let tree = Node::Object(vec![
        entry("a", Node::Array(vec![Node::Null, Node::Boolean(true)])),
        entry("b", Node::Text("t".to_string())),
    ]);
    let listed = read_node(&[], &tree);
    let pointers: Vec<Vec<String>> = listed.iter().map(|e| e.0.clone()).collect();
    assert_eq!(
        pointers,
        vec![
            Vec::<String>::new(),
            vec!["a".to_string()],
            vec!["a".to_string(), "0".to_string()],
            vec!["a".to_string(), "1".to_string()],
            vec!["b".to_string()],
        ]
    );
    assert!(listed[0].1.same(&tree));
    assert!(listed[2].1.same(&Node::Null));
    assert!(listed[3].1.same(&Node::Boolean(true)));
    assert!(listed[4].1.same(&Node::Text("t".to_string())));
}

#[test]
fn node_lookup_and_equality() {
    let a = Node::Object(vec![
        entry("x", Node::Number("1".to_string())),
        entry("y", Node::Null),
    ]);
    let b = Node::Object(vec![
        entry("x", Node::Number("1".to_string())),
        entry("y", Node::Null),
    ]);
    let c = Node::Object(vec![
        entry("y", Node::Null),
        entry("x", Node::Number("1".to_string())),
    ]);
    assert!(a.same(&b));
    // objects keep document order, so reordering entries is a different node
    assert!(!a.same(&c));
    assert!(a.get("x").unwrap().same(&Node::Number("1".to_string())));
    assert!(a.get("z").is_none());
    assert!(Node::Null.get("x").is_none());
}

#[test]
fn method_parsing() {
    assert_eq!(Method::parse("get"), Ok(Method::Get));
    assert_eq!(Method::parse("trace"), Ok(Method::Trace));
    assert_eq!(Method::parse("GET"), Err(MethodParseError));
    assert_eq!(Method::parse("fetch"), Err(MethodParseError));
    assert_eq!(Method::Patch.to_text(), "patch");
}

#[test]
fn response_parameter_reads_schema_and_required() {
    let with_both = ResponseParameter(Node::Object(vec![
        entry("schema", Node::Object(vec![])),
        entry("required", Node::Boolean(true)),
    ]));
    assert_eq!(with_both.schema_pointer(), Some(vec!["schema".to_string()]));
    assert_eq!(with_both.required(), Some(true));

    let bare = ResponseParameter(Node::Object(vec![]));
    assert_eq!(bare.schema_pointer(), None);
    assert_eq!(bare.required(), None);
}
