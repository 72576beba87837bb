use skiffa_core::location::NodeLocation;
use skiffa_core::location::ParseLocationError;

/// Valid location strings round-trip through parsing and printing.
#[test]
fn location_round_trip() {
    for text in [
        "a/b.yaml",
        "a/b.yaml#",
        "a/b.yaml#/components/parameters/Foo",
        "http://example.test/spec.yaml#/paths/~1x/get",
        "#/a/b/0",
        "spec.yaml#/a~0b/c~1d",
        "",
        "#",
        "#/",
    ] {
        let parsed = NodeLocation::parse(text).unwrap();
        let printed = parsed.to_string();
        assert_eq!(printed, text);
        let reparsed = NodeLocation::parse(printed.as_str()).unwrap();
        assert!(parsed.same(&reparsed));
    }
}

#[test]
fn location_parse_errors() {
    assert!(matches!(
        NodeLocation::parse("a#b"),
        Err(ParseLocationError::InvalidInput)
    ));
    assert!(matches!(
        NodeLocation::parse("a#/b#c"),
        Err(ParseLocationError::InvalidInput)
    ));
    assert!(matches!(
        NodeLocation::parse("a#/b~2c"),
        Err(ParseLocationError::DecodeError)
    ));
    assert!(matches!(
        NodeLocation::parse("a#/b~"),
        Err(ParseLocationError::DecodeError)
    ));
}

/// Joining the empty reference keeps the location; a fragment-only
/// reference keeps the base.
#[test]
fn join_identity() {
    let loc = NodeLocation::parse("dir/spec.yaml#/paths/~1x").unwrap();
    let empty = NodeLocation::parse("").unwrap();
    let joined = loc.join(&empty);
    assert!(joined.same(&loc));

    let fragment = NodeLocation::parse("#/components/schemas/A").unwrap();
    let joined = loc.join(&fragment);
    assert_eq!(joined.to_string(), "dir/spec.yaml#/components/schemas/A");
}

#[test]
fn join_relative_and_absolute() {
    let base = NodeLocation::parse("specs/dir/root.yaml").unwrap();
    assert_eq!(
        base.join(&NodeLocation::parse("other.yaml").unwrap()).to_string(),
        "specs/dir/other.yaml"
    );
    assert_eq!(
        base.join(&NodeLocation::parse("./other.yaml").unwrap()).to_string(),
        "specs/dir/other.yaml"
    );
    assert_eq!(
        base.join(&NodeLocation::parse("../up.yaml").unwrap()).to_string(),
        "specs/up.yaml"
    );
    assert_eq!(
        base.join(&NodeLocation::parse("http://h/x.yaml#/a").unwrap()).to_string(),
        "http://h/x.yaml#/a"
    );
    let web = NodeLocation::parse("http://h/a/b.yaml").unwrap();
    assert_eq!(
        web.join(&NodeLocation::parse("/c.yaml").unwrap()).to_string(),
        "http://h/c.yaml"
    );
    assert_eq!(
        web.join(&NodeLocation::parse("c.yaml").unwrap()).to_string(),
        "http://h/a/c.yaml"
    );
}

#[test]
fn root_forms() {
    let loc = NodeLocation::parse("spec.yaml#/a/b").unwrap();
    assert!(!loc.is_root());
    let root = loc.set_root();
    assert!(root.is_root());
    assert_eq!(root.to_string(), "spec.yaml");
    assert_eq!(loc.to_fetch_string(), "spec.yaml");

    let mut segs = Vec::new();
    segs.push("c".to_string());
    segs.push("0".to_string());
    let deeper = loc.push_pointer(segs);
    assert_eq!(deeper.to_string(), "spec.yaml#/a/b/c/0");
    assert!(!deeper.is_root());
}
