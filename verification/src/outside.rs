//! Declarations that Verus takes on trust about functions of other crates:
//! the YAML/JSON reader, the semantic-version reader, and the one `String`
//! method the standard library specifications do not cover.

use vstd::prelude::*;

use crate::error::Error;
use crate::node::Node;
use crate::node::NodeView;

verus! {

/// Relies on `String::push`: appends the character to the end of the string,
/// as its standard-library documentation states.
pub assume_specification[ String::push ](s: &mut String, ch: char)
    ensures
        final(s)@ == old(s)@.push(ch),
;

#[verifier::external_type_specification]
#[verifier::external_body]
pub struct ExValue(serde_json::Value);

/// What reading a document text yields: the node tree of the text when it
/// is valid YAML (JSON included), and nothing otherwise. The tree is a
/// function of the text alone.
pub uninterp spec fn yaml_node_of(s: Seq<char>) -> Option<NodeView>;

/// Carries a parsed value over into the engine's own node representation,
/// arm by arm; object entries keep their document order and numbers keep
/// their literal text.
#[verifier::external_body]
fn value_to_node(v: &serde_json::Value) -> Node {
    match v {
        serde_json::Value::Null => Node::Null,
        serde_json::Value::Bool(b) => Node::Boolean(*b),
        serde_json::Value::Number(n) => Node::Number(n.to_string()),
        serde_json::Value::String(s) => Node::Text(s.clone()),
        serde_json::Value::Array(a) => Node::Array(a.iter().map(value_to_node).collect()),
        serde_json::Value::Object(m) => Node::Object(
            m.iter().map(|(k, x)| (k.clone(), value_to_node(x))).collect(),
        ),
    }
}

/// Relies on `serde_yaml::from_str`: reads YAML text (JSON is a subset)
/// into a value tree; what comes back depends on the text alone.
#[verifier::external_body]
pub fn parse_document_text(text: &str) -> (r: Result<Node, Error>)
    ensures
        match yaml_node_of(text@) {
            Some(n) => r matches Ok(node) && node@ == n,
            None => r == Err::<Node, Error>(Error::InvalidYaml),
        },
{
    match serde_yaml::from_str::<serde_json::Value>(text) {
        Ok(v) => Ok(value_to_node(&v)),
        Err(_) => Err(Error::InvalidYaml),
    }
}

/// What reading a semantic version yields: its major and minor numbers,
/// or nothing when the text is not a valid semantic version. The outcome
/// is a function of the text alone.
pub uninterp spec fn version_parts_of(s: Seq<char>) -> Option<(u64, u64)>;

/// Relies on `semver::Version::parse`: reads a `major.minor.patch`
/// version; what comes back depends on the text alone.
#[verifier::external_body]
pub fn parse_version_major_minor(text: &str) -> (r: Option<(u64, u64)>)
    ensures
        r == version_parts_of(text@),
{
    match semver::Version::parse(text) {
        Ok(v) => Some((v.major, v.minor)),
        Err(_) => None,
    }
}

} // verus!
