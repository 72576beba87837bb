//! Readers for the node shapes of an OpenAPI 3.0 document: reference
//! nodes, parameter nodes, and the object and array entries the compiler
//! walks. Everything here is a pure function of the raw nodes.

use vstd::prelude::*;

use crate::node::Node;
use crate::node::NodeView;
use crate::node::get_field;
use crate::node::entries_view_from;
use crate::node::items_view_from;
use crate::node::lemma_entries_view;
use crate::node::lemma_items_view;

verus! {

/// The pointer key under which a node's schema sits.
pub open spec fn schema_key() -> Seq<char> {
    seq!['s', 'c', 'h', 'e', 'm', 'a']
}

/// The key of a reference node.
pub open spec fn ref_key() -> Seq<char> {
    seq!['$', 'r', 'e', 'f']
}

/// The reference string of a `{"$ref": "..."}` node, when it is one.
pub open spec fn ref_string(n: NodeView) -> Option<Seq<char>> {
    match get_field(n, ref_key()) {
        Some(NodeView::Text(s)) => Some(s),
        _ => None,
    }
}

/// Whether an object node declares a schema member.
pub open spec fn has_schema(n: NodeView) -> bool {
    get_field(n, schema_key()) is Some
}

/// The `required` flag of a node, when it carries one.
pub open spec fn required_flag(n: NodeView) -> Option<bool> {
    match get_field(n, seq!['r', 'e', 'q', 'u', 'i', 'r', 'e', 'd']) {
        Some(NodeView::Boolean(b)) => Some(b),
        _ => None,
    }
}

/// The text member of a node under `key`, when it is text.
pub open spec fn text_field(n: NodeView, key: Seq<char>) -> Option<Seq<char>> {
    match get_field(n, key) {
        Some(NodeView::Text(s)) => Some(s),
        _ => None,
    }
}

/// The reference string of a reference node.
pub fn reference_of(node: &Node) -> (r: Option<String>)
    ensures
        match ref_string(node@) {
            Some(s) => r matches Some(t) && t@ == s,
            None => r is None,
        },
{
    proof {
        reveal_strlit("$ref");
        assert("$ref"@ =~= ref_key());
    }
    match node.get("$ref") {
        Some(member) => match member.as_text() {
            Some(s) => Some(s.clone()),
            None => None,
        },
        None => None,
    }
}

/// The pointer to a node's schema: the single segment `schema`, exactly
/// when the node declares that member. The schema itself stays raw; only
/// its place is recorded.
pub fn schema_pointer_of(node: &Node) -> (r: Option<Vec<String>>)
    ensures
        match r {
            Some(p) => has_schema(node@) && p.deep_view() == seq![schema_key()],
            None => !has_schema(node@),
        },
{
    proof {
        reveal_strlit("schema");
        assert("schema"@ =~= schema_key());
    }
    match node.get("schema") {
        Some(_) => {
            let mut p: Vec<String> = Vec::new();
            p.push(String::from_str("schema"));
            proof {
                assert(p.deep_view() =~~= seq![schema_key()]);
            }
            Some(p)
        },
        None => None,
    }
}

/// The `required` flag of a node.
pub fn required_of(node: &Node) -> (r: Option<bool>)
    ensures
        r == required_flag(node@),
{
    proof {
        reveal_strlit("required");
        assert("required"@ =~= seq!['r', 'e', 'q', 'u', 'i', 'r', 'e', 'd']);
    }
    match node.get("required") {
        Some(member) => member.as_bool(),
        None => None,
    }
}

/// The text under `key`, cloned.
pub fn text_field_of(node: &Node, key: &str) -> (r: Option<String>)
    ensures
        match text_field(node@, key@) {
            Some(s) => r matches Some(t) && t@ == s,
            None => r is None,
        },
{
    match node.get(key) {
        Some(member) => match member.as_text() {
            Some(s) => Some(s.clone()),
            None => None,
        },
        None => None,
    }
}

/// A response header node: it may declare a schema and a `required` flag.
pub struct ResponseParameter(pub Node);

impl ResponseParameter {
    /// The pointer to the header's schema, when it declares one.
    pub fn schema_pointer(&self) -> (r: Option<Vec<String>>)
        ensures
            match r {
                Some(p) => has_schema(self.0@) && p.deep_view() == seq![schema_key()],
                None => !has_schema(self.0@),
            },
    {
        schema_pointer_of(&self.0)
    }

    /// The header's `required` flag, when it declares one.
    pub fn required(&self) -> (r: Option<bool>)
        ensures
            r == required_flag(self.0@),
    {
        required_of(&self.0)
    }
}

/// The entries of an object node, cloned in document order; `None` when
/// the node is not an object.
pub fn object_entries(node: &Node) -> (r: Option<Vec<(String, Node)>>)
    ensures
        match node@ {
            NodeView::Object(e) => r matches Some(v) && entries_view_from(v@, 0) == e,
            _ => r is None,
        },
{
    match node {
        Node::Object(entries) => {
            let n = entries.len();
            let mut out: Vec<(String, Node)> = Vec::new();
            let mut i: usize = 0;
            while i < n
                invariant
                    i <= n,
                    n == entries@.len(),
                    out@.len() == i,
                    *node == Node::Object(*entries),
                    forall|j: int|
                        0 <= j < i ==> (#[trigger] out@[j]).0@ == entries@[j].0@
                            && crate::node::node_view(out@[j].1) == crate::node::node_view(
                            entries@[j].1,
                        ),
                decreases n - i,
            {
                out.push((entries[i].0.clone(), entries[i].1.clone()));
                i += 1;
            }
            proof {
                lemma_entries_view(out@, 0);
                lemma_entries_view(entries@, 0);
                assert forall|j: int| 0 <= j < n implies entries_view_from(out@, 0)[j]
                    == entries_view_from(entries@, 0)[j] by {
                    assert(out@[j].0@ == entries@[j].0@ && crate::node::node_view(out@[j].1)
                        == crate::node::node_view(entries@[j].1));
                }
                assert(entries_view_from(out@, 0) =~= entries_view_from(entries@, 0));
            }
            Some(out)
        },
        _ => None,
    }
}

/// The items of an array node, cloned in document order; `None` when the
/// node is not an array.
pub fn array_items(node: &Node) -> (r: Option<Vec<Node>>)
    ensures
        match node@ {
            NodeView::Array(items) => r matches Some(v) && items_view_from(v@, 0) == items,
            _ => r is None,
        },
{
    match node {
        Node::Array(items) => {
            let n = items.len();
            let mut out: Vec<Node> = Vec::new();
            let mut i: usize = 0;
            while i < n
                invariant
                    i <= n,
                    n == items@.len(),
                    out@.len() == i,
                    *node == Node::Array(*items),
                    forall|j: int|
                        0 <= j < i ==> crate::node::node_view(#[trigger] out@[j])
                            == crate::node::node_view(items@[j]),
                decreases n - i,
            {
                out.push(items[i].clone());
                i += 1;
            }
            proof {
                lemma_items_view(out@, 0);
                lemma_items_view(items@, 0);
                assert forall|j: int| 0 <= j < n implies items_view_from(out@, 0)[j]
                    == items_view_from(items@, 0)[j] by {
                    assert(crate::node::node_view(out@[j]) == crate::node::node_view(items@[j]));
                }
                assert(items_view_from(out@, 0) =~= items_view_from(items@, 0));
            }
            Some(out)
        },
        _ => None,
    }
}

} // verus!
