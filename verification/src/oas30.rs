//! The OpenAPI 3.0 adapter: it reads the dialect's node shapes from the
//! cache, resolves `$ref` indirections, and compiles the raw nodes into
//! the dialect-independent model, allocating HTTP status codes to the
//! operation results as it goes. Schema bodies are located, never
//! dereferenced: their locations are handed to an external schema
//! compiler.

use vstd::prelude::*;

use crate::cache::NodeCache;
use crate::error::DocumentError;
use crate::location::LocationView;
use crate::location::NodeLocation;
use crate::location::join_view;
use crate::location::parse_loc;
use crate::model::Authentication;
use crate::model::AuthenticationRequirement;
use crate::model::AuthenticationRequirementGroup;
use crate::model::Body;
use crate::model::Parameter;
use crate::node::Node;
use crate::node::NodeView;
use crate::node::get_field;
use crate::nodes30::has_schema;
use crate::nodes30::ref_string;
use crate::nodes30::reference_of;
use crate::nodes30::required_flag;
use crate::nodes30::schema_key;
use crate::nodes30::schema_pointer_of;
use crate::nodes30::text_field;
use crate::nodes30::text_field_of;
use crate::nodes30::required_of;
use crate::status::StatusKind;

verus! {

/// A location extended by pointer segments; never a root.
pub open spec fn push_loc(loc: LocationView, segs: Seq<Seq<char>>) -> LocationView {
    LocationView { base: loc.base, pointer: loc.pointer + segs, root: false }
}

/// What dereferencing a node at a location yields: the node and location
/// themselves when the node is no reference; otherwise the parsed
/// reference joined against the location, and the cached node there.
/// A missing target is the `NodeNotFound` error; an unreadable reference
/// string is `ParseLocationFailed`.
pub open spec fn deref_spec(
    cache: Map<LocationView, NodeView>,
    loc: LocationView,
    n: NodeView,
) -> Result<(LocationView, NodeView), DocumentError> {
    match ref_string(n) {
        Some(s) => match parse_loc(s) {
            Ok(target_ref) => {
                let target = join_view(loc, target_ref);
                if cache.contains_key(target) {
                    Ok((target, cache[target]))
                } else {
                    Err(DocumentError::NodeNotFound)
                }
            },
            Err(_) => Err(DocumentError::ParseLocationFailed),
        },
        None => Ok((loc, n)),
    }
}

/// Resolves a possible `{"$ref": ...}` indirection against the cache.
pub fn dereference(cache: &NodeCache, location: &NodeLocation, node: &Node) -> (r: Result<
    (NodeLocation, Node),
    DocumentError,
>)
    requires
        cache.wf(),
    ensures
        match deref_spec(cache@, location@, node@) {
            Ok((l, n)) => r matches Ok(p) && p.0@ == l && p.1@ == n,
            Err(e) => r matches Err(e2) && e2 == e,
        },
{
    match reference_of(node) {
        Some(reference) => match NodeLocation::parse(reference.as_str()) {
            Ok(reference_location) => {
                let target = location.join(&reference_location);
                match cache.get_node(&target) {
                    Some(t) => Ok((target, t.clone())),
                    None => Err(DocumentError::NodeNotFound),
                }
            },
            Err(_) => Err(DocumentError::ParseLocationFailed),
        },
        None => Ok((location.clone(), node.clone())),
    }
}

/// The `required` flag a parameter ends up with: absent means optional.
pub open spec fn required_or_false(n: NodeView) -> bool {
    match required_flag(n) {
        Some(b) => b,
        None => false,
    }
}

/// The schema location a node at `loc` contributes, if it declares one.
pub open spec fn schema_id_spec(loc: LocationView, n: NodeView) -> Option<LocationView> {
    if has_schema(n) {
        Some(push_loc(loc, seq![schema_key()]))
    } else {
        None
    }
}

/// The `name` key of a parameter node.
pub open spec fn name_key() -> Seq<char> {
    seq!['n', 'a', 'm', 'e']
}

/// The `in` key of a parameter node.
pub open spec fn in_key() -> Seq<char> {
    seq!['i', 'n']
}

fn schema_id_of(location: &NodeLocation, node: &Node) -> (r: Option<NodeLocation>)
    ensures
        match schema_id_spec(location@, node@) {
            Some(l) => r matches Some(s) && s@ == l,
            None => r is None,
        },
{
    match schema_pointer_of(node) {
        Some(pointer) => {
            let s = location.push_pointer(pointer);
            proof {
                assert(s@ =~~= push_loc(location@, seq![schema_key()]));
            }
            Some(s)
        },
        None => None,
    }
}

/// Compiles a dereferenced request-parameter node. The parameter keeps
/// the location it was dereferenced to, its declared name, its
/// `required` flag (absent means optional), and the location of its
/// schema when it declares one. A parameter without a name cannot be
/// compiled.
pub fn make_parameter_model_request(location: &NodeLocation, node: &Node) -> (r: Result<
    Parameter,
    DocumentError,
>)
    ensures
        match text_field(node@, name_key()) {
            Some(nm) => r matches Ok(p) && p.location@ == location@ && p.name@ == nm && p.required
                == required_or_false(node@) && (match schema_id_spec(location@, node@) {
                Some(l) => p.schema_id matches Some(s) && s@ == l,
                None => p.schema_id is None,
            }),
            None => r == Err::<Parameter, DocumentError>(DocumentError::Unknown),
        },
{
    proof {
        reveal_strlit("name");
        assert("name"@ =~= name_key());
    }
    let name = match text_field_of(node, "name") {
        Some(n) => n,
        None => {
            return Err(DocumentError::Unknown);
        },
    };
    let required = match required_of(node) {
        Some(b) => b,
        None => false,
    };
    let schema_id = schema_id_of(location, node);
    Ok(Parameter { location: location.clone(), name, required, schema_id })
}

/// Compiles a dereferenced response-header node under its given name.
pub fn make_parameter_model_response(location: &NodeLocation, node: &Node, name: String) -> (r:
    Parameter)
    ensures
        r.location@ == location@,
        r.name == name,
        r.required == required_or_false(node@),
        match schema_id_spec(location@, node@) {
            Some(l) => r.schema_id matches Some(s) && s@ == l,
            None => r.schema_id is None,
        },
{
    let required = match required_of(node) {
        Some(b) => b,
        None => false,
    };
    let schema_id = schema_id_of(location, node);
    Parameter { location: location.clone(), name, required, schema_id }
}

/// Compiles a body node under its media type. Only the schema's location
/// is recorded; the schema node itself is left for the external schema
/// compiler, so a dangling schema reference is not an error here.
pub fn make_body_model(location: &NodeLocation, node: &Node, content_type: String) -> (r: Body)
    ensures
        r.location@ == location@,
        r.content_type == content_type,
        match schema_id_spec(location@, node@) {
            Some(l) => r.schema_id matches Some(s) && s@ == l,
            None => r.schema_id is None,
        },
{
    let schema_id = schema_id_of(location, node);
    Body { location: location.clone(), content_type, schema_id }
}

/// The declared `type` of a security scheme; an absent or non-text type
/// compiles to empty text.
pub open spec fn auth_type_spec(n: NodeView) -> Seq<char> {
    match text_field(n, seq!['t', 'y', 'p', 'e']) {
        Some(t) => t,
        None => Seq::empty(),
    }
}

/// Compiles a dereferenced security-scheme node under its name.
pub fn make_authentication_model(location: &NodeLocation, node: &Node, name: String) -> (r:
    Authentication)
    ensures
        r.location@ == location@,
        r.name == name,
        r.auth_type@ == auth_type_spec(node@),
        match text_field(node@, seq!['d', 'e', 's', 'c', 'r', 'i', 'p', 't', 'i', 'o', 'n']) {
            Some(t) => r.description matches Some(d) && d@ == t,
            None => r.description is None,
        },
        match text_field(node@, seq!['i', 'n']) {
            Some(t) => r.auth_in matches Some(d) && d@ == t,
            None => r.auth_in is None,
        },
        match text_field(node@, seq!['s', 'c', 'h', 'e', 'm', 'e']) {
            Some(t) => r.scheme matches Some(d) && d@ == t,
            None => r.scheme is None,
        },
        match text_field(node@, name_key()) {
            Some(t) => r.parameter_name matches Some(d) && d@ == t,
            None => r.parameter_name is None,
        },
{
    proof {
        reveal_strlit("type");
        reveal_strlit("description");
        reveal_strlit("in");
        reveal_strlit("scheme");
        reveal_strlit("name");
        assert("type"@ =~= seq!['t', 'y', 'p', 'e']);
        assert("description"@ =~= seq!['d', 'e', 's', 'c', 'r', 'i', 'p', 't', 'i', 'o', 'n']);
        assert("in"@ =~= seq!['i', 'n']);
        assert("scheme"@ =~= seq!['s', 'c', 'h', 'e', 'm', 'e']);
        assert("name"@ =~= name_key());
    }
    let auth_type = match text_field_of(node, "type") {
        Some(t) => t,
        None => String::new(),
    };
    Authentication {
        location: location.clone(),
        name,
        description: text_field_of(node, "description"),
        auth_type,
        parameter_name: text_field_of(node, "name"),
        auth_in: text_field_of(node, "in"),
        scheme: text_field_of(node, "scheme"),
    }
}

/// The object entries of a node's member, or nothing when the member is
/// missing or no object.
pub open spec fn member_entries(n: NodeView, key: Seq<char>) -> Seq<(Seq<char>, NodeView)> {
    match get_field(n, key) {
        Some(NodeView::Object(e)) => e,
        _ => Seq::empty(),
    }
}

/// A compiled parameter agrees with a node at a location and a name.
pub open spec fn param_matches(p: Parameter, loc: LocationView, name: Seq<char>, n: NodeView) -> bool {
    &&& p.location@ == loc
    &&& p.name@ == name
    &&& p.required == required_or_false(n)
    &&& match schema_id_spec(loc, n) {
        Some(l) => p.schema_id matches Some(s) && s@ == l,
        None => p.schema_id is None,
    }
}

/// A compiled body agrees with a node at a location and a media type.
pub open spec fn body_matches(b: Body, loc: LocationView, ct: Seq<char>, n: NodeView) -> bool {
    &&& b.location@ == loc
    &&& b.content_type@ == ct
    &&& match schema_id_spec(loc, n) {
        Some(l) => b.schema_id matches Some(s) && s@ == l,
        None => b.schema_id is None,
    }
}

/// The texts among a sequence of nodes, in order.
pub open spec fn texts_of(items: Seq<NodeView>, k: int) -> Seq<Seq<char>>
    decreases items.len() - k,
{
    if k < 0 || k >= items.len() {
        Seq::empty()
    } else {
        match items[k] {
            NodeView::Text(s) => seq![s] + texts_of(items, k + 1),
            _ => texts_of(items, k + 1),
        }
    }
}

/// The `(scheme name, scopes)` pairs of one security-requirement object:
/// entries whose value is an array, with its text items as the scopes.
pub open spec fn group_entries_spec(entries: Seq<(Seq<char>, NodeView)>, k: int) -> Seq<
    (Seq<char>, Seq<Seq<char>>),
>
    decreases entries.len() - k,
{
    if k < 0 || k >= entries.len() {
        Seq::empty()
    } else {
        match entries[k].1 {
            NodeView::Array(items) => seq![(entries[k].0, texts_of(items, 0))]
                + group_entries_spec(entries, k + 1),
            _ => group_entries_spec(entries, k + 1),
        }
    }
}

/// The requirement groups of a `security` array: its object items, each
/// read as a requirement object.
pub open spec fn groups_spec(items: Seq<NodeView>, k: int) -> Seq<Seq<(Seq<char>, Seq<Seq<char>>)>>
    decreases items.len() - k,
{
    if k < 0 || k >= items.len() {
        Seq::empty()
    } else {
        match items[k] {
            NodeView::Object(e) => seq![group_entries_spec(e, 0)] + groups_spec(items, k + 1),
            _ => groups_spec(items, k + 1),
        }
    }
}

/// The `security` member of a node, read as requirement groups; nothing
/// when the member is missing or no array.
pub open spec fn security_spec(n: NodeView) -> Option<Seq<Seq<(Seq<char>, Seq<Seq<char>>)>>> {
    match get_field(n, seq!['s', 'e', 'c', 'u', 'r', 'i', 't', 'y']) {
        Some(NodeView::Array(items)) => Some(groups_spec(items, 0)),
        _ => None,
    }
}

/// The requirement an operation is under: its own security when it
/// declares one, else the document's.
pub open spec fn effective_security(op: NodeView, api: NodeView) -> Seq<
    Seq<(Seq<char>, Seq<Seq<char>>)>,
> {
    match security_spec(op) {
        Some(g) => g,
        None => match security_spec(api) {
            Some(g) => g,
            None => Seq::empty(),
        },
    }
}

/// Compiled requirements agree with their read pairs.
pub open spec fn reqs_match(
    rs: Seq<AuthenticationRequirement>,
    pairs: Seq<(Seq<char>, Seq<Seq<char>>)>,
) -> bool {
    &&& rs.len() == pairs.len()
    &&& forall|j: int|
        0 <= j < rs.len() ==> (#[trigger] rs[j]).authentication_name@ == pairs[j].0
            && rs[j].scopes.deep_view() == pairs[j].1
}

/// Compiled requirement groups agree with their read groups.
pub open spec fn groups_match(
    gs: Seq<AuthenticationRequirementGroup>,
    groups: Seq<Seq<(Seq<char>, Seq<Seq<char>>)>>,
) -> bool {
    &&& gs.len() == groups.len()
    &&& forall|j: int|
        0 <= j < gs.len() ==> reqs_match((#[trigger] gs[j]).requirements@, groups[j])
}

fn make_scopes(items: &Vec<Node>) -> (r: Vec<String>)
    ensures
        r.deep_view() == texts_of(crate::node::items_view_from(items@, 0), 0),
{
    let ghost iv = crate::node::items_view_from(items@, 0);
    proof {
        crate::node::lemma_items_view(items@, 0);
    }
    let n = items.len();
    let mut r: Vec<String> = Vec::new();
    let mut i: usize = 0;
    proof {
        assert(r.deep_view() + texts_of(iv, 0) =~~= texts_of(iv, 0));
    }
    while i < n
        invariant
            i <= n,
            n == items@.len(),
            iv == crate::node::items_view_from(items@, 0),
            iv.len() == n,
            forall|j: int| 0 <= j < n ==> iv[j] == crate::node::node_view(#[trigger] items@[j]),
            texts_of(iv, 0) == r.deep_view() + texts_of(iv, i as int),
        decreases n - i,
    {
        let ghost pre = r.deep_view();
        match items[i].as_text() {
            Some(s) => {
                let ghost sv = s@;
                r.push(s.clone());
                proof {
                    assert(r.deep_view() =~~= pre.push(sv));
                    assert(texts_of(iv, i as int) == seq![sv] + texts_of(iv, i + 1));
                    assert(pre + (seq![sv] + texts_of(iv, i + 1)) =~~= pre.push(sv) + texts_of(
                        iv,
                        i + 1,
                    ));
                }
            },
            None => {
                proof {
                    assert(texts_of(iv, i as int) == texts_of(iv, i + 1));
                }
            },
        }
        i += 1;
    }
    proof {
        assert(texts_of(iv, n as int) =~~= Seq::<Seq<char>>::empty());
        assert(r.deep_view() + Seq::<Seq<char>>::empty() =~~= r.deep_view());
    }
    r
}

fn make_requirement_group(node: &Node) -> (r: Option<AuthenticationRequirementGroup>)
    ensures
        match node@ {
            NodeView::Object(e) => r matches Some(g) && reqs_match(
                g.requirements@,
                group_entries_spec(e, 0),
            ),
            _ => r is None,
        },
{
    let entries = match crate::nodes30::object_entries(node) {
        Some(e) => e,
        None => {
            return None;
        },
    };
    let ghost ev = crate::node::entries_view_from(entries@, 0);
    proof {
        crate::node::lemma_entries_view(entries@, 0);
        if let NodeView::Object(e) = node@ {
            assert(ev == e);
        }
    }
    let n = entries.len();
    let mut rs: Vec<AuthenticationRequirement> = Vec::new();
    let mut i: usize = 0;
    proof {
        assert(group_entries_spec(ev, 0).take(0) =~~= Seq::<(Seq<char>, Seq<Seq<char>>)>::empty());
    }
    while i < n
        invariant
            i <= n,
            n == entries@.len(),
            ev == crate::node::entries_view_from(entries@, 0),
            ev.len() == n,
            forall|j: int|
                0 <= j < n ==> ev[j] == ((#[trigger] entries@[j]).0@, crate::node::node_view(
                    entries@[j].1,
                )),
            group_entries_spec(ev, 0) == rs@.map_values(
                |q: AuthenticationRequirement| (q.authentication_name@, q.scopes.deep_view()),
            ) + group_entries_spec(ev, i as int),
        decreases n - i,
    {
        let ghost pre = rs@.map_values(
            |q: AuthenticationRequirement| (q.authentication_name@, q.scopes.deep_view()),
        );
        match crate::nodes30::array_items(&entries[i].1) {
            Some(items) => {
                let scopes = make_scopes(&items);
                let ghost sv = scopes.deep_view();
                let ghost namev = entries@[i as int].0@;
                rs.push(
                    AuthenticationRequirement {
                        authentication_name: entries[i].0.clone(),
                        scopes,
                    },
                );
                proof {
                    assert(rs@.map_values(
                        |q: AuthenticationRequirement| (q.authentication_name@, q.scopes.deep_view()),
                    ) =~~= pre.push((namev, sv)));
                    if let NodeView::Array(itv) = ev[i as int].1 {
                        assert(sv == texts_of(itv, 0));
                        assert(group_entries_spec(ev, i as int) == seq![(ev[i as int].0, texts_of(itv, 0))]
                            + group_entries_spec(ev, i + 1));
                        assert(pre + (seq![(namev, sv)] + group_entries_spec(ev, i + 1)) =~~= pre.push(
                            (namev, sv),
                        ) + group_entries_spec(ev, i + 1));
                    }
                }
            },
            None => {
                proof {
                    assert(group_entries_spec(ev, i as int) == group_entries_spec(ev, i + 1));
                }
            },
        }
        i += 1;
    }
    proof {
        assert(group_entries_spec(ev, n as int) =~~= Seq::<(Seq<char>, Seq<Seq<char>>)>::empty());
        let m = rs@.map_values(
            |q: AuthenticationRequirement| (q.authentication_name@, q.scopes.deep_view()),
        );
        assert(m + Seq::<(Seq<char>, Seq<Seq<char>>)>::empty() =~~= m);
    }
    Some(AuthenticationRequirementGroup { requirements: rs })
}

fn groups_of_member(node: &Node) -> (r: Option<Vec<AuthenticationRequirementGroup>>)
    ensures
        match security_spec(node@) {
            Some(groups) => r matches Some(gs) && groups_match(gs@, groups),
            None => r is None,
        },
{
    proof {
        reveal_strlit("security");
        assert("security"@ =~= seq!['s', 'e', 'c', 'u', 'r', 'i', 't', 'y']);
    }
    let member = match node.get("security") {
        Some(m) => m,
        None => {
            return None;
        },
    };
    let items = match crate::nodes30::array_items(member) {
        Some(v) => v,
        None => {
            return None;
        },
    };
    let ghost iv = crate::node::items_view_from(items@, 0);
    proof {
        crate::node::lemma_items_view(items@, 0);
    }
    let n = items.len();
    let mut gs: Vec<AuthenticationRequirementGroup> = Vec::new();
    let ghost groups = groups_spec(iv, 0);
    let mut i: usize = 0;
    proof {
        assert(groups_match(gs@, Seq::empty()));
    }
    while i < n
        invariant
            i <= n,
            n == items@.len(),
            iv == crate::node::items_view_from(items@, 0),
            iv.len() == n,
            forall|j: int| 0 <= j < n ==> iv[j] == crate::node::node_view(#[trigger] items@[j]),
            groups == groups_spec(iv, 0),
            groups_spec(iv, 0) == gs@.map_values(
                |g: AuthenticationRequirementGroup| g.requirements@.map_values(
                    |q: AuthenticationRequirement| (q.authentication_name@, q.scopes.deep_view()),
                ),
            ) + groups_spec(iv, i as int),
            forall|j: int|
                0 <= j < gs@.len() ==> reqs_match(
                    (#[trigger] gs@[j]).requirements@,
                    gs@.map_values(
                        |g: AuthenticationRequirementGroup| g.requirements@.map_values(
                            |q: AuthenticationRequirement| (
                                q.authentication_name@,
                                q.scopes.deep_view(),
                            ),
                        ),
                    )[j],
                ),
        decreases n - i,
    {
        let ghost gm = gs@.map_values(
            |g: AuthenticationRequirementGroup| g.requirements@.map_values(
                |q: AuthenticationRequirement| (q.authentication_name@, q.scopes.deep_view()),
            ),
        );
        match make_requirement_group(&items[i]) {
            Some(g) => {
                let ghost gv = g.requirements@.map_values(
                    |q: AuthenticationRequirement| (q.authentication_name@, q.scopes.deep_view()),
                );
                proof {
                    if let NodeView::Object(e) = iv[i as int] {
                        assert(reqs_match(g.requirements@, group_entries_spec(e, 0)));
                        assert(gv =~~= group_entries_spec(e, 0));
                        assert(reqs_match(g.requirements@, gv));
                    }
                }
                gs.push(g);
                proof {
                    assert(gs@.map_values(
                        |g: AuthenticationRequirementGroup| g.requirements@.map_values(
                            |q: AuthenticationRequirement| (
                                q.authentication_name@,
                                q.scopes.deep_view(),
                            ),
                        ),
                    ) =~~= gm.push(gv));
                    if let NodeView::Object(e) = iv[i as int] {
                        assert(groups_spec(iv, i as int) == seq![group_entries_spec(e, 0)]
                            + groups_spec(iv, i + 1));
                        assert(gm + (seq![gv] + groups_spec(iv, i + 1)) =~~= gm.push(gv)
                            + groups_spec(iv, i + 1));
                    }
                }
            },
            None => {
                proof {
                    assert(groups_spec(iv, i as int) == groups_spec(iv, i + 1));
                }
            },
        }
        i += 1;
    }
    proof {
        assert(groups_spec(iv, n as int) =~~= Seq::<Seq<(Seq<char>, Seq<Seq<char>>)>>::empty());
        let gm = gs@.map_values(
            |g: AuthenticationRequirementGroup| g.requirements@.map_values(
                |q: AuthenticationRequirement| (q.authentication_name@, q.scopes.deep_view()),
            ),
        );
        assert(gm + Seq::<Seq<(Seq<char>, Seq<Seq<char>>)>>::empty() =~~= gm);
        assert(groups_match(gs@, groups)) by {
            assert(gm.len() == gs@.len());
            assert forall|j: int| 0 <= j < gs@.len() implies reqs_match(
                (#[trigger] gs@[j]).requirements@,
                groups[j],
            ) by {
                assert(groups[j] == gm[j]);
            }
        }
    }
    Some(gs)
}

/// Compiles the effective security requirement of an operation inside a
/// document: the operation's own `security`, or the document's when the
/// operation declares none.
pub fn make_authentication_requirements(op_node: &Node, api_node: &Node) -> (r: Vec<
    AuthenticationRequirementGroup,
>)
    ensures
        groups_match(r@, effective_security(op_node@, api_node@)),
{
    match groups_of_member(op_node) {
        Some(gs) => gs,
        None => match groups_of_member(api_node) {
            Some(gs) => gs,
            None => Vec::new(),
        },
    }
}

/// Builds a two-segment pointer.
fn seg_pair(a: &str, b: &String) -> (r: Vec<String>)
    ensures
        r.deep_view() == seq![a@, b@],
{
    let mut v: Vec<String> = Vec::new();
    v.push(a.to_owned());
    v.push(b.clone());
    proof {
        assert(v.deep_view() =~~= seq![a@, b@]);
    }
    v
}

/// The description text of a node.
pub open spec fn description_key() -> Seq<char> {
    seq!['d', 'e', 's', 'c', 'r', 'i', 'p', 't', 'i', 'o', 'n']
}

pub open spec fn headers_key() -> Seq<char> {
    seq!['h', 'e', 'a', 'd', 'e', 'r', 's']
}

pub open spec fn content_key() -> Seq<char> {
    seq!['c', 'o', 'n', 't', 'e', 'n', 't']
}

/// A compiled operation result agrees with a response node at its
/// location: the kind, the codes claimed from the pool `avail0`, the
/// description, one dereferenced header parameter per declared header,
/// and one body per media type.
pub open spec fn result_model_matches(
    cache: Map<LocationView, NodeView>,
    loc: LocationView,
    n: NodeView,
    kind: StatusKind,
    avail0: Seq<bool>,
    res: crate::model::OperationResult,
) -> bool {
    let hdrs = member_entries(n, headers_key());
    let bods = member_entries(n, content_key());
    &&& res.location@ == loc
    &&& res.status_kind == kind
    &&& res.status_codes@.map_values(|x: usize| x as int) == crate::status::claimed_from(
        avail0,
        kind,
        100,
    )
    &&& (match text_field(n, description_key()) {
        Some(d) => res.description matches Some(t) && t@ == d,
        None => res.description is None,
    })
    &&& res.header_parameters@.len() == hdrs.len()
    &&& (forall|j: int|
        0 <= j < hdrs.len() ==> (match deref_spec(
            cache,
            push_loc(loc, seq![headers_key(), (#[trigger] hdrs[j]).0]),
            hdrs[j].1,
        ) {
            Ok(p) => param_matches(res.header_parameters@[j], p.0, hdrs[j].0, p.1),
            Err(_) => false,
        }))
    &&& res.bodies@.len() == bods.len()
    &&& (forall|j: int|
        0 <= j < bods.len() ==> body_matches(
            res.bodies@[j],
            push_loc(loc, seq![content_key(), (#[trigger] bods[j]).0]),
            bods[j].0,
            bods[j].1,
        ))
}

/// Compiles one response node into an operation result. The codes the
/// result owns are taken from the shared pool first, so a more specific
/// response processed earlier always wins; the pool is reduced whether or
/// not the rest of the response compiles. Response headers are
/// dereferenced; body schemas are only located.
pub fn make_operation_result_model(
    cache: &NodeCache,
    location: &NodeLocation,
    node: &Node,
    status_kind: StatusKind,
    available: &mut Vec<bool>,
) -> (r: Result<crate::model::OperationResult, DocumentError>)
    requires
        cache.wf(),
        crate::status::kind_wf(status_kind),
        crate::status::avail_wf(old(available)@),
    ensures
        crate::status::avail_wf(final(available)@),
        final(available)@ == crate::status::avail_after(old(available)@, status_kind),
        ({
            let hdrs = member_entries(node@, headers_key());
            let bods = member_entries(node@, content_key());
            match r {
                Ok(res) => result_model_matches(
                    cache@,
                    location@,
                    node@,
                    status_kind,
                    old(available)@,
                    res,
                ),
                Err(e) => exists|j: int|
                    #![auto]
                    0 <= j < hdrs.len() && deref_spec(
                        cache@,
                        push_loc(location@, seq![headers_key(), hdrs[j].0]),
                        hdrs[j].1,
                    ) == Err::<(LocationView, NodeView), DocumentError>(e),
            }
        }),
{
    proof {
        reveal_strlit("headers");
        reveal_strlit("content");
        reveal_strlit("description");
        assert("headers"@ =~= headers_key());
        assert("content"@ =~= content_key());
        assert("description"@ =~= description_key());
    }
    let status_codes = crate::status::claim_status_codes(&status_kind, available);
    let description = text_field_of(node, "description");
    let ghost hdrs = member_entries(node@, headers_key());
    let mut header_parameters: Vec<Parameter> = Vec::new();
    match node.get("headers") {
        Some(hmember) => {
            match crate::nodes30::object_entries(hmember) {
                Some(entries) => {
                    proof {
                        crate::node::lemma_entries_view(entries@, 0);
                        assert(hdrs == crate::node::entries_view_from(entries@, 0));
                    }
                    let n = entries.len();
                    let mut i: usize = 0;
                    while i < n
                        invariant
                            i <= n,
                            n == entries@.len(),
                            cache.wf(),
                            crate::status::avail_wf(available@),
                            available@ == crate::status::avail_after(
                                old(available)@,
                                status_kind,
                            ),
                            hdrs.len() == n,
                            hdrs == member_entries(node@, headers_key()),
                            forall|j: int|
                                0 <= j < n ==> hdrs[j] == ((#[trigger] entries@[j]).0@,
                                crate::node::node_view(entries@[j].1)),
                            header_parameters@.len() == i,
                            forall|j: int|
                                0 <= j < i ==> (match deref_spec(
                                    cache@,
                                    push_loc(
                                        location@,
                                        seq![headers_key(), (#[trigger] hdrs[j]).0],
                                    ),
                                    hdrs[j].1,
                                ) {
                                    Ok(p) => param_matches(
                                        header_parameters@[j],
                                        p.0,
                                        hdrs[j].0,
                                        p.1,
                                    ),
                                    Err(_) => false,
                                }),
                        decreases n - i,
                    {
                        let name = entries[i].0.clone();
                        let hloc = location.push_pointer(seg_pair("headers", &entries[i].0));
                        proof {
                            reveal_strlit("headers");
                            assert(hloc@ =~~= push_loc(
                                location@,
                                seq![headers_key(), hdrs[i as int].0],
                            ));
                        }
                        match dereference(cache, &hloc, &entries[i].1) {
                            Ok(pair) => {
                                let p = make_parameter_model_response(&pair.0, &pair.1, name);
                                header_parameters.push(p);
                            },
                            Err(e) => {
                                proof {
                                    assert(deref_spec(
                                        cache@,
                                        push_loc(location@, seq![headers_key(), hdrs[i as int].0]),
                                        hdrs[i as int].1,
                                    ) == Err::<(LocationView, NodeView), DocumentError>(e));
                                }
                                return Err(e);
                            },
                        }
                        i += 1;
                    }
                },
                None => {
                    proof {
                        assert(hdrs =~~= Seq::<(Seq<char>, NodeView)>::empty());
                    }
                },
            }
        },
        None => {
            proof {
                assert(hdrs =~~= Seq::<(Seq<char>, NodeView)>::empty());
            }
        },
    }
    let ghost bods = member_entries(node@, content_key());
    let mut bodies: Vec<Body> = Vec::new();
    match node.get("content") {
        Some(cmember) => {
            match crate::nodes30::object_entries(cmember) {
                Some(entries) => {
                    proof {
                        crate::node::lemma_entries_view(entries@, 0);
                        assert(bods == crate::node::entries_view_from(entries@, 0));
                    }
                    let n = entries.len();
                    let mut i: usize = 0;
                    while i < n
                        invariant
                            i <= n,
                            n == entries@.len(),
                            bods.len() == n,
                            forall|j: int|
                                0 <= j < n ==> bods[j] == ((#[trigger] entries@[j]).0@,
                                crate::node::node_view(entries@[j].1)),
                            bodies@.len() == i,
                            forall|j: int|
                                0 <= j < i ==> body_matches(
                                    bodies@[j],
                                    push_loc(
                                        location@,
                                        seq![content_key(), (#[trigger] bods[j]).0],
                                    ),
                                    bods[j].0,
                                    bods[j].1,
                                ),
                        decreases n - i,
                    {
                        let content_type = entries[i].0.clone();
                        let bloc = location.push_pointer(seg_pair("content", &entries[i].0));
                        proof {
                            reveal_strlit("content");
                            assert(bloc@ =~~= push_loc(
                                location@,
                                seq![content_key(), bods[i as int].0],
                            ));
                        }
                        let b = make_body_model(&bloc, &entries[i].1, content_type);
                        bodies.push(b);
                        i += 1;
                    }
                },
                None => {
                    proof {
                        assert(bods =~~= Seq::<(Seq<char>, NodeView)>::empty());
                    }
                },
            }
        },
        None => {
            proof {
                assert(bods =~~= Seq::<(Seq<char>, NodeView)>::empty());
            }
        },
    }
    Ok(
        crate::model::OperationResult {
            location: location.clone(),
            description,
            status_kind,
            status_codes,
            header_parameters,
            bodies,
        },
    )
}

pub open spec fn parameters_key() -> Seq<char> {
    seq!['p', 'a', 'r', 'a', 'm', 'e', 't', 'e', 'r', 's']
}

pub open spec fn responses_key() -> Seq<char> {
    seq!['r', 'e', 's', 'p', 'o', 'n', 's', 'e', 's']
}

pub open spec fn request_body_key() -> Seq<char> {
    seq!['r', 'e', 'q', 'u', 'e', 's', 't', 'B', 'o', 'd', 'y']
}

pub open spec fn operation_id_key() -> Seq<char> {
    seq!['o', 'p', 'e', 'r', 'a', 't', 'i', 'o', 'n', 'I', 'd']
}

pub open spec fn summary_key() -> Seq<char> {
    seq!['s', 'u', 'm', 'm', 'a', 'r', 'y']
}

/// The `deprecated` flag of an operation; absent or non-boolean means not
/// deprecated.
pub open spec fn deprecated_spec(n: NodeView) -> bool {
    match get_field(n, seq!['d', 'e', 'p', 'r', 'e', 'c', 'a', 't', 'e', 'd']) {
        Some(NodeView::Boolean(b)) => b,
        _ => false,
    }
}

/// The items of a node's `parameters` array, or nothing at all.
pub open spec fn param_items(n: NodeView) -> Seq<NodeView> {
    match get_field(n, parameters_key()) {
        Some(NodeView::Array(items)) => items,
        _ => Seq::empty(),
    }
}

/// Dereferences every parameter item of a list rooted at `base`, keeping
/// the order; the first failing dereference is the error.
pub open spec fn deref_params(
    cache: Map<LocationView, NodeView>,
    base: LocationView,
    items: Seq<NodeView>,
    k: int,
) -> Result<Seq<(LocationView, NodeView)>, DocumentError>
    decreases items.len() - k,
{
    if k < 0 || k >= items.len() {
        Ok(Seq::empty())
    } else {
        let loc = push_loc(base, seq![parameters_key(), crate::node::dec_str(k as nat)]);
        match deref_spec(cache, loc, items[k]) {
            Ok(p) => match deref_params(cache, base, items, k + 1) {
                Ok(rest) => Ok(seq![p] + rest),
                Err(e) => Err(e),
            },
            Err(e) => Err(e),
        }
    }
}

/// Every parameter visible to an operation: the enclosing path item's
/// list and the operation's own list, dereferenced, in that order.
pub open spec fn all_params_spec(
    cache: Map<LocationView, NodeView>,
    ploc: LocationView,
    pnode: NodeView,
    oloc: LocationView,
    onode: NodeView,
) -> Result<Seq<(LocationView, NodeView)>, DocumentError> {
    match deref_params(cache, ploc, param_items(pnode), 0) {
        Ok(a) => match deref_params(cache, oloc, param_items(onode), 0) {
            Ok(b) => Ok(a + b),
            Err(e) => Err(e),
        },
        Err(e) => Err(e),
    }
}

/// The parameters whose `in` field is `v`, in order.
pub open spec fn bucket_spec(s: Seq<(LocationView, NodeView)>, v: Seq<char>, k: int) -> Seq<
    (LocationView, NodeView),
>
    decreases s.len() - k,
{
    if k < 0 || k >= s.len() {
        Seq::empty()
    } else {
        if text_field(s[k].1, in_key()) == Some(v) {
            seq![s[k]] + bucket_spec(s, v, k + 1)
        } else {
            bucket_spec(s, v, k + 1)
        }
    }
}

/// A compiled parameter list agrees with a bucket of dereferenced nodes.
pub open spec fn bucket_ok(list: Seq<Parameter>, b: Seq<(LocationView, NodeView)>) -> bool {
    &&& list.len() == b.len()
    &&& forall|j: int|
        0 <= j < b.len() ==> (match text_field((#[trigger] b[j]).1, name_key()) {
            Some(nm) => param_matches(list[j], b[j].0, nm, b[j].1),
            None => false,
        })
}

/// The views of collected `(location, node)` pairs.
pub open spec fn pairs_view(s: Seq<(NodeLocation, Node)>) -> Seq<(LocationView, NodeView)> {
    Seq::new(s.len(), |i: int| (s[i].0@, crate::node::node_view(s[i].1)))
}

/// How early a kind claims codes: explicit codes first, then classes,
/// then `default`.
pub open spec fn rank_of(k: StatusKind) -> int {
    match k {
        StatusKind::Code(_) => 0,
        StatusKind::Class(_) => 1,
        StatusKind::Default => 2,
    }
}

/// The triples of one rank, in document order.
pub open spec fn keep_rank(
    ts: Seq<(StatusKind, LocationView, NodeView)>,
    rank: int,
    k: int,
) -> Seq<(StatusKind, LocationView, NodeView)>
    decreases ts.len() - k,
{
    if k < 0 || k >= ts.len() {
        Seq::empty()
    } else {
        if rank_of(ts[k].0) == rank {
            seq![ts[k]] + keep_rank(ts, rank, k + 1)
        } else {
            keep_rank(ts, rank, k + 1)
        }
    }
}

/// The order in which responses claim status codes: code responses in
/// document order, then class responses, then `default` responses.
pub open spec fn process_order(ts: Seq<(StatusKind, LocationView, NodeView)>) -> Seq<
    (StatusKind, LocationView, NodeView),
> {
    keep_rank(ts, 0, 0) + keep_rank(ts, 1, 0) + keep_rank(ts, 2, 0)
}

/// Reads the responses of an operation, in document order: each key must
/// parse as a status kind, and each response node is dereferenced.
pub open spec fn responses_spec(
    cache: Map<LocationView, NodeView>,
    oloc: LocationView,
    entries: Seq<(Seq<char>, NodeView)>,
    k: int,
) -> Result<Seq<(StatusKind, LocationView, NodeView)>, DocumentError>
    decreases entries.len() - k,
{
    if k < 0 || k >= entries.len() {
        Ok(Seq::empty())
    } else {
        match crate::status::parse_status_kind(entries[k].0) {
            Some(kind) => {
                let loc = push_loc(oloc, seq![responses_key(), entries[k].0]);
                match deref_spec(cache, loc, entries[k].1) {
                    Ok(p) => match responses_spec(cache, oloc, entries, k + 1) {
                        Ok(rest) => Ok(seq![(kind, p.0, p.1)] + rest),
                        Err(e) => Err(e),
                    },
                    Err(e) => Err(e),
                }
            },
            None => Err(DocumentError::ParseStatusKindFailed),
        }
    }
}

/// The kinds of a triple sequence, in order.
pub open spec fn kinds_of(ts: Seq<(StatusKind, LocationView, NodeView)>) -> Seq<StatusKind> {
    Seq::new(ts.len(), |i: int| ts[i].0)
}

/// The pool after the first `k` kinds have claimed in order.
pub open spec fn avail_steps(avail: Seq<bool>, kinds: Seq<StatusKind>, k: int) -> Seq<bool>
    decreases k,
{
    if k <= 0 {
        avail
    } else {
        avail_steps(
            crate::status::avail_after(avail, kinds[0]),
            kinds.drop_first(),
            k - 1,
        )
    }
}

/// Stepping the pool forward one claim.
pub proof fn lemma_avail_steps_snoc(avail: Seq<bool>, kinds: Seq<StatusKind>, k: int)
    requires
        0 <= k < kinds.len(),
    ensures
        avail_steps(avail, kinds, k + 1) == crate::status::avail_after(
            avail_steps(avail, kinds, k),
            kinds[k],
        ),
    decreases k,
{
    reveal_with_fuel(avail_steps, 2);
    if k > 0 {
        lemma_avail_steps_snoc(
            crate::status::avail_after(avail, kinds[0]),
            kinds.drop_first(),
            k - 1,
        );
        assert(kinds.drop_first()[k - 1] == kinds[k]);
    }
}

/// Each allocation entry is what the kind claims from the pool it sees.
pub proof fn lemma_alloc_index(avail: Seq<bool>, kinds: Seq<StatusKind>, j: int)
    requires
        0 <= j < kinds.len(),
    ensures
        crate::status::alloc_seq(avail, kinds).len() == kinds.len(),
        crate::status::alloc_seq(avail, kinds)[j] == crate::status::claimed_from(
            avail_steps(avail, kinds, j),
            kinds[j],
            100,
        ),
    decreases kinds.len(),
{
    crate::status::lemma_alloc_len(avail, kinds);
    if j > 0 {
        lemma_alloc_index(
            crate::status::avail_after(avail, kinds[0]),
            kinds.drop_first(),
            j - 1,
        );
        assert(kinds.drop_first()[j - 1] == kinds[j]);
        assert(crate::status::alloc_seq(avail, kinds)[j] == crate::status::alloc_seq(
            crate::status::avail_after(avail, kinds[0]),
            kinds.drop_first(),
        )[j - 1]);
    }
}

/// The views of collected `(kind, location, node)` triples.
pub open spec fn trips_view(s: Seq<(StatusKind, NodeLocation, Node)>) -> Seq<
    (StatusKind, LocationView, NodeView),
> {
    Seq::new(s.len(), |i: int| (s[i].0, s[i].1@, crate::node::node_view(s[i].2)))
}

/// The body entries an operation requests: the per-media-type entries of
/// its request body's `content`.
pub open spec fn op_body_entries(n: NodeView) -> Seq<(Seq<char>, NodeView)> {
    match get_field(n, request_body_key()) {
        Some(rb) => member_entries(rb, content_key()),
        _ => Seq::empty(),
    }
}

fn collect_param_pairs(
    cache: &NodeCache,
    base: &NodeLocation,
    node: &Node,
    out: &mut Vec<(NodeLocation, Node)>,
) -> (r: Result<(), DocumentError>)
    requires
        cache.wf(),
    ensures
        match deref_params(cache@, base@, param_items(node@), 0) {
            Ok(ps) => r is Ok && pairs_view(final(out)@) == pairs_view(old(out)@) + ps,
            Err(e) => r == Err::<(), DocumentError>(e),
        },
{
    proof {
        reveal_strlit("parameters");
        assert("parameters"@ =~= parameters_key());
    }
    let member = match node.get("parameters") {
        Some(m) => m,
        None => {
            proof {
                assert(param_items(node@) =~~= Seq::<NodeView>::empty());
                assert(pairs_view(out@) + Seq::<(LocationView, NodeView)>::empty() =~~= pairs_view(
                    out@,
                ));
            }
            return Ok(());
        },
    };
    let items = match crate::nodes30::array_items(member) {
        Some(v) => v,
        None => {
            proof {
                assert(param_items(node@) =~~= Seq::<NodeView>::empty());
                assert(pairs_view(out@) + Seq::<(LocationView, NodeView)>::empty() =~~= pairs_view(
                    out@,
                ));
            }
            return Ok(());
        },
    };
    let ghost iv = crate::node::items_view_from(items@, 0);
    proof {
        crate::node::lemma_items_view(items@, 0);
        assert(iv == param_items(node@));
    }
    let n = items.len();
    let mut i: usize = 0;
    proof {
        if let Ok(ps) = deref_params(cache@, base@, iv, 0) {
            assert(pairs_view(out@) + ps =~~= pairs_view(old(out)@) + ps);
        }
    }
    while i < n
        invariant
            i <= n,
            n == items@.len(),
            cache.wf(),
            iv == param_items(node@),
            iv.len() == n,
            forall|j: int| 0 <= j < n ==> iv[j] == crate::node::node_view(#[trigger] items@[j]),
            match deref_params(cache@, base@, iv, i as int) {
                Ok(ps) => deref_params(cache@, base@, iv, 0) matches Ok(all) && all == pairs_view(
                    out@,
                ).skip(pairs_view(old(out)@).len() as int) + ps,
                Err(e) => deref_params(cache@, base@, iv, 0) == Err::<
                    Seq<(LocationView, NodeView)>,
                    DocumentError,
                >(e),
            },
            pairs_view(out@).take(pairs_view(old(out)@).len() as int) == pairs_view(old(out)@),
            out@.len() >= old(out)@.len(),
        decreases n - i,
    {
        let mut pointer: Vec<String> = Vec::new();
        pointer.push("parameters".to_owned());
        pointer.push(crate::node::index_string(i));
        proof {
            reveal_strlit("parameters");
            assert("parameters"@ =~= parameters_key());
            assert(pointer.deep_view() =~~= seq![
                parameters_key(),
                crate::node::dec_str(i as nat),
            ]);
        }
        let loc = base.push_pointer(pointer);
        proof {
            assert(loc@ =~~= push_loc(
                base@,
                seq![parameters_key(), crate::node::dec_str(i as nat)],
            ));
        }
        match dereference(cache, &loc, &items[i]) {
            Ok(pair) => {
                let ghost pre = pairs_view(out@);
                let ghost pv = (pair.0@, crate::node::node_view(pair.1));
                out.push(pair);
                proof {
                    assert(pairs_view(out@) =~~= pre.push(pv));
                    let base_len = pairs_view(old(out)@).len() as int;
                    assert(pairs_view(out@).take(base_len) =~~= pre.take(base_len));
                    if let Ok(ps2) = deref_params(cache@, base@, iv, i + 1) {
                        assert(deref_params(cache@, base@, iv, i as int) == Ok::<
                            Seq<(LocationView, NodeView)>,
                            DocumentError,
                        >(seq![pv] + ps2));
                        assert(pre.skip(base_len) + (seq![pv] + ps2) =~~= pre.push(pv).skip(
                            base_len,
                        ) + ps2);
                    }
                }
            },
            Err(e) => {
                return Err(e);
            },
        }
        i += 1;
    }
    proof {
        assert(deref_params(cache@, base@, iv, n as int) == Ok::<
            Seq<(LocationView, NodeView)>,
            DocumentError,
        >(Seq::empty()));
        let base_len = pairs_view(old(out)@).len() as int;
        assert(pairs_view(out@) =~~= pairs_view(out@).take(base_len) + pairs_view(out@).skip(
            base_len,
        ));
        if let Ok(all) = deref_params(cache@, base@, iv, 0) {
            assert(pairs_view(out@).skip(base_len) + Seq::<(LocationView, NodeView)>::empty()
                =~~= pairs_view(out@).skip(base_len));
            assert(pairs_view(out@) =~~= pairs_view(old(out)@) + all);
        }
    }
    Ok(())
}

fn collect_bucket(all: &Vec<(NodeLocation, Node)>, val: &str) -> (r: Result<
    Vec<Parameter>,
    DocumentError,
>)
    ensures
        ({
            let b = bucket_spec(pairs_view(all@), val@, 0);
            match r {
                Ok(list) => bucket_ok(list@, b),
                Err(e) => e == DocumentError::Unknown && exists|j: int|
                    #![auto]
                    0 <= j < b.len() && text_field(b[j].1, name_key()) is None,
            }
        }),
{
    let ghost pv = pairs_view(all@);
    let n = all.len();
    let mut list: Vec<Parameter> = Vec::new();
    let mut i: usize = 0;
    proof {
        assert(bucket_ok(list@, Seq::empty()));
    }
    while i < n
        invariant
            i <= n,
            n == all@.len(),
            pv == pairs_view(all@),
            pv.len() == n,
            ({
                let done = bucket_spec(pv, val@, 0);
                let rest = bucket_spec(pv, val@, i as int);
                &&& done.len() >= rest.len()
                &&& done == done.take(done.len() - rest.len()) + rest
                &&& bucket_ok(list@, done.take(done.len() - rest.len()))
            }),
        decreases n - i,
    {
        let ghost done = bucket_spec(pv, val@, 0);
        let ghost rest = bucket_spec(pv, val@, i as int);
        let ghost entry = pv[i as int];
        proof {
            assert(entry == (all@[i as int].0@, crate::node::node_view(all@[i as int].1)));
        }
        let matched = match text_field_of(&all[i].1, "in") {
            Some(t) => crate::location::str_eq(t.as_str(), val),
            None => false,
        };
        proof {
            reveal_strlit("in");
            assert("in"@ =~= in_key());
        }
        if matched {
            proof {
                assert(text_field(entry.1, in_key()) == Some(val@));
                assert(bucket_spec(pv, val@, i as int) == seq![entry] + bucket_spec(
                    pv,
                    val@,
                    i + 1,
                ));
            }
            match make_parameter_model_request(&all[i].0, &all[i].1) {
                Ok(p) => {
                    let ghost pre = list@;
                    list.push(p);
                    proof {
                        let rest2 = bucket_spec(pv, val@, i + 1);
                        assert(done.take(done.len() - rest2.len()) =~~= done.take(
                            done.len() - rest.len(),
                        ).push(entry));
                        assert(bucket_ok(list@, done.take(done.len() - rest2.len())));
                    }
                },
                Err(_) => {
                    proof {
                        let k = done.len() - rest.len();
                        assert(done[k] == entry);
                        assert(text_field(entry.1, name_key()) is None);
                    }
                    return Err(DocumentError::Unknown);
                },
            }
        } else {
            proof {
                assert(text_field(entry.1, in_key()) != Some(val@));
                assert(bucket_spec(pv, val@, i as int) == bucket_spec(pv, val@, i + 1));
            }
        }
        i += 1;
    }
    proof {
        let done = bucket_spec(pv, val@, 0);
        assert(bucket_spec(pv, val@, n as int) =~~= Seq::<(LocationView, NodeView)>::empty());
        assert(done.take(done.len() as int) =~~= done);
    }
    Ok(list)
}

fn collect_response_triples(cache: &NodeCache, oloc: &NodeLocation, op_node: &Node) -> (r: Result<
    Vec<(StatusKind, NodeLocation, Node)>,
    DocumentError,
>)
    requires
        cache.wf(),
    ensures
        ({
            let resp = member_entries(op_node@, responses_key());
            match responses_spec(cache@, oloc@, resp, 0) {
                Ok(ts) => r matches Ok(v) && trips_view(v@) == ts && (forall|j: int|
                    0 <= j < v@.len() ==> crate::status::kind_wf((#[trigger] v@[j]).0)),
                Err(e) => r == Err::<Vec<(StatusKind, NodeLocation, Node)>, DocumentError>(e),
            }
        }),
{
    proof {
        reveal_strlit("responses");
        assert("responses"@ =~= responses_key());
    }
    let ghost resp = member_entries(op_node@, responses_key());
    let mut out: Vec<(StatusKind, NodeLocation, Node)> = Vec::new();
    let member = match op_node.get("responses") {
        Some(m) => m,
        None => {
            proof {
                assert(resp =~~= Seq::<(Seq<char>, NodeView)>::empty());
                assert(trips_view(out@) =~~= Seq::<(StatusKind, LocationView, NodeView)>::empty());
            }
            return Ok(out);
        },
    };
    let entries = match crate::nodes30::object_entries(member) {
        Some(e) => e,
        None => {
            proof {
                assert(resp =~~= Seq::<(Seq<char>, NodeView)>::empty());
                assert(trips_view(out@) =~~= Seq::<(StatusKind, LocationView, NodeView)>::empty());
            }
            return Ok(out);
        },
    };
    proof {
        crate::node::lemma_entries_view(entries@, 0);
        assert(resp == crate::node::entries_view_from(entries@, 0));
    }
    let n = entries.len();
    let mut i: usize = 0;
    proof {
        if let Ok(ts) = responses_spec(cache@, oloc@, resp, 0) {
            assert(trips_view(out@) + ts =~~= ts);
        }
    }
    while i < n
        invariant
            i <= n,
            n == entries@.len(),
            cache.wf(),
            resp == member_entries(op_node@, responses_key()),
            resp.len() == n,
            forall|j: int|
                0 <= j < n ==> resp[j] == ((#[trigger] entries@[j]).0@, crate::node::node_view(
                    entries@[j].1,
                )),
            forall|j: int| 0 <= j < out@.len() ==> crate::status::kind_wf((#[trigger] out@[j]).0),
            match responses_spec(cache@, oloc@, resp, i as int) {
                Ok(ts) => responses_spec(cache@, oloc@, resp, 0) matches Ok(all) && all
                    == trips_view(out@) + ts,
                Err(e) => responses_spec(cache@, oloc@, resp, 0) == Err::<
                    Seq<(StatusKind, LocationView, NodeView)>,
                    DocumentError,
                >(e),
            },
        decreases n - i,
    {
        let kind = match StatusKind::parse(entries[i].0.as_str()) {
            Ok(k) => k,
            Err(_) => {
                return Err(DocumentError::ParseStatusKindFailed);
            },
        };
        let rloc = oloc.push_pointer(seg_pair("responses", &entries[i].0));
        proof {
            reveal_strlit("responses");
            assert("responses"@ =~= responses_key());
            assert(rloc@ =~~= push_loc(oloc@, seq![responses_key(), resp[i as int].0]));
        }
        match dereference(cache, &rloc, &entries[i].1) {
            Ok(pair) => {
                let ghost pre = trips_view(out@);
                let ghost tv = (kind, pair.0@, crate::node::node_view(pair.1));
                out.push((kind, pair.0, pair.1));
                proof {
                    assert(trips_view(out@) =~~= pre.push(tv));
                    if let Ok(ts2) = responses_spec(cache@, oloc@, resp, i + 1) {
                        assert(responses_spec(cache@, oloc@, resp, i as int) == Ok::<
                            Seq<(StatusKind, LocationView, NodeView)>,
                            DocumentError,
                        >(seq![tv] + ts2));
                        assert(pre + (seq![tv] + ts2) =~~= pre.push(tv) + ts2);
                    }
                }
            },
            Err(e) => {
                return Err(e);
            },
        }
        i += 1;
    }
    proof {
        assert(responses_spec(cache@, oloc@, resp, n as int) == Ok::<
            Seq<(StatusKind, LocationView, NodeView)>,
            DocumentError,
        >(Seq::empty()));
        if let Ok(all) = responses_spec(cache@, oloc@, resp, 0) {
            assert(trips_view(out@) + Seq::<(StatusKind, LocationView, NodeView)>::empty()
                =~~= trips_view(out@));
        }
    }
    Ok(out)
}

fn rank_exec(k: &StatusKind) -> (r: usize)
    ensures
        r == rank_of(*k),
{
    match k {
        StatusKind::Code(_) => 0,
        StatusKind::Class(_) => 1,
        StatusKind::Default => 2,
    }
}

fn keep_rank_pass(
    ts: &Vec<(StatusKind, NodeLocation, Node)>,
    rank: usize,
    out: &mut Vec<(StatusKind, NodeLocation, Node)>,
)
    requires
        forall|j: int| 0 <= j < ts@.len() ==> crate::status::kind_wf((#[trigger] ts@[j]).0),
    ensures
        trips_view(final(out)@) == trips_view(old(out)@) + keep_rank(trips_view(ts@), rank as int, 0),
        forall|j: int|
            old(out)@.len() <= j < final(out)@.len() ==> crate::status::kind_wf(
                (#[trigger] final(out)@[j]).0,
            ),
        forall|j: int| 0 <= j < old(out)@.len() ==> final(out)@[j] == old(out)@[j],
{
    let ghost tv = trips_view(ts@);
    let n = ts.len();
    let mut i: usize = 0;
    proof {
        assert(trips_view(out@) + keep_rank(tv, rank as int, 0) =~~= trips_view(old(out)@)
            + keep_rank(tv, rank as int, 0));
    }
    while i < n
        invariant
            i <= n,
            n == ts@.len(),
            tv == trips_view(ts@),
            tv.len() == n,
            forall|j: int| 0 <= j < n ==> crate::status::kind_wf((#[trigger] ts@[j]).0),
            out@.len() >= old(out)@.len(),
            forall|j: int| 0 <= j < old(out)@.len() ==> out@[j] == old(out)@[j],
            forall|j: int|
                old(out)@.len() <= j < out@.len() ==> crate::status::kind_wf(
                    (#[trigger] out@[j]).0,
                ),
            trips_view(old(out)@) + keep_rank(tv, rank as int, 0) == trips_view(out@) + keep_rank(
                tv,
                rank as int,
                i as int,
            ),
        decreases n - i,
    {
        proof {
            assert(tv[i as int] == (ts@[i as int].0, ts@[i as int].1@, crate::node::node_view(
                ts@[i as int].2,
            )));
        }
        if rank_exec(&ts[i].0) == rank {
            let ghost pre = trips_view(out@);
            out.push((ts[i].0, ts[i].1.clone(), ts[i].2.clone()));
            proof {
                assert(trips_view(out@) =~~= pre.push(tv[i as int]));
                assert(keep_rank(tv, rank as int, i as int) == seq![tv[i as int]] + keep_rank(
                    tv,
                    rank as int,
                    i + 1,
                ));
                assert(pre + (seq![tv[i as int]] + keep_rank(tv, rank as int, i + 1)) =~~= pre.push(
                    tv[i as int],
                ) + keep_rank(tv, rank as int, i + 1));
                assert(crate::status::kind_wf(out@[out@.len() - 1].0) == crate::status::kind_wf(
                    ts@[i as int].0,
                ));
            }
        } else {
            proof {
                assert(keep_rank(tv, rank as int, i as int) == keep_rank(tv, rank as int, i + 1));
            }
        }
        i += 1;
    }
    proof {
        assert(keep_rank(tv, rank as int, n as int) =~~= Seq::<
            (StatusKind, LocationView, NodeView),
        >::empty());
        assert(trips_view(out@) + Seq::<(StatusKind, LocationView, NodeView)>::empty()
            =~~= trips_view(out@));
    }
}

fn sort_triples(ts: &Vec<(StatusKind, NodeLocation, Node)>) -> (r: Vec<
    (StatusKind, NodeLocation, Node),
>)
    requires
        forall|j: int| 0 <= j < ts@.len() ==> crate::status::kind_wf((#[trigger] ts@[j]).0),
    ensures
        trips_view(r@) == process_order(trips_view(ts@)),
        forall|j: int| 0 <= j < r@.len() ==> crate::status::kind_wf((#[trigger] r@[j]).0),
{
    let mut out: Vec<(StatusKind, NodeLocation, Node)> = Vec::new();
    keep_rank_pass(ts, 0, &mut out);
    keep_rank_pass(ts, 1, &mut out);
    keep_rank_pass(ts, 2, &mut out);
    proof {
        let tv = trips_view(ts@);
        assert(trips_view(out@) =~~= (keep_rank(tv, 0, 0) + keep_rank(tv, 1, 0)) + keep_rank(
            tv,
            2,
            0,
        ));
        assert((keep_rank(tv, 0, 0) + keep_rank(tv, 1, 0)) + keep_rank(tv, 2, 0) =~~= keep_rank(
            tv,
            0,
            0,
        ) + keep_rank(tv, 1, 0) + keep_rank(tv, 2, 0));
    }
    out
}

fn collect_op_bodies(oloc: &NodeLocation, op_node: &Node) -> (r: Vec<Body>)
    ensures
        ({
            let bods = op_body_entries(op_node@);
            &&& r@.len() == bods.len()
            &&& forall|j: int|
                0 <= j < bods.len() ==> body_matches(
                    r@[j],
                    push_loc(
                        oloc@,
                        seq![request_body_key(), content_key(), (#[trigger] bods[j]).0],
                    ),
                    bods[j].0,
                    bods[j].1,
                )
        }),
{
    proof {
        reveal_strlit("requestBody");
        reveal_strlit("content");
        assert("requestBody"@ =~= request_body_key());
        assert("content"@ =~= content_key());
    }
    let ghost bods = op_body_entries(op_node@);
    let mut out: Vec<Body> = Vec::new();
    let rb = match op_node.get("requestBody") {
        Some(m) => m,
        None => {
            proof {
                assert(bods =~~= Seq::<(Seq<char>, NodeView)>::empty());
            }
            return out;
        },
    };
    let content = match rb.get("content") {
        Some(m) => m,
        None => {
            proof {
                assert(bods =~~= Seq::<(Seq<char>, NodeView)>::empty());
            }
            return out;
        },
    };
    let entries = match crate::nodes30::object_entries(content) {
        Some(e) => e,
        None => {
            proof {
                assert(bods =~~= Seq::<(Seq<char>, NodeView)>::empty());
            }
            return out;
        },
    };
    proof {
        crate::node::lemma_entries_view(entries@, 0);
        assert(bods == crate::node::entries_view_from(entries@, 0));
    }
    let n = entries.len();
    let mut i: usize = 0;
    while i < n
        invariant
            i <= n,
            n == entries@.len(),
            bods == op_body_entries(op_node@),
            bods.len() == n,
            forall|j: int|
                0 <= j < n ==> bods[j] == ((#[trigger] entries@[j]).0@, crate::node::node_view(
                    entries@[j].1,
                )),
            out@.len() == i,
            forall|j: int|
                0 <= j < i ==> body_matches(
                    out@[j],
                    push_loc(
                        oloc@,
                        seq![request_body_key(), content_key(), (#[trigger] bods[j]).0],
                    ),
                    bods[j].0,
                    bods[j].1,
                ),
        decreases n - i,
    {
        let content_type = entries[i].0.clone();
        let mut pointer: Vec<String> = Vec::new();
        pointer.push("requestBody".to_owned());
        pointer.push("content".to_owned());
        pointer.push(entries[i].0.clone());
        proof {
            reveal_strlit("requestBody");
            reveal_strlit("content");
            assert("requestBody"@ =~= request_body_key());
            assert("content"@ =~= content_key());
            assert(pointer.deep_view() =~~= seq![
                request_body_key(),
                content_key(),
                bods[i as int].0,
            ]);
        }
        let bloc = oloc.push_pointer(pointer);
        proof {
            assert(bloc@ =~~= push_loc(
                oloc@,
                seq![request_body_key(), content_key(), bods[i as int].0],
            ));
        }
        let b = make_body_model(&bloc, &entries[i].1, content_type);
        out.push(b);
        i += 1;
    }
    out
}

/// A query value of the `in` field.
pub open spec fn query_text() -> Seq<char> {
    seq!['q', 'u', 'e', 'r', 'y']
}

pub open spec fn header_text() -> Seq<char> {
    seq!['h', 'e', 'a', 'd', 'e', 'r']
}

pub open spec fn path_text() -> Seq<char> {
    seq!['p', 'a', 't', 'h']
}

pub open spec fn cookie_text() -> Seq<char> {
    seq!['c', 'o', 'o', 'k', 'i', 'e']
}

/// Why compiling an operation can fail: no operation id, a failing
/// parameter dereference, a parameter without a name, an unreadable or
/// unresolvable response, or a response header that cannot be
/// dereferenced.
/// The dereference of one response header of a response node at `rloc`.
pub open spec fn header_deref(
    cache: Map<LocationView, NodeView>,
    rloc: LocationView,
    rnode: NodeView,
    h: int,
) -> Result<(LocationView, NodeView), DocumentError> {
    let hdrs = member_entries(rnode, headers_key());
    deref_spec(cache, push_loc(rloc, seq![headers_key(), hdrs[h].0]), hdrs[h].1)
}

pub open spec fn op_compile_fails(
    cache: Map<LocationView, NodeView>,
    api: NodeView,
    ploc: LocationView,
    pnode: NodeView,
    oloc: LocationView,
    onode: NodeView,
) -> bool {
    let ps = all_params_spec(cache, ploc, pnode, oloc, onode);
    let trips = responses_spec(cache, oloc, member_entries(onode, responses_key()), 0);
    ||| text_field(onode, operation_id_key()) is None
    ||| ps is Err
    ||| trips is Err
    ||| (ps matches Ok(pairs) && (bucket_missing_name(pairs, query_text())
        || bucket_missing_name(pairs, header_text()) || bucket_missing_name(pairs, path_text())
        || bucket_missing_name(pairs, cookie_text())))
    ||| (trips matches Ok(ts) && exists|j: int, h: int|
        #![trigger header_deref(cache, process_order(ts)[j].1, process_order(ts)[j].2, h)]
        0 <= j < process_order(ts).len() && 0 <= h < member_entries(
            process_order(ts)[j].2,
            headers_key(),
        ).len() && header_deref(cache, process_order(ts)[j].1, process_order(ts)[j].2, h) is Err)
}

/// Some parameter of the bucket declares no name, so the bucket cannot
/// be compiled.
pub open spec fn bucket_missing_name(pairs: Seq<(LocationView, NodeView)>, v: Seq<char>) -> bool {
    exists|j: int|
        #![auto]
        0 <= j < bucket_spec(pairs, v, 0).len() && text_field(
            bucket_spec(pairs, v, 0)[j].1,
            name_key(),
        ) is None
}

/// A compiled operation agrees with its nodes: name, metadata, security,
/// the four parameter buckets, the request bodies, and one result per
/// response, each result exact down to the codes it claims from the pool
/// as it stands when that result's turn comes in specificity order.
pub open spec fn op_model_matches(
    cache: Map<LocationView, NodeView>,
    api: NodeView,
    ploc: LocationView,
    pnode: NodeView,
    oloc: LocationView,
    onode: NodeView,
    method: crate::method::Method,
    op: crate::model::Operation,
) -> bool {
    let ps = all_params_spec(cache, ploc, pnode, oloc, onode);
    let trips = responses_spec(cache, oloc, member_entries(onode, responses_key()), 0);
    &&& text_field(onode, operation_id_key()) matches Some(nm) && op.name@ == nm
    &&& op.location@ == oloc
    &&& op.method == method
    &&& (match text_field(onode, summary_key()) {
        Some(t) => op.summary matches Some(s) && s@ == t,
        None => op.summary is None,
    })
    &&& (match text_field(onode, description_key()) {
        Some(t) => op.description matches Some(s) && s@ == t,
        None => op.description is None,
    })
    &&& op.deprecated == deprecated_spec(onode)
    &&& groups_match(op.authentication_requirements@, effective_security(onode, api))
    &&& ps matches Ok(pairs) && {
        &&& bucket_ok(op.query_parameters@, bucket_spec(pairs, query_text(), 0))
        &&& bucket_ok(op.header_parameters@, bucket_spec(pairs, header_text(), 0))
        &&& bucket_ok(op.path_parameters@, bucket_spec(pairs, path_text(), 0))
        &&& bucket_ok(op.cookie_parameters@, bucket_spec(pairs, cookie_text(), 0))
    }
    &&& op.bodies@.len() == op_body_entries(onode).len()
    &&& (forall|j: int|
        0 <= j < op_body_entries(onode).len() ==> body_matches(
            op.bodies@[j],
            push_loc(
                oloc,
                seq![request_body_key(), content_key(), (#[trigger] op_body_entries(onode)[j]).0],
            ),
            op_body_entries(onode)[j].0,
            op_body_entries(onode)[j].1,
        ))
    &&& trips matches Ok(ts) && ({
        let sorted = process_order(ts);
        let kinds = kinds_of(sorted);
        &&& op.operation_results@.len() == sorted.len()
        &&& (forall|j: int|
            0 <= j < sorted.len() ==> result_model_matches(
                cache,
                sorted[j].1,
                sorted[j].2,
                sorted[j].0,
                avail_steps(crate::status::full_avail(), kinds, j),
                #[trigger] op.operation_results@[j],
            ))
    })
}

/// Compiles one operation of a path item. The parameters visible to the
/// operation are the path item's list followed by the operation's own,
/// dereferenced and partitioned by their `in` field in document order.
/// The responses claim their status codes in specificity order: code
/// responses first, then class responses, then `default`, whatever order
/// the document declared them in.
#[verifier::rlimit(80)]
pub fn make_operation_model(
    cache: &NodeCache,
    api_node: &Node,
    path_location: &NodeLocation,
    path_node: &Node,
    operation_location: &NodeLocation,
    operation_node: &Node,
    method: crate::method::Method,
) -> (r: Result<crate::model::Operation, DocumentError>)
    requires
        cache.wf(),
    ensures
        match r {
            Ok(op) => op_model_matches(
                cache@,
                api_node@,
                path_location@,
                path_node@,
                operation_location@,
                operation_node@,
                method,
                op,
            ),
            Err(_) => op_compile_fails(
                cache@,
                api_node@,
                path_location@,
                path_node@,
                operation_location@,
                operation_node@,
            ),
        },
        r is Ok ==> !op_compile_fails(
            cache@,
            api_node@,
            path_location@,
            path_node@,
            operation_location@,
            operation_node@,
        ),
{
    proof {
        reveal_strlit("operationId");
        reveal_strlit("summary");
        reveal_strlit("description");
        reveal_strlit("deprecated");
        reveal_strlit("query");
        reveal_strlit("header");
        reveal_strlit("path");
        reveal_strlit("cookie");
        assert("operationId"@ =~= operation_id_key());
        assert("summary"@ =~= summary_key());
        assert("description"@ =~= description_key());
        assert("deprecated"@ =~= seq!['d', 'e', 'p', 'r', 'e', 'c', 'a', 't', 'e', 'd']);
        assert("query"@ =~= query_text());
        assert("header"@ =~= header_text());
        assert("path"@ =~= path_text());
        assert("cookie"@ =~= cookie_text());
    }
    let name = match text_field_of(operation_node, "operationId") {
        Some(n) => n,
        None => {
            return Err(DocumentError::Unknown);
        },
    };
    let summary = text_field_of(operation_node, "summary");
    let description = text_field_of(operation_node, "description");
    let deprecated = match operation_node.get("deprecated") {
        Some(member) => match member.as_bool() {
            Some(b) => b,
            None => false,
        },
        None => false,
    };
    let authentication_requirements = make_authentication_requirements(operation_node, api_node);

    let mut all_params: Vec<(NodeLocation, Node)> = Vec::new();
    match collect_param_pairs(cache, path_location, path_node, &mut all_params) {
        Ok(()) => {},
        Err(e) => {
            return Err(e);
        },
    }
    match collect_param_pairs(cache, operation_location, operation_node, &mut all_params) {
        Ok(()) => {},
        Err(e) => {
            return Err(e);
        },
    }
    proof {
        if let Ok(a) = deref_params(cache@, path_location@, param_items(path_node@), 0) {
            if let Ok(b) = deref_params(
                cache@,
                operation_location@,
                param_items(operation_node@),
                0,
            ) {
                assert(pairs_view(all_params@) =~~= a + b);
            }
        }
    }
    let query_parameters = match collect_bucket(&all_params, "query") {
        Ok(v) => v,
        Err(e) => {
            proof {
                assert("query"@ == query_text());
                assert(bucket_missing_name(pairs_view(all_params@), query_text()));
            }
            return Err(e);
        },
    };
    let header_parameters = match collect_bucket(&all_params, "header") {
        Ok(v) => v,
        Err(e) => {
            proof {
                assert("header"@ == header_text());
                assert(bucket_missing_name(pairs_view(all_params@), header_text()));
            }
            return Err(e);
        },
    };
    let path_parameters = match collect_bucket(&all_params, "path") {
        Ok(v) => v,
        Err(e) => {
            proof {
                assert("path"@ == path_text());
                assert(bucket_missing_name(pairs_view(all_params@), path_text()));
            }
            return Err(e);
        },
    };
    let cookie_parameters = match collect_bucket(&all_params, "cookie") {
        Ok(v) => v,
        Err(e) => {
            proof {
                assert("cookie"@ == cookie_text());
                assert(bucket_missing_name(pairs_view(all_params@), cookie_text()));
            }
            return Err(e);
        },
    };
    let bodies = collect_op_bodies(operation_location, operation_node);

    let triples = match collect_response_triples(cache, operation_location, operation_node) {
        Ok(t) => t,
        Err(e) => {
            return Err(e);
        },
    };
    let sorted = sort_triples(&triples);
    let ghost sortedv = trips_view(sorted@);
    let ghost kinds = kinds_of(sortedv);
    let mut available: Vec<bool> = vec![true; 500];
    proof {
        assert(available@ =~= crate::status::full_avail());
        assert(avail_steps(crate::status::full_avail(), kinds, 0) == crate::status::full_avail());
    }
    let m = sorted.len();
    let mut operation_results: Vec<crate::model::OperationResult> = Vec::new();
    let mut j: usize = 0;
    while j < m
        invariant
            j <= m,
            m == sorted@.len(),
            cache.wf(),
            sortedv == trips_view(sorted@),
            sortedv.len() == m,
            kinds == kinds_of(sortedv),
            kinds.len() == m,
            responses_spec(
                cache@,
                operation_location@,
                member_entries(operation_node@, responses_key()),
                0,
            ) is Ok,
            sortedv == process_order(
                responses_spec(
                    cache@,
                    operation_location@,
                    member_entries(operation_node@, responses_key()),
                    0,
                )->Ok_0,
            ),
            forall|t: int| 0 <= t < m ==> crate::status::kind_wf((#[trigger] sorted@[t]).0),
            forall|t: int| 0 <= t < m ==> kinds[t] == (#[trigger] sorted@[t]).0,
            crate::status::avail_wf(available@),
            available@ == avail_steps(crate::status::full_avail(), kinds, j as int),
            operation_results@.len() == j,
            forall|t: int|
                0 <= t < j ==> result_model_matches(
                    cache@,
                    sortedv[t].1,
                    sortedv[t].2,
                    sortedv[t].0,
                    avail_steps(crate::status::full_avail(), kinds, t),
                    #[trigger] operation_results@[t],
                ),
            forall|t: int, h: int|
                #![trigger header_deref(cache@, sortedv[t].1, sortedv[t].2, h)]
                0 <= t < j && 0 <= h < member_entries(sortedv[t].2, headers_key()).len()
                    ==> header_deref(cache@, sortedv[t].1, sortedv[t].2, h) is Ok,
        decreases m - j,
    {
        let ghost avail_pre = available@;
        let kind = sorted[j].0;
        proof {
            assert(sortedv[j as int] == (sorted@[j as int].0, sorted@[j as int].1@,
            crate::node::node_view(sorted@[j as int].2)));
        }
        match make_operation_result_model(cache, &sorted[j].1, &sorted[j].2, kind, &mut available)
        {
            Ok(res) => {
                operation_results.push(res);
                proof {
                    lemma_avail_steps_snoc(crate::status::full_avail(), kinds, j as int);
                    lemma_alloc_index(crate::status::full_avail(), kinds, j as int);
                    let hdrs = member_entries(sortedv[j as int].2, headers_key());
                    assert forall|h: int|
                        0 <= h < hdrs.len() implies #[trigger] header_deref(
                        cache@,
                        sortedv[j as int].1,
                        sortedv[j as int].2,
                        h,
                    ) is Ok by {
                        assert(deref_spec(
                            cache@,
                            push_loc(sortedv[j as int].1, seq![headers_key(), hdrs[h].0]),
                            hdrs[h].1,
                        ) is Ok);
                    }
                }
            },
            Err(e) => {
                proof {
                    let hdrs = member_entries(crate::node::node_view(sorted@[j as int].2),
                    headers_key());
                    assert(exists|h: int|
                        #![auto]
                        0 <= h < hdrs.len() && deref_spec(
                            cache@,
                            push_loc(sorted@[j as int].1@, seq![headers_key(), hdrs[h].0]),
                            hdrs[h].1,
                        ) is Err);
                    let h = choose|h: int|
                        #![auto]
                        0 <= h < hdrs.len() && deref_spec(
                            cache@,
                            push_loc(sorted@[j as int].1@, seq![headers_key(), hdrs[h].0]),
                            hdrs[h].1,
                        ) is Err;
                    let ts = responses_spec(
                        cache@,
                        operation_location@,
                        member_entries(operation_node@, responses_key()),
                        0,
                    )->Ok_0;
                    assert(process_order(ts)[j as int] == sortedv[j as int]);
                    assert(header_deref(cache@, sortedv[j as int].1, sortedv[j as int].2, h)
                        is Err);
                    assert(0 <= j < process_order(ts).len() && 0 <= h < member_entries(
                        sortedv[j as int].2,
                        headers_key(),
                    ).len() && header_deref(
                        cache@,
                        process_order(ts)[j as int].1,
                        process_order(ts)[j as int].2,
                        h,
                    ) is Err);
                }
                return Err(e);
            },
        }
        j += 1;
    }
    proof {
        let pairs = pairs_view(all_params@);
        let ts = responses_spec(
            cache@,
            operation_location@,
            member_entries(operation_node@, responses_key()),
            0,
        )->Ok_0;
        assert(!bucket_missing_name(pairs, query_text())) by {
            if bucket_missing_name(pairs, query_text()) {
                let b = bucket_spec(pairs, query_text(), 0);
                let jq = choose|jq: int|
                    #![auto]
                    0 <= jq < b.len() && text_field(b[jq].1, name_key()) is None;
                assert(bucket_ok(query_parameters@, b));
            }
        }
        assert(!bucket_missing_name(pairs, header_text())) by {
            if bucket_missing_name(pairs, header_text()) {
                let b = bucket_spec(pairs, header_text(), 0);
                let jq = choose|jq: int|
                    #![auto]
                    0 <= jq < b.len() && text_field(b[jq].1, name_key()) is None;
                assert(bucket_ok(header_parameters@, b));
            }
        }
        assert(!bucket_missing_name(pairs, path_text())) by {
            if bucket_missing_name(pairs, path_text()) {
                let b = bucket_spec(pairs, path_text(), 0);
                let jq = choose|jq: int|
                    #![auto]
                    0 <= jq < b.len() && text_field(b[jq].1, name_key()) is None;
                assert(bucket_ok(path_parameters@, b));
            }
        }
        assert(!bucket_missing_name(pairs, cookie_text())) by {
            if bucket_missing_name(pairs, cookie_text()) {
                let b = bucket_spec(pairs, cookie_text(), 0);
                let jq = choose|jq: int|
                    #![auto]
                    0 <= jq < b.len() && text_field(b[jq].1, name_key()) is None;
                assert(bucket_ok(cookie_parameters@, b));
            }
        }
        assert(!(exists|t: int, h: int|
            #![trigger header_deref(cache@, process_order(ts)[t].1, process_order(ts)[t].2, h)]
            0 <= t < process_order(ts).len() && 0 <= h < member_entries(
                process_order(ts)[t].2,
                headers_key(),
            ).len() && header_deref(cache@, process_order(ts)[t].1, process_order(ts)[t].2, h)
                is Err)) by {
            if exists|t: int, h: int|
                #![trigger header_deref(cache@, process_order(ts)[t].1, process_order(ts)[t].2, h)]
                0 <= t < process_order(ts).len() && 0 <= h < member_entries(
                    process_order(ts)[t].2,
                    headers_key(),
                ).len() && header_deref(cache@, process_order(ts)[t].1, process_order(ts)[t].2, h)
                    is Err {
                let (t, h) = choose|t: int, h: int|
                    #![trigger header_deref(cache@, process_order(ts)[t].1, process_order(ts)[t].2, h)]
                    0 <= t < process_order(ts).len() && 0 <= h < member_entries(
                        process_order(ts)[t].2,
                        headers_key(),
                    ).len() && header_deref(
                        cache@,
                        process_order(ts)[t].1,
                        process_order(ts)[t].2,
                        h,
                    ) is Err;
                assert(process_order(ts)[t] == sortedv[t]);
                assert(header_deref(cache@, sortedv[t].1, sortedv[t].2, h) is Ok);
            }
        }
    }
    Ok(
        crate::model::Operation {
            location: operation_location.clone(),
            method,
            name,
            summary,
            description,
            deprecated,
            authentication_requirements,
            query_parameters,
            header_parameters,
            path_parameters,
            cookie_parameters,
            bodies,
            operation_results,
        },
    )
}

/// Status-code disjointness, on the classic shape: an operation whose
/// responses are `201`, `2XX` and `default`, processed in that order,
/// attributes exactly `{201}` to the code response, `{200..299}` less
/// `201` to the class response, and everything else in `{100..599}` to
/// `default`; the three sets are pairwise disjoint and cover the whole
/// range (pairwise disjointness and coverage in general are
/// `lemma_allocation_disjoint` and `lemma_allocation_complete`).
pub proof fn lemma_status_allocation_example()
    ensures
        ({
            let kinds = seq![
                StatusKind::Code(201),
                StatusKind::Class(2),
                StatusKind::Default,
            ];
            let alloc = crate::status::alloc_seq(crate::status::full_avail(), kinds);
            &&& alloc.len() == 3
            &&& (forall|c: int| alloc[0].contains(c) <==> c == 201)
            &&& (forall|c: int| alloc[1].contains(c) <==> (200 <= c < 300 && c != 201))
            &&& (forall|c: int| alloc[2].contains(c) <==> (100 <= c < 600 && !(200 <= c < 300)))
        }),
{
    let kinds = seq![StatusKind::Code(201), StatusKind::Class(2), StatusKind::Default];
    let full = crate::status::full_avail();
    crate::status::lemma_alloc_len(full, kinds);
    lemma_alloc_index(full, kinds, 0);
    lemma_alloc_index(full, kinds, 1);
    lemma_alloc_index(full, kinds, 2);
    let s0 = avail_steps(full, kinds, 0);
    let s1 = avail_steps(full, kinds, 1);
    let s2 = avail_steps(full, kinds, 2);
    lemma_avail_steps_snoc(full, kinds, 0);
    lemma_avail_steps_snoc(full, kinds, 1);
    assert(s0 == full);
    assert forall|c: int| 100 <= c < 600 implies #[trigger] s1[c - 100] == (c != 201) by {}
    assert forall|c: int| 100 <= c < 600 implies #[trigger] s2[c - 100] == (!(200 <= c < 300) && c
        != 201) by {}
    assert forall|c: int| true implies (crate::status::alloc_seq(full, kinds)[0].contains(c) <==> c
        == 201) by {
        crate::status::lemma_claimed_mem(s0, kinds[0], 100, c);
    }
    assert forall|c: int| true implies (crate::status::alloc_seq(full, kinds)[1].contains(c) <==> (
    200 <= c < 300 && c != 201)) by {
        crate::status::lemma_claimed_mem(s1, kinds[1], 100, c);
    }
    assert forall|c: int| true implies (crate::status::alloc_seq(full, kinds)[2].contains(c) <==> (
    100 <= c < 600 && !(200 <= c < 300))) by {
        crate::status::lemma_claimed_mem(s2, kinds[2], 100, c);
        if 200 <= c < 300 && c != 201 {
            assert(!s2[c - 100]);
        }
    }
}

/// Status-code specificity: whatever order the document declares the
/// responses `default`, `4XX` and `404` in, the engine processes the code
/// response first, then the class, then `default`; `404` still receives
/// exactly `{404}` and `4XX` receives `{400..499}` less `404`.
pub proof fn lemma_status_specificity(
    ts: Seq<(StatusKind, LocationView, NodeView)>,
    a: int,
    b: int,
    c: int,
)
    requires
        ts.len() == 3,
        0 <= a < 3,
        0 <= b < 3,
        0 <= c < 3,
        a != b,
        a != c,
        b != c,
        ts[a].0 == StatusKind::Code(404),
        ts[b].0 == StatusKind::Class(4),
        ts[c].0 == StatusKind::Default,
    ensures
        process_order(ts) == seq![ts[a], ts[b], ts[c]],
        ({
            let kinds = kinds_of(process_order(ts));
            let alloc = crate::status::alloc_seq(crate::status::full_avail(), kinds);
            &&& kinds == seq![StatusKind::Code(404), StatusKind::Class(4), StatusKind::Default]
            &&& (forall|x: int| alloc[0].contains(x) <==> x == 404)
            &&& (forall|x: int| alloc[1].contains(x) <==> (400 <= x < 500 && x != 404))
            &&& (forall|x: int| alloc[2].contains(x) <==> (100 <= x < 600 && !(400 <= x < 500)))
        }),
{
    reveal_with_fuel(keep_rank, 5);
    assert(rank_of(ts[a].0) == 0);
    assert(rank_of(ts[b].0) == 1);
    assert(rank_of(ts[c].0) == 2);
    assert(keep_rank(ts, 0, 0) =~= seq![ts[a]]);
    assert(keep_rank(ts, 1, 0) =~= seq![ts[b]]);
    assert(keep_rank(ts, 2, 0) =~= seq![ts[c]]);
    assert(process_order(ts) =~= seq![ts[a], ts[b], ts[c]]);
    let kinds = kinds_of(process_order(ts));
    assert(kinds =~= seq![StatusKind::Code(404), StatusKind::Class(4), StatusKind::Default]);
    let full = crate::status::full_avail();
    crate::status::lemma_alloc_len(full, kinds);
    lemma_alloc_index(full, kinds, 0);
    lemma_alloc_index(full, kinds, 1);
    lemma_alloc_index(full, kinds, 2);
    let s0 = avail_steps(full, kinds, 0);
    let s1 = avail_steps(full, kinds, 1);
    let s2 = avail_steps(full, kinds, 2);
    lemma_avail_steps_snoc(full, kinds, 0);
    lemma_avail_steps_snoc(full, kinds, 1);
    assert(s0 == full);
    assert forall|x: int| 100 <= x < 600 implies #[trigger] s1[x - 100] == (x != 404) by {}
    assert forall|x: int| 100 <= x < 600 implies #[trigger] s2[x - 100] == (!(400 <= x < 500) && x
        != 404) by {}
    assert forall|x: int| true implies (crate::status::alloc_seq(full, kinds)[0].contains(x) <==> x
        == 404) by {
        crate::status::lemma_claimed_mem(s0, kinds[0], 100, x);
    }
    assert forall|x: int| true implies (crate::status::alloc_seq(full, kinds)[1].contains(x) <==> (
    400 <= x < 500 && x != 404)) by {
        crate::status::lemma_claimed_mem(s1, kinds[1], 100, x);
    }
    assert forall|x: int| true implies (crate::status::alloc_seq(full, kinds)[2].contains(x) <==> (
    100 <= x < 600 && !(400 <= x < 500))) by {
        crate::status::lemma_claimed_mem(s2, kinds[2], 100, x);
        if 400 <= x < 500 && x != 404 {
            assert(!s2[x - 100]);
        }
    }
}

/// The operation entries of a path item: the members whose key is an
/// HTTP method name, with the parsed method.
pub open spec fn method_entries(entries: Seq<(Seq<char>, NodeView)>, k: int) -> Seq<
    (crate::method::Method, Seq<char>, NodeView),
>
    decreases entries.len() - k,
{
    if k < 0 || k >= entries.len() {
        Seq::empty()
    } else {
        match crate::method::parse_method(entries[k].0) {
            Some(m) => seq![(m, entries[k].0, entries[k].1)] + method_entries(entries, k + 1),
            None => method_entries(entries, k + 1),
        }
    }
}

/// The operations of a path-item node.
pub open spec fn path_ops(n: NodeView) -> Seq<(crate::method::Method, Seq<char>, NodeView)> {
    match n {
        NodeView::Object(e) => method_entries(e, 0),
        _ => Seq::empty(),
    }
}

/// Every operation of a path item can be compiled.
pub open spec fn path_ops_ok(
    cache: Map<LocationView, NodeView>,
    api: NodeView,
    plocv: LocationView,
    pnodev: NodeView,
) -> bool {
    forall|t: int|
        0 <= t < path_ops(pnodev).len() ==> !op_compile_fails(
            cache,
            api,
            plocv,
            pnodev,
            push_loc(plocv, seq![(#[trigger] path_ops(pnodev)[t]).1]),
            path_ops(pnodev)[t].2,
        )
}

/// A compiled path agrees with its path-item node: the given id and
/// pattern, the node's location, and one fully matching operation per
/// method-keyed member, in document order.
pub open spec fn path_model_matches(
    cache: Map<LocationView, NodeView>,
    api: NodeView,
    plocv: LocationView,
    pnodev: NodeView,
    id: int,
    pattern: Seq<char>,
    p: crate::model::Path,
) -> bool {
    let ops = path_ops(pnodev);
    &&& p.id == id
    &&& p.location@ == plocv
    &&& p.pattern@ == pattern
    &&& p.operations@.len() == ops.len()
    &&& (forall|j: int|
        0 <= j < ops.len() ==> op_model_matches(
            cache,
            api,
            plocv,
            pnodev,
            push_loc(plocv, seq![ops[j].1]),
            ops[j].2,
            ops[j].0,
            #[trigger] p.operations@[j],
        ))
}

/// Compiles one path item: its pattern and id as discovered, and one
/// operation per member keyed by an HTTP method name, in document order.
pub fn make_path_model(
    cache: &NodeCache,
    api_node: &Node,
    path_location: &NodeLocation,
    path_node: &Node,
    id: usize,
    pattern: String,
) -> (r: Result<crate::model::Path, DocumentError>)
    requires
        cache.wf(),
    ensures
        ({
            let ops = path_ops(path_node@);
            match r {
                Ok(p) => path_model_matches(
                    cache@,
                    api_node@,
                    path_location@,
                    path_node@,
                    id as int,
                    pattern@,
                    p,
                ),
                Err(_) => exists|j: int|
                    #![auto]
                    0 <= j < ops.len() && op_compile_fails(
                        cache@,
                        api_node@,
                        path_location@,
                        path_node@,
                        push_loc(path_location@, seq![ops[j].1]),
                        ops[j].2,
                    ),
            }
        }),
        r is Ok ==> path_ops_ok(cache@, api_node@, path_location@, path_node@),
{
    let ghost ops = path_ops(path_node@);
    let mut operations: Vec<crate::model::Operation> = Vec::new();
    let entries = match crate::nodes30::object_entries(path_node) {
        Some(e) => e,
        None => {
            proof {
                assert(ops =~~= Seq::<(crate::method::Method, Seq<char>, NodeView)>::empty());
            }
            return Ok(
                crate::model::Path { id, location: path_location.clone(), pattern, operations },
            );
        },
    };
    let ghost ev = crate::node::entries_view_from(entries@, 0);
    proof {
        crate::node::lemma_entries_view(entries@, 0);
        if let NodeView::Object(e) = path_node@ {
            assert(ev == e);
            assert(ops == method_entries(ev, 0));
        }
    }
    let n = entries.len();
    let mut i: usize = 0;
    proof {
        assert(method_entries(ev, 0).take(0) =~~= Seq::<
            (crate::method::Method, Seq<char>, NodeView),
        >::empty());
    }
    while i < n
        invariant
            i <= n,
            n == entries@.len(),
            cache.wf(),
            ops == path_ops(path_node@),
            ops == method_entries(ev, 0),
            ev.len() == n,
            forall|j: int|
                0 <= j < n ==> ev[j] == ((#[trigger] entries@[j]).0@, crate::node::node_view(
                    entries@[j].1,
                )),
            ({
                let done = method_entries(ev, 0);
                let rest = method_entries(ev, i as int);
                &&& done.len() >= rest.len()
                &&& done == done.take(done.len() - rest.len()) + rest
                &&& operations@.len() == done.len() - rest.len()
                &&& (forall|j: int|
                    0 <= j < operations@.len() ==> op_model_matches(
                        cache@,
                        api_node@,
                        path_location@,
                        path_node@,
                        push_loc(path_location@, seq![done[j].1]),
                        done[j].2,
                        done[j].0,
                        #[trigger] operations@[j],
                    ))
                &&& (forall|j: int|
                    0 <= j < operations@.len() ==> !op_compile_fails(
                        cache@,
                        api_node@,
                        path_location@,
                        path_node@,
                        push_loc(path_location@, seq![(#[trigger] done[j]).1]),
                        done[j].2,
                    ))
            }),
        decreases n - i,
    {
        let ghost done = method_entries(ev, 0);
        let ghost rest = method_entries(ev, i as int);
        match crate::method::Method::parse(entries[i].0.as_str()) {
            Ok(method) => {
                proof {
                    assert(method_entries(ev, i as int) == seq![
                        (method, ev[i as int].0, ev[i as int].1),
                    ] + method_entries(ev, i + 1));
                }
                let mut pointer: Vec<String> = Vec::new();
                pointer.push(entries[i].0.clone());
                proof {
                    assert(pointer.deep_view() =~~= seq![ev[i as int].0]);
                }
                let oloc = path_location.push_pointer(pointer);
                proof {
                    assert(oloc@ =~~= push_loc(path_location@, seq![ev[i as int].0]));
                }
                match make_operation_model(
                    cache,
                    api_node,
                    path_location,
                    path_node,
                    &oloc,
                    &entries[i].1,
                    method,
                ) {
                    Ok(op) => {
                        operations.push(op);
                        proof {
                            let rest2 = method_entries(ev, i + 1);
                            assert(done.take(done.len() - rest2.len()) =~~= done.take(
                                done.len() - rest.len(),
                            ).push((method, ev[i as int].0, ev[i as int].1)));
                        }
                    },
                    Err(e) => {
                        proof {
                            let k = done.len() - rest.len();
                            assert(done[k] == (method, ev[i as int].0, ev[i as int].1));
                            assert(op_compile_fails(
                                cache@,
                                api_node@,
                                path_location@,
                                path_node@,
                                push_loc(path_location@, seq![ops[k].1]),
                                ops[k].2,
                            ));
                        }
                        return Err(e);
                    },
                }
            },
            Err(_) => {
                proof {
                    assert(method_entries(ev, i as int) == method_entries(ev, i + 1));
                }
            },
        }
        i += 1;
    }
    proof {
        let done = method_entries(ev, 0);
        assert(method_entries(ev, n as int) =~~= Seq::<
            (crate::method::Method, Seq<char>, NodeView),
        >::empty());
        assert(done.take(done.len() as int) =~~= done);
    }
    Ok(crate::model::Path { id, location: path_location.clone(), pattern, operations })
}

pub open spec fn paths_key() -> Seq<char> {
    seq!['p', 'a', 't', 'h', 's']
}

pub open spec fn components_key() -> Seq<char> {
    seq!['c', 'o', 'm', 'p', 'o', 'n', 'e', 'n', 't', 's']
}

pub open spec fn security_schemes_key() -> Seq<char> {
    seq!['s', 'e', 'c', 'u', 'r', 'i', 't', 'y', 'S', 'c', 'h', 'e', 'm', 'e', 's']
}

/// The security-scheme entries of a document.
pub open spec fn scheme_entries(n: NodeView) -> Seq<(Seq<char>, NodeView)> {
    match get_field(n, components_key()) {
        Some(c) => member_entries(c, security_schemes_key()),
        _ => Seq::empty(),
    }
}

/// A compiled `Api` agrees with the document node at its location: one
/// path per `paths` entry with ids assigned by discovery order from one,
/// each dereferenced and matching down to its operations, parameters,
/// bodies and status-code allocation; one authentication per declared
/// security scheme, dereferenced and named by its key.
pub open spec fn api_model_matches(
    cache: Map<LocationView, NodeView>,
    loc: LocationView,
    n: NodeView,
    api: crate::model::Api,
) -> bool {
    let pe = member_entries(n, paths_key());
    let se = scheme_entries(n);
    &&& api.location@ == loc
    &&& api.paths@.len() == pe.len()
    &&& (forall|j: int|
        0 <= j < pe.len() ==> (match deref_spec(
            cache,
            push_loc(loc, seq![paths_key(), (#[trigger] pe[j]).0]),
            pe[j].1,
        ) {
            Ok(p) => path_model_matches(cache, n, p.0, p.1, j + 1, pe[j].0, api.paths@[j]),
            Err(_) => false,
        }))
    &&& api.authentication@.len() == se.len()
    &&& (forall|j: int|
        0 <= j < se.len() ==> (match deref_spec(
            cache,
            push_loc(loc, seq![components_key(), security_schemes_key(), (#[trigger] se[j]).0]),
            se[j].1,
        ) {
            Ok(p) => {
                &&& api.authentication@[j].name@ == se[j].0
                &&& api.authentication@[j].location@ == p.0
                &&& api.authentication@[j].auth_type@ == auth_type_spec(p.1)
            },
            Err(_) => false,
        }))
}

/// The dereferenced target of one `paths` entry.
pub open spec fn path_target(
    cache: Map<LocationView, NodeView>,
    loc: LocationView,
    pe: Seq<(Seq<char>, NodeView)>,
    j: int,
) -> Result<(LocationView, NodeView), DocumentError> {
    deref_spec(cache, push_loc(loc, seq![paths_key(), pe[j].0]), pe[j].1)
}

/// The model is determined by the cached document: two compiled models
/// that both match the same document node agree on their observable
/// content — the api location, each path's id, pattern, location and
/// operation count, each operation's method, name and location, and each
/// result's status kind and exact status codes.
pub proof fn lemma_api_model_determined(
    cache: Map<LocationView, NodeView>,
    loc: LocationView,
    n: NodeView,
    a1: crate::model::Api,
    a2: crate::model::Api,
)
    requires
        api_model_matches(cache, loc, n, a1),
        api_model_matches(cache, loc, n, a2),
    ensures
        a1.location@ == a2.location@,
        a1.paths@.len() == a2.paths@.len(),
        a1.authentication@.len() == a2.authentication@.len(),
        forall|j: int|
            #![auto]
            0 <= j < a1.paths@.len() ==> {
                &&& a1.paths@[j].id == a2.paths@[j].id
                &&& a1.paths@[j].pattern@ == a2.paths@[j].pattern@
                &&& a1.paths@[j].location@ == a2.paths@[j].location@
                &&& a1.paths@[j].operations@.len() == a2.paths@[j].operations@.len()
            },
        forall|j: int, t: int|
            #![auto]
            0 <= j < a1.paths@.len() && 0 <= t < a1.paths@[j].operations@.len() ==> {
                &&& a1.paths@[j].operations@[t].method == a2.paths@[j].operations@[t].method
                &&& a1.paths@[j].operations@[t].name@ == a2.paths@[j].operations@[t].name@
                &&& a1.paths@[j].operations@[t].location@ == a2.paths@[j].operations@[t].location@
                &&& a1.paths@[j].operations@[t].operation_results@.len()
                    == a2.paths@[j].operations@[t].operation_results@.len()
            },
        forall|j: int, t: int, w: int|
            #![auto]
            0 <= j < a1.paths@.len() && 0 <= t < a1.paths@[j].operations@.len() && 0 <= w
                < a1.paths@[j].operations@[t].operation_results@.len() ==> {
                &&& a1.paths@[j].operations@[t].operation_results@[w].status_kind
                    == a2.paths@[j].operations@[t].operation_results@[w].status_kind
                &&& a1.paths@[j].operations@[t].operation_results@[w].status_codes@
                    == a2.paths@[j].operations@[t].operation_results@[w].status_codes@
            },
{
    let pe = member_entries(n, paths_key());
    assert forall|j: int|
        #![auto]
        0 <= j < a1.paths@.len() implies {
        &&& a1.paths@[j].id == a2.paths@[j].id
        &&& a1.paths@[j].pattern@ == a2.paths@[j].pattern@
        &&& a1.paths@[j].location@ == a2.paths@[j].location@
        &&& a1.paths@[j].operations@.len() == a2.paths@[j].operations@.len()
    } by {
        if let Ok(p) = deref_spec(cache, push_loc(loc, seq![paths_key(), pe[j].0]), pe[j].1) {
            assert(path_model_matches(cache, n, p.0, p.1, j + 1, pe[j].0, a1.paths@[j]));
            assert(path_model_matches(cache, n, p.0, p.1, j + 1, pe[j].0, a2.paths@[j]));
        }
    }
    assert forall|j: int, t: int|
        #![auto]
        0 <= j < a1.paths@.len() && 0 <= t < a1.paths@[j].operations@.len() implies {
        &&& a1.paths@[j].operations@[t].method == a2.paths@[j].operations@[t].method
        &&& a1.paths@[j].operations@[t].name@ == a2.paths@[j].operations@[t].name@
        &&& a1.paths@[j].operations@[t].location@ == a2.paths@[j].operations@[t].location@
        &&& a1.paths@[j].operations@[t].operation_results@.len()
            == a2.paths@[j].operations@[t].operation_results@.len()
    } by {
        if let Ok(p) = deref_spec(cache, push_loc(loc, seq![paths_key(), pe[j].0]), pe[j].1) {
            let ops = path_ops(p.1);
            assert(op_model_matches(
                cache,
                n,
                p.0,
                p.1,
                push_loc(p.0, seq![ops[t].1]),
                ops[t].2,
                ops[t].0,
                a1.paths@[j].operations@[t],
            ));
            assert(op_model_matches(
                cache,
                n,
                p.0,
                p.1,
                push_loc(p.0, seq![ops[t].1]),
                ops[t].2,
                ops[t].0,
                a2.paths@[j].operations@[t],
            ));
        }
    }
    assert forall|j: int, t: int, w: int|
        #![auto]
        0 <= j < a1.paths@.len() && 0 <= t < a1.paths@[j].operations@.len() && 0 <= w
            < a1.paths@[j].operations@[t].operation_results@.len() implies {
        &&& a1.paths@[j].operations@[t].operation_results@[w].status_kind
            == a2.paths@[j].operations@[t].operation_results@[w].status_kind
        &&& a1.paths@[j].operations@[t].operation_results@[w].status_codes@
            == a2.paths@[j].operations@[t].operation_results@[w].status_codes@
    } by {
        if let Ok(p) = deref_spec(cache, push_loc(loc, seq![paths_key(), pe[j].0]), pe[j].1) {
            let ops = path_ops(p.1);
            let oloc = push_loc(p.0, seq![ops[t].1]);
            assert(op_model_matches(
                cache,
                n,
                p.0,
                p.1,
                oloc,
                ops[t].2,
                ops[t].0,
                a1.paths@[j].operations@[t],
            ));
            assert(op_model_matches(
                cache,
                n,
                p.0,
                p.1,
                oloc,
                ops[t].2,
                ops[t].0,
                a2.paths@[j].operations@[t],
            ));
            let o1 = a1.paths@[j].operations@[t];
            let o2 = a2.paths@[j].operations@[t];
            if let Ok(ts) = responses_spec(
                cache,
                oloc,
                member_entries(ops[t].2, responses_key()),
                0,
            ) {
                let sorted = process_order(ts);
                let kinds = kinds_of(sorted);
                let avail = avail_steps(crate::status::full_avail(), kinds, w);
                assert(result_model_matches(
                    cache,
                    sorted[w].1,
                    sorted[w].2,
                    sorted[w].0,
                    avail,
                    o1.operation_results@[w],
                ));
                assert(result_model_matches(
                    cache,
                    sorted[w].1,
                    sorted[w].2,
                    sorted[w].0,
                    avail,
                    o2.operation_results@[w],
                ));
                let c1 = o1.operation_results@[w].status_codes@;
                let c2 = o2.operation_results@[w].status_codes@;
                assert(c1.map_values(|x: usize| x as int) == c2.map_values(|x: usize| x as int));
                assert forall|q: int| 0 <= q < c1.len() implies c1[q] == c2[q] by {
                    assert(c1.map_values(|x: usize| x as int)[q] == c1[q] as int);
                    assert(c2.map_values(|x: usize| x as int)[q] == c2[q] as int);
                }
                assert(c1 =~= c2);
            }
        }
    }
}

/// Why compiling a document can fail: a path or scheme that cannot be
/// dereferenced, or an operation that cannot be compiled.
pub open spec fn api_compile_fails(
    cache: Map<LocationView, NodeView>,
    loc: LocationView,
    n: NodeView,
) -> bool {
    let pe = member_entries(n, paths_key());
    let se = scheme_entries(n);
    ||| exists|j: int|
        #![auto]
        0 <= j < pe.len() && deref_spec(
            cache,
            push_loc(loc, seq![paths_key(), pe[j].0]),
            pe[j].1,
        ) is Err
    ||| exists|j: int|
        #![auto]
        0 <= j < se.len() && deref_spec(
            cache,
            push_loc(loc, seq![components_key(), security_schemes_key(), se[j].0]),
            se[j].1,
        ) is Err
    ||| exists|j: int, t: int|
        #![trigger path_ops(path_target(cache, loc, pe, j)->Ok_0.1)[t]]
        0 <= j < pe.len() && (match path_target(cache, loc, pe, j) {
            Ok(p) => {
                let ops = path_ops(p.1);
                0 <= t < ops.len() && op_compile_fails(
                    cache,
                    n,
                    p.0,
                    p.1,
                    push_loc(p.0, seq![ops[t].1]),
                    ops[t].2,
                )
            },
            Err(_) => false,
        })
}

/// Compiles a whole document node into the model.
#[verifier::rlimit(60)]
pub fn make_api_model(cache: &NodeCache, api_location: &NodeLocation, api_node: &Node) -> (r:
    Result<crate::model::Api, DocumentError>)
    requires
        cache.wf(),
    ensures
        match r {
            Ok(api) => api_model_matches(cache@, api_location@, api_node@, api),
            Err(_) => api_compile_fails(cache@, api_location@, api_node@),
        },
        r is Ok ==> !api_compile_fails(cache@, api_location@, api_node@),
{
    proof {
        reveal_strlit("paths");
        reveal_strlit("components");
        reveal_strlit("securitySchemes");
        assert("paths"@ =~= paths_key());
        assert("components"@ =~= components_key());
        assert("securitySchemes"@ =~= security_schemes_key());
    }
    let ghost pe = member_entries(api_node@, paths_key());
    let mut paths: Vec<crate::model::Path> = Vec::new();
    match api_node.get("paths") {
        Some(member) => {
            match crate::nodes30::object_entries(member) {
                Some(entries) => {
                    proof {
                        crate::node::lemma_entries_view(entries@, 0);
                        assert(pe == crate::node::entries_view_from(entries@, 0));
                    }
                    let n = entries.len();
                    let mut i: usize = 0;
                    while i < n
                        invariant
                            i <= n,
                            n == entries@.len(),
                            cache.wf(),
                            pe == member_entries(api_node@, paths_key()),
                            pe.len() == n,
                            forall|j: int|
                                0 <= j < n ==> pe[j] == ((#[trigger] entries@[j]).0@,
                                crate::node::node_view(entries@[j].1)),
                            paths@.len() == i,
                            forall|j: int|
                                0 <= j < i ==> (match deref_spec(
                                    cache@,
                                    push_loc(
                                        api_location@,
                                        seq![paths_key(), (#[trigger] pe[j]).0],
                                    ),
                                    pe[j].1,
                                ) {
                                    Ok(p) => {
                                        &&& path_model_matches(
                                            cache@,
                                            api_node@,
                                            p.0,
                                            p.1,
                                            j + 1,
                                            pe[j].0,
                                            paths@[j],
                                        )
                                        &&& path_ops_ok(cache@, api_node@, p.0, p.1)
                                    },
                                    Err(_) => false,
                                }),
                        decreases n - i,
                    {
                        let pattern = entries[i].0.clone();
                        let ploc0 = api_location.push_pointer(seg_pair("paths", &entries[i].0));
                        proof {
                            reveal_strlit("paths");
                            assert(ploc0@ =~~= push_loc(
                                api_location@,
                                seq![paths_key(), pe[i as int].0],
                            ));
                        }
                        match dereference(cache, &ploc0, &entries[i].1) {
                            Ok(pair) => {
                                match make_path_model(
                                    cache,
                                    api_node,
                                    &pair.0,
                                    &pair.1,
                                    i + 1,
                                    pattern,
                                ) {
                                    Ok(p) => {
                                        paths.push(p);
                                    },
                                    Err(e) => {
                                        proof {
                                            let ops = path_ops(crate::node::node_view(pair.1));
                                            let t = choose|t: int|
                                                #![auto]
                                                0 <= t < ops.len() && op_compile_fails(
                                                    cache@,
                                                    api_node@,
                                                    pair.0@,
                                                    crate::node::node_view(pair.1),
                                                    push_loc(pair.0@, seq![ops[t].1]),
                                                    ops[t].2,
                                                );
                                            assert(path_target(
                                                cache@,
                                                api_location@,
                                                pe,
                                                i as int,
                                            ) matches Ok(p2) && p2.0 == pair.0@ && p2.1
                                                == crate::node::node_view(pair.1));
                                            assert(path_ops(
                                                path_target(cache@, api_location@, pe, i as int)->Ok_0.1,
                                            )[t] == ops[t]);
                                        }
                                        return Err(e);
                                    },
                                }
                            },
                            Err(e) => {
                                return Err(e);
                            },
                        }
                        i += 1;
                    }
                },
                None => {
                    proof {
                        assert(pe =~~= Seq::<(Seq<char>, NodeView)>::empty());
                    }
                },
            }
        },
        None => {
            proof {
                assert(pe =~~= Seq::<(Seq<char>, NodeView)>::empty());
            }
        },
    }
    let ghost se = scheme_entries(api_node@);
    let mut authentication: Vec<Authentication> = Vec::new();
    let mut scheme_nodes: Option<&Node> = None;
    match api_node.get("components") {
        Some(c) => {
            match c.get("securitySchemes") {
                Some(s) => {
                    scheme_nodes = Some(s);
                },
                None => {},
            }
        },
        None => {},
    }
    match scheme_nodes {
        Some(member) => {
            match crate::nodes30::object_entries(member) {
                Some(entries) => {
                    proof {
                        crate::node::lemma_entries_view(entries@, 0);
                        assert(se == crate::node::entries_view_from(entries@, 0));
                    }
                    let n = entries.len();
                    let mut i: usize = 0;
                    while i < n
                        invariant
                            i <= n,
                            n == entries@.len(),
                            cache.wf(),
                            se == scheme_entries(api_node@),
                            se.len() == n,
                            forall|j: int|
                                0 <= j < n ==> se[j] == ((#[trigger] entries@[j]).0@,
                                crate::node::node_view(entries@[j].1)),
                            authentication@.len() == i,
                            forall|j: int|
                                0 <= j < i ==> (match deref_spec(
                                    cache@,
                                    push_loc(
                                        api_location@,
                                        seq![
                                            components_key(),
                                            security_schemes_key(),
                                            (#[trigger] se[j]).0,
                                        ],
                                    ),
                                    se[j].1,
                                ) {
                                    Ok(p) => {
                                        &&& authentication@[j].name@ == se[j].0
                                        &&& authentication@[j].location@ == p.0
                                        &&& authentication@[j].auth_type@ == auth_type_spec(p.1)
                                    },
                                    Err(_) => false,
                                }),
                        decreases n - i,
                    {
                        let name = entries[i].0.clone();
                        let mut pointer: Vec<String> = Vec::new();
                        pointer.push("components".to_owned());
                        pointer.push("securitySchemes".to_owned());
                        pointer.push(entries[i].0.clone());
                        proof {
                            reveal_strlit("components");
                            reveal_strlit("securitySchemes");
                            assert("components"@ =~= components_key());
                            assert("securitySchemes"@ =~= security_schemes_key());
                            assert(pointer.deep_view() =~~= seq![
                                components_key(),
                                security_schemes_key(),
                                se[i as int].0,
                            ]);
                        }
                        let aloc0 = api_location.push_pointer(pointer);
                        proof {
                            assert(aloc0@ =~~= push_loc(
                                api_location@,
                                seq![components_key(), security_schemes_key(), se[i as int].0],
                            ));
                        }
                        match dereference(cache, &aloc0, &entries[i].1) {
                            Ok(pair) => {
                                let a = make_authentication_model(&pair.0, &pair.1, name);
                                authentication.push(a);
                            },
                            Err(e) => {
                                return Err(e);
                            },
                        }
                        i += 1;
                    }
                },
                None => {
                    proof {
                        assert(se =~~= Seq::<(Seq<char>, NodeView)>::empty());
                    }
                },
            }
        },
        None => {
            proof {
                assert(se =~~= Seq::<(Seq<char>, NodeView)>::empty());
            }
        },
    }
    proof {
        assert(!api_compile_fails(cache@, api_location@, api_node@)) by {
            if exists|j: int|
                #![auto]
                0 <= j < pe.len() && deref_spec(
                    cache@,
                    push_loc(api_location@, seq![paths_key(), pe[j].0]),
                    pe[j].1,
                ) is Err {
                let j = choose|j: int|
                    #![auto]
                    0 <= j < pe.len() && deref_spec(
                        cache@,
                        push_loc(api_location@, seq![paths_key(), pe[j].0]),
                        pe[j].1,
                    ) is Err;
                assert(false);
            }
            if exists|j: int|
                #![auto]
                0 <= j < se.len() && deref_spec(
                    cache@,
                    push_loc(
                        api_location@,
                        seq![components_key(), security_schemes_key(), se[j].0],
                    ),
                    se[j].1,
                ) is Err {
                let j = choose|j: int|
                    #![auto]
                    0 <= j < se.len() && deref_spec(
                        cache@,
                        push_loc(
                            api_location@,
                            seq![components_key(), security_schemes_key(), se[j].0],
                        ),
                        se[j].1,
                    ) is Err;
                assert(false);
            }
            if exists|j: int, t: int|
                #![trigger path_ops(path_target(cache@, api_location@, pe, j)->Ok_0.1)[t]]
                0 <= j < pe.len() && (match path_target(cache@, api_location@, pe, j) {
                    Ok(p) => {
                        let ops = path_ops(p.1);
                        0 <= t < ops.len() && op_compile_fails(
                            cache@,
                            api_node@,
                            p.0,
                            p.1,
                            push_loc(p.0, seq![ops[t].1]),
                            ops[t].2,
                        )
                    },
                    Err(_) => false,
                }) {
                let (j, t) = choose|j: int, t: int|
                    #![trigger path_ops(path_target(cache@, api_location@, pe, j)->Ok_0.1)[t]]
                    0 <= j < pe.len() && (match path_target(cache@, api_location@, pe, j) {
                        Ok(p) => {
                            let ops = path_ops(p.1);
                            0 <= t < ops.len() && op_compile_fails(
                                cache@,
                                api_node@,
                                p.0,
                                p.1,
                                push_loc(p.0, seq![ops[t].1]),
                                ops[t].2,
                            )
                        },
                        Err(_) => false,
                    });
                if let Ok(p) = path_target(cache@, api_location@, pe, j) {
                    assert(path_ops_ok(cache@, api_node@, p.0, p.1));
                    assert(false);
                }
            }
        }
    }
    Ok(crate::model::Api { location: api_location.clone(), paths, authentication })
}

/// What resolving a possible reference yields: the joined target when
/// the node is a `$ref`, nothing when it is not, and an error when the
/// reference string does not parse.
pub open spec fn ref_target(loc: LocationView, n: NodeView) -> Result<
    Option<LocationView>,
    DocumentError,
> {
    match ref_string(n) {
        Some(s) => match parse_loc(s) {
            Ok(v) => Ok(Some(join_view(loc, v))),
            Err(_) => Err(DocumentError::ParseLocationFailed),
        },
        None => Ok(None),
    }
}

fn ref_location_of(location: &NodeLocation, node: &Node) -> (r: Result<
    Option<NodeLocation>,
    DocumentError,
>)
    ensures
        match ref_target(location@, node@) {
            Ok(Some(t)) => r matches Ok(o) && o matches Some(l) && l@ == t,
            Ok(None) => r matches Ok(o) && o is None,
            Err(e) => r matches Err(e2) && e2 == e,
        },
{
    match reference_of(node) {
        Some(reference) => match NodeLocation::parse(reference.as_str()) {
            Ok(reference_location) => Ok(Some(location.join(&reference_location))),
            Err(_) => Err(DocumentError::ParseLocationFailed),
        },
        None => Ok(None),
    }
}

/// The views of a list of locations.
pub open spec fn locs_view(s: Seq<NodeLocation>) -> Seq<LocationView> {
    Seq::new(s.len(), |i: int| s[i]@)
}

/// The resolved `$ref` targets among a `parameters` list, in order; the
/// first unreadable reference string is the error.
pub open spec fn param_list_refs(base: LocationView, items: Seq<NodeView>, k: int) -> Result<
    Seq<LocationView>,
    DocumentError,
>
    decreases items.len() - k,
{
    if k < 0 || k >= items.len() {
        Ok(Seq::empty())
    } else {
        let loc = push_loc(base, seq![parameters_key(), crate::node::dec_str(k as nat)]);
        match ref_target(loc, items[k]) {
            Ok(Some(t)) => match param_list_refs(base, items, k + 1) {
                Ok(r) => Ok(seq![t] + r),
                Err(e) => Err(e),
            },
            Ok(None) => param_list_refs(base, items, k + 1),
            Err(e) => Err(e),
        }
    }
}

/// The resolved `$ref` targets among a response's headers.
pub open spec fn header_refs(rloc: LocationView, entries: Seq<(Seq<char>, NodeView)>, k: int) -> Result<
    Seq<LocationView>,
    DocumentError,
>
    decreases entries.len() - k,
{
    if k < 0 || k >= entries.len() {
        Ok(Seq::empty())
    } else {
        let hloc = push_loc(rloc, seq![headers_key(), entries[k].0]);
        match ref_target(hloc, entries[k].1) {
            Ok(Some(t)) => match header_refs(rloc, entries, k + 1) {
                Ok(r) => Ok(seq![t] + r),
                Err(e) => Err(e),
            },
            Ok(None) => header_refs(rloc, entries, k + 1),
            Err(e) => Err(e),
        }
    }
}

/// The resolved `$ref` targets among an operation's responses: a
/// reference response contributes its own target, any other response the
/// targets of its headers.
pub open spec fn response_refs(oloc: LocationView, entries: Seq<(Seq<char>, NodeView)>, k: int) -> Result<
    Seq<LocationView>,
    DocumentError,
>
    decreases entries.len() - k,
{
    if k < 0 || k >= entries.len() {
        Ok(Seq::empty())
    } else {
        let rloc = push_loc(oloc, seq![responses_key(), entries[k].0]);
        match ref_target(rloc, entries[k].1) {
            Ok(Some(t)) => match response_refs(oloc, entries, k + 1) {
                Ok(r) => Ok(seq![t] + r),
                Err(e) => Err(e),
            },
            Ok(None) => match header_refs(rloc, member_entries(entries[k].1, headers_key()), 0) {
                Ok(a) => match response_refs(oloc, entries, k + 1) {
                    Ok(r) => Ok(a + r),
                    Err(e) => Err(e),
                },
                Err(e) => Err(e),
            },
            Err(e) => Err(e),
        }
    }
}

/// The resolved `$ref` targets of one operation: its parameters, then
/// its responses.
pub open spec fn operation_refs(oloc: LocationView, onode: NodeView) -> Result<
    Seq<LocationView>,
    DocumentError,
> {
    match param_list_refs(oloc, param_items(onode), 0) {
        Ok(a) => match response_refs(oloc, member_entries(onode, responses_key()), 0) {
            Ok(b) => Ok(a + b),
            Err(e) => Err(e),
        },
        Err(e) => Err(e),
    }
}

/// The resolved `$ref` targets of a path item's method-keyed members.
pub open spec fn path_entry_ops_refs(
    ploc: LocationView,
    entries: Seq<(Seq<char>, NodeView)>,
    k: int,
) -> Result<Seq<LocationView>, DocumentError>
    decreases entries.len() - k,
{
    if k < 0 || k >= entries.len() {
        Ok(Seq::empty())
    } else {
        match crate::method::parse_method(entries[k].0) {
            Some(_) => match operation_refs(push_loc(ploc, seq![entries[k].0]), entries[k].1) {
                Ok(a) => match path_entry_ops_refs(ploc, entries, k + 1) {
                    Ok(r) => Ok(a + r),
                    Err(e) => Err(e),
                },
                Err(e) => Err(e),
            },
            None => path_entry_ops_refs(ploc, entries, k + 1),
        }
    }
}

/// The resolved `$ref` targets of one path item: its parameter list,
/// then its operations.
pub open spec fn path_refs(ploc: LocationView, pnode: NodeView) -> Result<
    Seq<LocationView>,
    DocumentError,
> {
    match param_list_refs(ploc, param_items(pnode), 0) {
        Ok(a) => match (match pnode {
            NodeView::Object(e) => path_entry_ops_refs(ploc, e, 0),
            _ => Ok(Seq::empty()),
        }) {
            Ok(b) => Ok(a + b),
            Err(e) => Err(e),
        },
        Err(e) => Err(e),
    }
}

/// The resolved `$ref` targets among the `paths` entries: a reference
/// path item contributes its own target, any other path item the targets
/// inside it.
pub open spec fn paths_refs(
    apiloc: LocationView,
    entries: Seq<(Seq<char>, NodeView)>,
    k: int,
) -> Result<Seq<LocationView>, DocumentError>
    decreases entries.len() - k,
{
    if k < 0 || k >= entries.len() {
        Ok(Seq::empty())
    } else {
        let ploc = push_loc(apiloc, seq![paths_key(), entries[k].0]);
        match ref_target(ploc, entries[k].1) {
            Ok(Some(t)) => match paths_refs(apiloc, entries, k + 1) {
                Ok(r) => Ok(seq![t] + r),
                Err(e) => Err(e),
            },
            Ok(None) => match path_refs(ploc, entries[k].1) {
                Ok(a) => match paths_refs(apiloc, entries, k + 1) {
                    Ok(r) => Ok(a + r),
                    Err(e) => Err(e),
                },
                Err(e) => Err(e),
            },
            Err(e) => Err(e),
        }
    }
}

/// Every document location this document references by `$ref` at a
/// reference-bearing position (path items, parameters, responses,
/// response headers), each resolved against the position it occurs at,
/// in walk order; the first unreadable reference string is the error.
pub open spec fn referenced_locations_spec(apiloc: LocationView, n: NodeView) -> Result<
    Seq<LocationView>,
    DocumentError,
> {
    paths_refs(apiloc, member_entries(n, paths_key()), 0)
}

/// The schema locations among a `parameters` list: every non-reference
/// parameter that declares a `schema` member, in order.
pub open spec fn param_list_schemas(base: LocationView, items: Seq<NodeView>, k: int) -> Seq<
    LocationView,
>
    decreases items.len() - k,
{
    if k < 0 || k >= items.len() {
        Seq::empty()
    } else {
        let rest = param_list_schemas(base, items, k + 1);
        if ref_string(items[k]) is Some {
            rest
        } else if has_schema(items[k]) {
            seq![
                push_loc(
                    base,
                    seq![parameters_key(), crate::node::dec_str(k as nat), schema_key()],
                ),
            ] + rest
        } else {
            rest
        }
    }
}

/// The schema locations among a response's non-reference headers.
pub open spec fn header_schemas(rloc: LocationView, entries: Seq<(Seq<char>, NodeView)>, k: int) -> Seq<
    LocationView,
>
    decreases entries.len() - k,
{
    if k < 0 || k >= entries.len() {
        Seq::empty()
    } else {
        let rest = header_schemas(rloc, entries, k + 1);
        if ref_string(entries[k].1) is Some {
            rest
        } else if has_schema(entries[k].1) {
            seq![push_loc(rloc, seq![headers_key(), entries[k].0, schema_key()])] + rest
        } else {
            rest
        }
    }
}

/// The schema locations among a response's bodies, one per media type
/// that declares a `schema` member.
pub open spec fn body_schemas(rloc: LocationView, entries: Seq<(Seq<char>, NodeView)>, k: int) -> Seq<
    LocationView,
>
    decreases entries.len() - k,
{
    if k < 0 || k >= entries.len() {
        Seq::empty()
    } else {
        let rest = body_schemas(rloc, entries, k + 1);
        if has_schema(entries[k].1) {
            seq![push_loc(rloc, seq![content_key(), entries[k].0, schema_key()])] + rest
        } else {
            rest
        }
    }
}

/// The schema locations among an operation's non-reference responses:
/// their header schemas, then their body schemas.
pub open spec fn response_schemas(
    oloc: LocationView,
    entries: Seq<(Seq<char>, NodeView)>,
    k: int,
) -> Seq<LocationView>
    decreases entries.len() - k,
{
    if k < 0 || k >= entries.len() {
        Seq::empty()
    } else {
        let rest = response_schemas(oloc, entries, k + 1);
        let rloc = push_loc(oloc, seq![responses_key(), entries[k].0]);
        if ref_string(entries[k].1) is Some {
            rest
        } else {
            header_schemas(rloc, member_entries(entries[k].1, headers_key()), 0) + body_schemas(
                rloc,
                member_entries(entries[k].1, content_key()),
                0,
            ) + rest
        }
    }
}

/// The schema locations of one operation: its parameters, then its
/// responses.
pub open spec fn operation_schemas(oloc: LocationView, onode: NodeView) -> Seq<LocationView> {
    param_list_schemas(oloc, param_items(onode), 0) + response_schemas(
        oloc,
        member_entries(onode, responses_key()),
        0,
    )
}

/// The schema locations of a path item's method-keyed members.
pub open spec fn path_entry_ops_schemas(
    ploc: LocationView,
    entries: Seq<(Seq<char>, NodeView)>,
    k: int,
) -> Seq<LocationView>
    decreases entries.len() - k,
{
    if k < 0 || k >= entries.len() {
        Seq::empty()
    } else {
        let rest = path_entry_ops_schemas(ploc, entries, k + 1);
        match crate::method::parse_method(entries[k].0) {
            Some(_) => operation_schemas(push_loc(ploc, seq![entries[k].0]), entries[k].1) + rest,
            None => rest,
        }
    }
}

/// The schema locations of one path item: its parameter list, then its
/// operations.
pub open spec fn path_schemas(ploc: LocationView, pnode: NodeView) -> Seq<LocationView> {
    param_list_schemas(ploc, param_items(pnode), 0) + (match pnode {
        NodeView::Object(e) => path_entry_ops_schemas(ploc, e, 0),
        _ => Seq::empty(),
    })
}

/// The schema locations among the `paths` entries; a reference path item
/// contributes nothing here.
pub open spec fn paths_schemas(
    apiloc: LocationView,
    entries: Seq<(Seq<char>, NodeView)>,
    k: int,
) -> Seq<LocationView>
    decreases entries.len() - k,
{
    if k < 0 || k >= entries.len() {
        Seq::empty()
    } else {
        let rest = paths_schemas(apiloc, entries, k + 1);
        if ref_string(entries[k].1) is Some {
            rest
        } else {
            path_schemas(push_loc(apiloc, seq![paths_key(), entries[k].0]), entries[k].1) + rest
        }
    }
}

/// Every schema-bearing location of the document: parameter schemas,
/// response-header schemas and response-body schemas, in walk order. The
/// positions are collected, never dereferenced.
pub open spec fn schema_locations_spec(apiloc: LocationView, n: NodeView) -> Seq<LocationView> {
    paths_schemas(apiloc, member_entries(n, paths_key()), 0)
}

/// The OpenAPI 3.0 adapter for one document, identified by its retrieval
/// location; it reads everything else from the shared cache.
pub struct Oas30Document {
    retrieval_location: NodeLocation,
}

impl Oas30Document {
    /// The location of the document this adapter reads.
    pub closed spec fn location_view(&self) -> LocationView {
        self.retrieval_location@
    }

    /// An adapter for the document at `retrieval_location`.
    pub fn new(retrieval_location: NodeLocation) -> (r: Oas30Document)
        ensures
            r.location_view() == retrieval_location@,
    {
        Oas30Document { retrieval_location }
    }

    /// The document's own location.
    pub fn get_document_location(&self) -> (r: NodeLocation)
        ensures
            r@ == self.location_view(),
    {
        self.retrieval_location.clone()
    }

    /// The meta-schema id the dialect assigns to schema nodes by default.
    pub fn get_default_schema_id() -> (r: String)
        ensures
            r@ == "https://spec.openapis.org/oas/3.0/schema/2021-09-28#/definitions/Schema"@,
    {
        String::from_str("https://spec.openapis.org/oas/3.0/schema/2021-09-28#/definitions/Schema")
    }

    /// Compiles the cached document into the dialect-independent model.
    pub fn get_api_model(&self, cache: &NodeCache) -> (r: Result<
        crate::model::Api,
        DocumentError,
    >)
        requires
            cache.wf(),
        ensures
            !cache@.contains_key(self.location_view()) ==> r == Err::<
                crate::model::Api,
                DocumentError,
            >(DocumentError::NodeNotFound),
            cache@.contains_key(self.location_view()) ==> match r {
                Ok(api) => api_model_matches(
                    cache@,
                    self.location_view(),
                    cache@[self.location_view()],
                    api,
                ),
                Err(_) => api_compile_fails(
                    cache@,
                    self.location_view(),
                    cache@[self.location_view()],
                ),
            },
            cache@.contains_key(self.location_view()) ==> (r is Ok <==> !api_compile_fails(
                cache@,
                self.location_view(),
                cache@[self.location_view()],
            )),
    {
        let api_node = match cache.get_node(&self.retrieval_location) {
            Some(n) => n.clone(),
            None => {
                return Err(DocumentError::NodeNotFound);
            },
        };
        make_api_model(cache, &self.retrieval_location, &api_node)
    }

    /// The locations of the documents this one references by `$ref` at
    /// its reference-bearing positions: path items, parameters, responses
    /// and response headers, each resolved against the position it occurs
    /// at.
    /// The locations of the documents this one references by `$ref` at
    /// its reference-bearing positions (path items, parameters,
    /// responses, response headers), each resolved against the position
    /// it occurs at, in walk order.
    pub fn get_referenced_locations(&self, cache: &NodeCache) -> (r: Result<
        Vec<NodeLocation>,
        DocumentError,
    >)
        requires
            cache.wf(),
        ensures
            !cache@.contains_key(self.location_view()) ==> r == Err::<
                Vec<NodeLocation>,
                DocumentError,
            >(DocumentError::NodeNotFound),
            cache@.contains_key(self.location_view()) ==> match referenced_locations_spec(
                self.location_view(),
                cache@[self.location_view()],
            ) {
                Ok(vs) => r matches Ok(v) && locs_view(v@) == vs,
                Err(e) => r == Err::<Vec<NodeLocation>, DocumentError>(e),
            },
    {
        proof {
            reveal_strlit("paths");
            assert("paths"@ =~= paths_key());
        }
        let api_node = match cache.get_node(&self.retrieval_location) {
            Some(n) => n.clone(),
            None => {
                return Err(DocumentError::NodeNotFound);
            },
        };
        let ghost pv = member_entries(api_node@, paths_key());
        let mut out: Vec<NodeLocation> = Vec::new();
        let paths = match api_node.get("paths") {
            Some(m) => m,
            None => {
                proof {
                    assert(pv =~~= Seq::<(Seq<char>, NodeView)>::empty());
                    assert(locs_view(out@) =~~= Seq::<LocationView>::empty());
                }
                return Ok(out);
            },
        };
        let path_entries = match crate::nodes30::object_entries(paths) {
            Some(e) => e,
            None => {
                proof {
                    assert(pv =~~= Seq::<(Seq<char>, NodeView)>::empty());
                    assert(locs_view(out@) =~~= Seq::<LocationView>::empty());
                }
                return Ok(out);
            },
        };
        proof {
            crate::node::lemma_entries_view(path_entries@, 0);
            assert(pv == crate::node::entries_view_from(path_entries@, 0));
        }
        let n = path_entries.len();
        let mut i: usize = 0;
        proof {
            if let Ok(vs) = paths_refs(self.location_view(), pv, 0) {
                assert(locs_view(out@) + vs =~~= vs);
            }
        }
        while i < n
            invariant
                i <= n,
                n == path_entries@.len(),
                cache.wf(),
                cache@.contains_key(self.location_view()),
                api_node@ == cache@[self.location_view()],
                pv == member_entries(api_node@, paths_key()),
                pv.len() == n,
                forall|j: int|
                    0 <= j < n ==> pv[j] == ((#[trigger] path_entries@[j]).0@,
                    crate::node::node_view(path_entries@[j].1)),
                match paths_refs(self.location_view(), pv, i as int) {
                    Ok(vs) => paths_refs(self.location_view(), pv, 0) matches Ok(all) && all
                        == locs_view(out@) + vs,
                    Err(e) => paths_refs(self.location_view(), pv, 0) == Err::<
                        Seq<LocationView>,
                        DocumentError,
                    >(e),
                },
            decreases n - i,
        {
            let ploc = self.retrieval_location.push_pointer(
                seg_pair("paths", &path_entries[i].0),
            );
            proof {
                reveal_strlit("paths");
                assert(ploc@ =~~= push_loc(
                    self.location_view(),
                    seq![paths_key(), pv[i as int].0],
                ));
            }
            match ref_location_of(&ploc, &path_entries[i].1) {
                Ok(Some(t)) => {
                    let ghost pre = locs_view(out@);
                    let ghost tv = t@;
                    out.push(t);
                    proof {
                        assert(locs_view(out@) =~~= pre.push(tv));
                        if let Ok(vs2) = paths_refs(self.location_view(), pv, i + 1) {
                            assert(paths_refs(self.location_view(), pv, i as int) == Ok::<
                                Seq<LocationView>,
                                DocumentError,
                            >(seq![tv] + vs2));
                            assert(pre + (seq![tv] + vs2) =~~= pre.push(tv) + vs2);
                        }
                    }
                },
                Ok(None) => {
                    let ghost pre = locs_view(out@);
                    match collect_path_refs(&ploc, &path_entries[i].1, &mut out) {
                        Ok(()) => {
                            proof {
                                let a = path_refs(ploc@, pv[i as int].1)->Ok_0;
                                assert(locs_view(out@) =~~= pre + a);
                                if let Ok(vs2) = paths_refs(self.location_view(), pv, i + 1) {
                                    assert(paths_refs(self.location_view(), pv, i as int) == Ok::<
                                        Seq<LocationView>,
                                        DocumentError,
                                    >(a + vs2));
                                    assert(pre + (a + vs2) =~~= (pre + a) + vs2);
                                }
                            }
                        },
                        Err(e) => {
                            return Err(e);
                        },
                    }
                },
                Err(e) => {
                    return Err(e);
                },
            }
            i += 1;
        }
        proof {
            assert(paths_refs(self.location_view(), pv, n as int) == Ok::<
                Seq<LocationView>,
                DocumentError,
            >(Seq::empty()));
            if let Ok(all) = paths_refs(self.location_view(), pv, 0) {
                assert(locs_view(out@) + Seq::<LocationView>::empty() =~~= locs_view(out@));
            }
        }
        Ok(out)
    }

    /// The locations of every schema-bearing position of the document:
    /// parameter schemas, response-header schemas and response body
    /// schemas, in walk order. The positions are collected, not
    /// resolved: this is the hand-off to the external schema compiler.
    pub fn get_schema_locations(&self, cache: &NodeCache) -> (r: Result<
        Vec<NodeLocation>,
        DocumentError,
    >)
        requires
            cache.wf(),
        ensures
            !cache@.contains_key(self.location_view()) ==> r == Err::<
                Vec<NodeLocation>,
                DocumentError,
            >(DocumentError::NodeNotFound),
            cache@.contains_key(self.location_view()) ==> (r matches Ok(v) && locs_view(v@)
                == schema_locations_spec(self.location_view(), cache@[self.location_view()])),
    {
        proof {
            reveal_strlit("paths");
            assert("paths"@ =~= paths_key());
        }
        let api_node = match cache.get_node(&self.retrieval_location) {
            Some(n) => n.clone(),
            None => {
                return Err(DocumentError::NodeNotFound);
            },
        };
        let ghost pv = member_entries(api_node@, paths_key());
        let mut out: Vec<NodeLocation> = Vec::new();
        let paths = match api_node.get("paths") {
            Some(m) => m,
            None => {
                proof {
                    assert(pv =~~= Seq::<(Seq<char>, NodeView)>::empty());
                    assert(locs_view(out@) =~~= Seq::<LocationView>::empty());
                }
                return Ok(out);
            },
        };
        let path_entries = match crate::nodes30::object_entries(paths) {
            Some(e) => e,
            None => {
                proof {
                    assert(pv =~~= Seq::<(Seq<char>, NodeView)>::empty());
                    assert(locs_view(out@) =~~= Seq::<LocationView>::empty());
                }
                return Ok(out);
            },
        };
        proof {
            crate::node::lemma_entries_view(path_entries@, 0);
            assert(pv == crate::node::entries_view_from(path_entries@, 0));
        }
        let n = path_entries.len();
        let mut i: usize = 0;
        proof {
            assert(locs_view(out@) + paths_schemas(self.location_view(), pv, 0) =~~= paths_schemas(
                self.location_view(),
                pv,
                0,
            ));
        }
        while i < n
            invariant
                i <= n,
                n == path_entries@.len(),
                pv.len() == n,
                forall|j: int|
                    0 <= j < n ==> pv[j] == ((#[trigger] path_entries@[j]).0@,
                    crate::node::node_view(path_entries@[j].1)),
                paths_schemas(self.location_view(), pv, 0) == locs_view(out@) + paths_schemas(
                    self.location_view(),
                    pv,
                    i as int,
                ),
            decreases n - i,
        {
            if reference_of(&path_entries[i].1).is_none() {
                let ploc = self.retrieval_location.push_pointer(
                    seg_pair("paths", &path_entries[i].0),
                );
                proof {
                    reveal_strlit("paths");
                    assert(ploc@ =~~= push_loc(
                        self.location_view(),
                        seq![paths_key(), pv[i as int].0],
                    ));
                }
                let ghost pre = locs_view(out@);
                collect_path_schemas(&ploc, &path_entries[i].1, &mut out);
                proof {
                    let a = path_schemas(ploc@, pv[i as int].1);
                    assert(locs_view(out@) =~~= pre + a);
                    assert(paths_schemas(self.location_view(), pv, i as int) == a
                        + paths_schemas(self.location_view(), pv, i + 1));
                    assert(pre + (a + paths_schemas(self.location_view(), pv, i + 1)) =~~= (pre
                        + a) + paths_schemas(self.location_view(), pv, i + 1));
                }
            } else {
                proof {
                    assert(paths_schemas(self.location_view(), pv, i as int) == paths_schemas(
                        self.location_view(),
                        pv,
                        i + 1,
                    ));
                }
            }
            i += 1;
        }
        proof {
            assert(paths_schemas(self.location_view(), pv, n as int) =~~= Seq::<
                LocationView,
            >::empty());
            assert(locs_view(out@) + Seq::<LocationView>::empty() =~~= locs_view(out@));
        }
        Ok(out)
    }
}

/// Collects the resolved `$ref` targets of a node's `parameters` list.
fn collect_list_refs(base: &NodeLocation, node: &Node, out: &mut Vec<NodeLocation>) -> (r: Result<
    (),
    DocumentError,
>)
    ensures
        match param_list_refs(base@, param_items(node@), 0) {
            Ok(vs) => r is Ok && locs_view(final(out)@) == locs_view(old(out)@) + vs,
            Err(e) => r == Err::<(), DocumentError>(e),
        },
{
    proof {
        reveal_strlit("parameters");
        assert("parameters"@ =~= parameters_key());
    }
    let member = match node.get("parameters") {
        Some(m) => m,
        None => {
            proof {
                assert(param_items(node@) =~~= Seq::<NodeView>::empty());
                assert(locs_view(out@) + Seq::<LocationView>::empty() =~~= locs_view(out@));
            }
            return Ok(());
        },
    };
    let items = match crate::nodes30::array_items(member) {
        Some(v) => v,
        None => {
            proof {
                assert(param_items(node@) =~~= Seq::<NodeView>::empty());
                assert(locs_view(out@) + Seq::<LocationView>::empty() =~~= locs_view(out@));
            }
            return Ok(());
        },
    };
    let ghost iv = crate::node::items_view_from(items@, 0);
    proof {
        crate::node::lemma_items_view(items@, 0);
        assert(iv == param_items(node@));
    }
    let n = items.len();
    let mut i: usize = 0;
    let ghost base_len = locs_view(old(out)@).len() as int;
    proof {
        if let Ok(vs) = param_list_refs(base@, iv, 0) {
            assert(locs_view(out@).skip(base_len) + vs =~~= vs);
        }
        assert(locs_view(out@).take(base_len) =~~= locs_view(old(out)@));
    }
    while i < n
        invariant
            i <= n,
            n == items@.len(),
            iv == param_items(node@),
            iv.len() == n,
            forall|j: int| 0 <= j < n ==> iv[j] == crate::node::node_view(#[trigger] items@[j]),
            base_len == locs_view(old(out)@).len() as int,
            out@.len() >= base_len,
            locs_view(out@).take(base_len) == locs_view(old(out)@),
            match param_list_refs(base@, iv, i as int) {
                Ok(vs) => param_list_refs(base@, iv, 0) matches Ok(all) && all == locs_view(
                    out@,
                ).skip(base_len) + vs,
                Err(e) => param_list_refs(base@, iv, 0) == Err::<Seq<LocationView>, DocumentError>(
                    e,
                ),
            },
        decreases n - i,
    {
        let mut pointer: Vec<String> = Vec::new();
        pointer.push("parameters".to_owned());
        pointer.push(crate::node::index_string(i));
        proof {
            reveal_strlit("parameters");
            assert("parameters"@ =~= parameters_key());
            assert(pointer.deep_view() =~~= seq![
                parameters_key(),
                crate::node::dec_str(i as nat),
            ]);
        }
        let loc = base.push_pointer(pointer);
        proof {
            assert(loc@ =~~= push_loc(
                base@,
                seq![parameters_key(), crate::node::dec_str(i as nat)],
            ));
        }
        match ref_location_of(&loc, &items[i]) {
            Ok(Some(t)) => {
                let ghost pre = locs_view(out@);
                let ghost tv = t@;
                out.push(t);
                proof {
                    assert(locs_view(out@) =~~= pre.push(tv));
                    assert(locs_view(out@).take(base_len) =~~= pre.take(base_len));
                    if let Ok(vs2) = param_list_refs(base@, iv, i + 1) {
                        assert(param_list_refs(base@, iv, i as int) == Ok::<
                            Seq<LocationView>,
                            DocumentError,
                        >(seq![tv] + vs2));
                        assert(pre.skip(base_len) + (seq![tv] + vs2) =~~= pre.push(tv).skip(
                            base_len,
                        ) + vs2);
                    }
                }
            },
            Ok(None) => {
                proof {
                    assert(param_list_refs(base@, iv, i as int) == param_list_refs(
                        base@,
                        iv,
                        i + 1,
                    ));
                }
            },
            Err(e) => {
                return Err(e);
            },
        }
        i += 1;
    }
    proof {
        assert(param_list_refs(base@, iv, n as int) == Ok::<Seq<LocationView>, DocumentError>(
            Seq::empty(),
        ));
        if let Ok(all) = param_list_refs(base@, iv, 0) {
            assert(locs_view(out@).skip(base_len) + Seq::<LocationView>::empty() =~~= locs_view(
                out@,
            ).skip(base_len));
            assert(locs_view(out@) =~~= locs_view(out@).take(base_len) + locs_view(out@).skip(
                base_len,
            ));
            assert(locs_view(out@) =~~= locs_view(old(out)@) + all);
        }
    }
    Ok(())
}

/// Collects the resolved `$ref` targets of a response's headers.
fn collect_header_refs(rloc: &NodeLocation, rnode: &Node, out: &mut Vec<NodeLocation>) -> (r:
    Result<(), DocumentError>)
    ensures
        match header_refs(rloc@, member_entries(rnode@, headers_key()), 0) {
            Ok(vs) => r is Ok && locs_view(final(out)@) == locs_view(old(out)@) + vs,
            Err(e) => r == Err::<(), DocumentError>(e),
        },
{
    proof {
        reveal_strlit("headers");
        assert("headers"@ =~= headers_key());
    }
    let ghost hv = member_entries(rnode@, headers_key());
    let member = match rnode.get("headers") {
        Some(m) => m,
        None => {
            proof {
                assert(hv =~~= Seq::<(Seq<char>, NodeView)>::empty());
                assert(locs_view(out@) + Seq::<LocationView>::empty() =~~= locs_view(out@));
            }
            return Ok(());
        },
    };
    let entries = match crate::nodes30::object_entries(member) {
        Some(e) => e,
        None => {
            proof {
                assert(hv =~~= Seq::<(Seq<char>, NodeView)>::empty());
                assert(locs_view(out@) + Seq::<LocationView>::empty() =~~= locs_view(out@));
            }
            return Ok(());
        },
    };
    proof {
        crate::node::lemma_entries_view(entries@, 0);
        assert(hv == crate::node::entries_view_from(entries@, 0));
    }
    let n = entries.len();
    let mut i: usize = 0;
    let ghost base_len = locs_view(old(out)@).len() as int;
    proof {
        if let Ok(vs) = header_refs(rloc@, hv, 0) {
            assert(locs_view(out@).skip(base_len) + vs =~~= vs);
        }
        assert(locs_view(out@).take(base_len) =~~= locs_view(old(out)@));
    }
    while i < n
        invariant
            i <= n,
            n == entries@.len(),
            hv == member_entries(rnode@, headers_key()),
            hv.len() == n,
            forall|j: int|
                0 <= j < n ==> hv[j] == ((#[trigger] entries@[j]).0@, crate::node::node_view(
                    entries@[j].1,
                )),
            base_len == locs_view(old(out)@).len() as int,
            out@.len() >= base_len,
            locs_view(out@).take(base_len) == locs_view(old(out)@),
            match header_refs(rloc@, hv, i as int) {
                Ok(vs) => header_refs(rloc@, hv, 0) matches Ok(all) && all == locs_view(
                    out@,
                ).skip(base_len) + vs,
                Err(e) => header_refs(rloc@, hv, 0) == Err::<Seq<LocationView>, DocumentError>(e),
            },
        decreases n - i,
    {
        let hloc = rloc.push_pointer(seg_pair("headers", &entries[i].0));
        proof {
            reveal_strlit("headers");
            assert(hloc@ =~~= push_loc(rloc@, seq![headers_key(), hv[i as int].0]));
        }
        match ref_location_of(&hloc, &entries[i].1) {
            Ok(Some(t)) => {
                let ghost pre = locs_view(out@);
                let ghost tv = t@;
                out.push(t);
                proof {
                    assert(locs_view(out@) =~~= pre.push(tv));
                    assert(locs_view(out@).take(base_len) =~~= pre.take(base_len));
                    if let Ok(vs2) = header_refs(rloc@, hv, i + 1) {
                        assert(header_refs(rloc@, hv, i as int) == Ok::<
                            Seq<LocationView>,
                            DocumentError,
                        >(seq![tv] + vs2));
                        assert(pre.skip(base_len) + (seq![tv] + vs2) =~~= pre.push(tv).skip(
                            base_len,
                        ) + vs2);
                    }
                }
            },
            Ok(None) => {
                proof {
                    assert(header_refs(rloc@, hv, i as int) == header_refs(rloc@, hv, i + 1));
                }
            },
            Err(e) => {
                return Err(e);
            },
        }
        i += 1;
    }
    proof {
        assert(header_refs(rloc@, hv, n as int) == Ok::<Seq<LocationView>, DocumentError>(
            Seq::empty(),
        ));
        if let Ok(all) = header_refs(rloc@, hv, 0) {
            assert(locs_view(out@).skip(base_len) + Seq::<LocationView>::empty() =~~= locs_view(
                out@,
            ).skip(base_len));
            assert(locs_view(out@) =~~= locs_view(out@).take(base_len) + locs_view(out@).skip(
                base_len,
            ));
            assert(locs_view(out@) =~~= locs_view(old(out)@) + all);
        }
    }
    Ok(())
}

/// Collects the resolved `$ref` targets of an operation: its parameters,
/// its responses, and the headers of its non-reference responses.
fn collect_operation_refs(oloc: &NodeLocation, op_node: &Node, out: &mut Vec<NodeLocation>) -> (r:
    Result<(), DocumentError>)
    ensures
        match operation_refs(oloc@, op_node@) {
            Ok(vs) => r is Ok && locs_view(final(out)@) == locs_view(old(out)@) + vs,
            Err(e) => r == Err::<(), DocumentError>(e),
        },
{
    proof {
        reveal_strlit("responses");
        assert("responses"@ =~= responses_key());
    }
    match collect_list_refs(oloc, op_node, out) {
        Ok(()) => {},
        Err(e) => {
            return Err(e);
        },
    }
    let ghost pa = param_list_refs(oloc@, param_items(op_node@), 0)->Ok_0;
    let ghost rv = member_entries(op_node@, responses_key());
    let member = match op_node.get("responses") {
        Some(m) => m,
        None => {
            proof {
                assert(rv =~~= Seq::<(Seq<char>, NodeView)>::empty());
                assert(pa + Seq::<LocationView>::empty() =~~= pa);
            }
            return Ok(());
        },
    };
    let entries = match crate::nodes30::object_entries(member) {
        Some(e) => e,
        None => {
            proof {
                assert(rv =~~= Seq::<(Seq<char>, NodeView)>::empty());
                assert(pa + Seq::<LocationView>::empty() =~~= pa);
            }
            return Ok(());
        },
    };
    proof {
        crate::node::lemma_entries_view(entries@, 0);
        assert(rv == crate::node::entries_view_from(entries@, 0));
    }
    let n = entries.len();
    let mut i: usize = 0;
    let ghost base_len = locs_view(old(out)@).len() as int;
    let ghost part_len = locs_view(out@).len() as int;
    proof {
        if let Ok(vs) = response_refs(oloc@, rv, 0) {
            assert(locs_view(out@).skip(part_len) + vs =~~= vs);
        }
        assert(locs_view(out@).take(part_len) =~~= locs_view(out@));
    }
    while i < n
        invariant
            i <= n,
            n == entries@.len(),
            rv == member_entries(op_node@, responses_key()),
            param_list_refs(oloc@, param_items(op_node@), 0) == Ok::<
                Seq<LocationView>,
                DocumentError,
            >(pa),
            rv.len() == n,
            forall|j: int|
                0 <= j < n ==> rv[j] == ((#[trigger] entries@[j]).0@, crate::node::node_view(
                    entries@[j].1,
                )),
            base_len == locs_view(old(out)@).len() as int,
            part_len >= base_len,
            out@.len() >= part_len,
            locs_view(out@).take(part_len) == locs_view(old(out)@) + pa,
            match response_refs(oloc@, rv, i as int) {
                Ok(vs) => response_refs(oloc@, rv, 0) matches Ok(all) && all == locs_view(
                    out@,
                ).skip(part_len) + vs,
                Err(e) => response_refs(oloc@, rv, 0) == Err::<Seq<LocationView>, DocumentError>(
                    e,
                ),
            },
        decreases n - i,
    {
        let rloc = oloc.push_pointer(seg_pair("responses", &entries[i].0));
        proof {
            reveal_strlit("responses");
            assert(rloc@ =~~= push_loc(oloc@, seq![responses_key(), rv[i as int].0]));
        }
        match ref_location_of(&rloc, &entries[i].1) {
            Ok(Some(t)) => {
                let ghost pre = locs_view(out@);
                let ghost tv = t@;
                out.push(t);
                proof {
                    assert(locs_view(out@) =~~= pre.push(tv));
                    assert(locs_view(out@).take(part_len) =~~= pre.take(part_len));
                    if let Ok(vs2) = response_refs(oloc@, rv, i + 1) {
                        assert(response_refs(oloc@, rv, i as int) == Ok::<
                            Seq<LocationView>,
                            DocumentError,
                        >(seq![tv] + vs2));
                        assert(pre.skip(part_len) + (seq![tv] + vs2) =~~= pre.push(tv).skip(
                            part_len,
                        ) + vs2);
                    }
                }
            },
            Ok(None) => {
                let ghost pre = locs_view(out@);
                match collect_header_refs(&rloc, &entries[i].1, out) {
                    Ok(()) => {
                        proof {
                            let ha = header_refs(
                                rloc@,
                                member_entries(rv[i as int].1, headers_key()),
                                0,
                            )->Ok_0;
                            assert(locs_view(out@) =~~= pre + ha);
                            assert(locs_view(out@).take(part_len) =~~= pre.take(part_len));
                            if let Ok(vs2) = response_refs(oloc@, rv, i + 1) {
                                assert(response_refs(oloc@, rv, i as int) == Ok::<
                                    Seq<LocationView>,
                                    DocumentError,
                                >(ha + vs2));
                                assert(pre.skip(part_len) + (ha + vs2) =~~= (pre + ha).skip(
                                    part_len,
                                ) + vs2);
                            }
                        }
                    },
                    Err(e) => {
                        return Err(e);
                    },
                }
            },
            Err(e) => {
                return Err(e);
            },
        }
        i += 1;
    }
    proof {
        assert(response_refs(oloc@, rv, n as int) == Ok::<Seq<LocationView>, DocumentError>(
            Seq::empty(),
        ));
        if let Ok(all) = response_refs(oloc@, rv, 0) {
            assert(locs_view(out@).skip(part_len) + Seq::<LocationView>::empty() =~~= locs_view(
                out@,
            ).skip(part_len));
            assert(locs_view(out@) =~~= locs_view(out@).take(part_len) + locs_view(out@).skip(
                part_len,
            ));
            assert(locs_view(out@) =~~= (locs_view(old(out)@) + pa) + all);
            assert((locs_view(old(out)@) + pa) + all =~~= locs_view(old(out)@) + (pa + all));
        }
    }
    Ok(())
}

/// Collects the resolved `$ref` targets of one path item: its parameter
/// list, then its method-keyed operations.
fn collect_path_refs(ploc: &NodeLocation, path_node: &Node, out: &mut Vec<NodeLocation>) -> (r:
    Result<(), DocumentError>)
    ensures
        match path_refs(ploc@, path_node@) {
            Ok(vs) => r is Ok && locs_view(final(out)@) == locs_view(old(out)@) + vs,
            Err(e) => r == Err::<(), DocumentError>(e),
        },
{
    match collect_list_refs(ploc, path_node, out) {
        Ok(()) => {},
        Err(e) => {
            return Err(e);
        },
    }
    let ghost pa = param_list_refs(ploc@, param_items(path_node@), 0)->Ok_0;
    let entries = match crate::nodes30::object_entries(path_node) {
        Some(e) => e,
        None => {
            proof {
                assert(pa + Seq::<LocationView>::empty() =~~= pa);
            }
            return Ok(());
        },
    };
    let ghost ev = crate::node::entries_view_from(entries@, 0);
    proof {
        crate::node::lemma_entries_view(entries@, 0);
        if let NodeView::Object(e) = path_node@ {
            assert(ev == e);
        }
    }
    let n = entries.len();
    let mut i: usize = 0;
    let ghost part_len = locs_view(out@).len() as int;
    proof {
        if let Ok(vs) = path_entry_ops_refs(ploc@, ev, 0) {
            assert(locs_view(out@).skip(part_len) + vs =~~= vs);
        }
        assert(locs_view(out@).take(part_len) =~~= locs_view(out@));
    }
    while i < n
        invariant
            i <= n,
            n == entries@.len(),
            path_node@ == crate::node::NodeView::Object(ev),
            param_list_refs(ploc@, param_items(path_node@), 0) == Ok::<
                Seq<LocationView>,
                DocumentError,
            >(pa),
            ev.len() == n,
            forall|j: int|
                0 <= j < n ==> ev[j] == ((#[trigger] entries@[j]).0@, crate::node::node_view(
                    entries@[j].1,
                )),
            part_len >= 0,
            out@.len() >= part_len,
            locs_view(out@).take(part_len) == locs_view(old(out)@) + pa,
            match path_entry_ops_refs(ploc@, ev, i as int) {
                Ok(vs) => path_entry_ops_refs(ploc@, ev, 0) matches Ok(all) && all == locs_view(
                    out@,
                ).skip(part_len) + vs,
                Err(e) => path_entry_ops_refs(ploc@, ev, 0) == Err::<
                    Seq<LocationView>,
                    DocumentError,
                >(e),
            },
        decreases n - i,
    {
        match crate::method::Method::parse(entries[i].0.as_str()) {
            Ok(_) => {
                let mut pointer: Vec<String> = Vec::new();
                pointer.push(entries[i].0.clone());
                proof {
                    assert(pointer.deep_view() =~~= seq![ev[i as int].0]);
                }
                let oloc = ploc.push_pointer(pointer);
                proof {
                    assert(oloc@ =~~= push_loc(ploc@, seq![ev[i as int].0]));
                }
                let ghost pre = locs_view(out@);
                match collect_operation_refs(&oloc, &entries[i].1, out) {
                    Ok(()) => {
                        proof {
                            let a = operation_refs(oloc@, ev[i as int].1)->Ok_0;
                            assert(locs_view(out@) =~~= pre + a);
                            assert(locs_view(out@).take(part_len) =~~= pre.take(part_len));
                            if let Ok(vs2) = path_entry_ops_refs(ploc@, ev, i + 1) {
                                assert(path_entry_ops_refs(ploc@, ev, i as int) == Ok::<
                                    Seq<LocationView>,
                                    DocumentError,
                                >(a + vs2));
                                assert(pre.skip(part_len) + (a + vs2) =~~= (pre + a).skip(
                                    part_len,
                                ) + vs2);
                            }
                        }
                    },
                    Err(e) => {
                        return Err(e);
                    },
                }
            },
            Err(_) => {
                proof {
                    assert(path_entry_ops_refs(ploc@, ev, i as int) == path_entry_ops_refs(
                        ploc@,
                        ev,
                        i + 1,
                    ));
                }
            },
        }
        i += 1;
    }
    proof {
        assert(path_entry_ops_refs(ploc@, ev, n as int) == Ok::<Seq<LocationView>, DocumentError>(
            Seq::empty(),
        ));
        if let Ok(all) = path_entry_ops_refs(ploc@, ev, 0) {
            assert(locs_view(out@).skip(part_len) + Seq::<LocationView>::empty() =~~= locs_view(
                out@,
            ).skip(part_len));
            assert(locs_view(out@) =~~= locs_view(out@).take(part_len) + locs_view(out@).skip(
                part_len,
            ));
            assert(locs_view(out@) =~~= (locs_view(old(out)@) + pa) + all);
            assert((locs_view(old(out)@) + pa) + all =~~= locs_view(old(out)@) + (pa + all));
        }
    }
    Ok(())
}

/// Collects the schema locations of a node's non-reference `parameters`.
fn collect_list_schemas(base: &NodeLocation, node: &Node, out: &mut Vec<NodeLocation>)
    ensures
        locs_view(final(out)@) == locs_view(old(out)@) + param_list_schemas(
            base@,
            param_items(node@),
            0,
        ),
{
    proof {
        reveal_strlit("parameters");
        assert("parameters"@ =~= parameters_key());
    }
    let member = match node.get("parameters") {
        Some(m) => m,
        None => {
            proof {
                assert(param_items(node@) =~~= Seq::<NodeView>::empty());
                assert(locs_view(out@) + Seq::<LocationView>::empty() =~~= locs_view(out@));
            }
            return ;
        },
    };
    let items = match crate::nodes30::array_items(member) {
        Some(v) => v,
        None => {
            proof {
                assert(param_items(node@) =~~= Seq::<NodeView>::empty());
                assert(locs_view(out@) + Seq::<LocationView>::empty() =~~= locs_view(out@));
            }
            return ;
        },
    };
    let ghost iv = crate::node::items_view_from(items@, 0);
    proof {
        crate::node::lemma_items_view(items@, 0);
        assert(iv == param_items(node@));
    }
    let n = items.len();
    let mut i: usize = 0;
    let ghost base_len = locs_view(old(out)@).len() as int;
    proof {
        assert(locs_view(out@).skip(base_len) + param_list_schemas(base@, iv, 0)
            =~~= param_list_schemas(base@, iv, 0));
        assert(locs_view(out@).take(base_len) =~~= locs_view(old(out)@));
    }
    while i < n
        invariant
            i <= n,
            n == items@.len(),
            iv == param_items(node@),
            iv.len() == n,
            forall|j: int| 0 <= j < n ==> iv[j] == crate::node::node_view(#[trigger] items@[j]),
            base_len == locs_view(old(out)@).len() as int,
            out@.len() >= base_len,
            locs_view(out@).take(base_len) == locs_view(old(out)@),
            param_list_schemas(base@, iv, 0) == locs_view(out@).skip(base_len)
                + param_list_schemas(base@, iv, i as int),
        decreases n - i,
    {
        let is_reference = reference_of(&items[i]).is_some();
        if !is_reference {
            match crate::nodes30::schema_pointer_of(&items[i]) {
                Some(pointer) => {
                    let mut segs: Vec<String> = Vec::new();
                    segs.push("parameters".to_owned());
                    segs.push(crate::node::index_string(i));
                    let ghost pdv = pointer.deep_view();
                    let ghost pv0 = pointer@;
                    let mut rest = pointer;
                    segs.append(&mut rest);
                    proof {
                        reveal_strlit("parameters");
                        assert("parameters"@ =~= parameters_key());
                        assert(pdv.len() == 1 && pdv.len() == pv0.len());
                        assert(segs@.len() == 3);
                        assert(segs@[2] == pv0[0]);
                        assert(pv0[0]@ == pdv[0]);
                        assert(pdv[0] == crate::nodes30::schema_key());
                        assert(segs.deep_view() =~~= seq![
                            parameters_key(),
                            crate::node::dec_str(i as nat),
                            crate::nodes30::schema_key(),
                        ]);
                    }
                    let loc = base.push_pointer(segs);
                    let ghost pre = locs_view(out@);
                    let ghost tv = loc@;
                    proof {
                        assert(tv =~~= push_loc(
                            base@,
                            seq![
                                parameters_key(),
                                crate::node::dec_str(i as nat),
                                crate::nodes30::schema_key(),
                            ],
                        ));
                    }
                    out.push(loc);
                    proof {
                        assert(locs_view(out@) =~~= pre.push(tv));
                        assert(locs_view(out@).take(base_len) =~~= pre.take(base_len));
                        assert(param_list_schemas(base@, iv, i as int) == seq![tv]
                            + param_list_schemas(base@, iv, i + 1));
                        assert(pre.skip(base_len) + (seq![tv] + param_list_schemas(
                            base@,
                            iv,
                            i + 1,
                        )) =~~= pre.push(tv).skip(base_len) + param_list_schemas(
                            base@,
                            iv,
                            i + 1,
                        ));
                    }
                },
                None => {
                    proof {
                        assert(param_list_schemas(base@, iv, i as int) == param_list_schemas(
                            base@,
                            iv,
                            i + 1,
                        ));
                    }
                },
            }
        } else {
            proof {
                assert(param_list_schemas(base@, iv, i as int) == param_list_schemas(
                    base@,
                    iv,
                    i + 1,
                ));
            }
        }
        i += 1;
    }
    proof {
        assert(param_list_schemas(base@, iv, n as int) =~~= Seq::<LocationView>::empty());
        assert(locs_view(out@).skip(base_len) + Seq::<LocationView>::empty() =~~= locs_view(
            out@,
        ).skip(base_len));
        assert(locs_view(out@) =~~= locs_view(out@).take(base_len) + locs_view(out@).skip(
            base_len,
        ));
    }
}

/// Collects the schema locations of a member object's entries under a
/// fixed leading segment: the non-reference entries that declare a
/// `schema` member, skipping references only when `skip_refs` is set.
fn collect_keyed_schemas(
    rloc: &NodeLocation,
    member_node: Option<&Node>,
    segment: &str,
    skip_refs: bool,
    out: &mut Vec<NodeLocation>,
)
    requires
        segment@ == headers_key() || segment@ == content_key(),
    ensures
        ({
            let entries = match member_node {
                Some(m) => match m@ {
                    NodeView::Object(e) => e,
                    _ => Seq::empty(),
                },
                None => Seq::empty(),
            };
            (segment@ == headers_key() && skip_refs) ==> locs_view(final(out)@) == locs_view(
                old(out)@,
            ) + header_schemas(rloc@, entries, 0)
        }),
        ({
            let entries = match member_node {
                Some(m) => match m@ {
                    NodeView::Object(e) => e,
                    _ => Seq::empty(),
                },
                None => Seq::empty(),
            };
            (segment@ == content_key() && !skip_refs) ==> locs_view(final(out)@) == locs_view(
                old(out)@,
            ) + body_schemas(rloc@, entries, 0)
        }),
{
    let member = match member_node {
        Some(m) => m,
        None => {
            proof {
                assert(locs_view(out@) + header_schemas(rloc@, Seq::empty(), 0) =~~= locs_view(
                    out@,
                ));
                assert(locs_view(out@) + body_schemas(rloc@, Seq::empty(), 0) =~~= locs_view(
                    out@,
                ));
            }
            return ;
        },
    };
    let entries = match crate::nodes30::object_entries(member) {
        Some(e) => e,
        None => {
            proof {
                assert(locs_view(out@) + header_schemas(rloc@, Seq::empty(), 0) =~~= locs_view(
                    out@,
                ));
                assert(locs_view(out@) + body_schemas(rloc@, Seq::empty(), 0) =~~= locs_view(
                    out@,
                ));
            }
            return ;
        },
    };
    let ghost ev = crate::node::entries_view_from(entries@, 0);
    proof {
        crate::node::lemma_entries_view(entries@, 0);
        if let NodeView::Object(e) = member@ {
            assert(ev == e);
        }
    }
    let n = entries.len();
    let mut i: usize = 0;
    let ghost base_len = locs_view(old(out)@).len() as int;
    proof {
        assert(locs_view(out@).skip(base_len) + header_schemas(rloc@, ev, 0) =~~= header_schemas(
            rloc@,
            ev,
            0,
        ));
        assert(locs_view(out@).skip(base_len) + body_schemas(rloc@, ev, 0) =~~= body_schemas(
            rloc@,
            ev,
            0,
        ));
        assert(locs_view(out@).take(base_len) =~~= locs_view(old(out)@));
    }
    while i < n
        invariant
            i <= n,
            n == entries@.len(),
            segment@ == headers_key() || segment@ == content_key(),
            ev.len() == n,
            forall|j: int|
                0 <= j < n ==> ev[j] == ((#[trigger] entries@[j]).0@, crate::node::node_view(
                    entries@[j].1,
                )),
            base_len == locs_view(old(out)@).len() as int,
            out@.len() >= base_len,
            locs_view(out@).take(base_len) == locs_view(old(out)@),
            (segment@ == headers_key() && skip_refs) ==> header_schemas(rloc@, ev, 0)
                == locs_view(out@).skip(base_len) + header_schemas(rloc@, ev, i as int),
            (segment@ == content_key() && !skip_refs) ==> body_schemas(rloc@, ev, 0) == locs_view(
                out@,
            ).skip(base_len) + body_schemas(rloc@, ev, i as int),
        decreases n - i,
    {
        let skipped = skip_refs && reference_of(&entries[i].1).is_some();
        if !skipped {
            match crate::nodes30::schema_pointer_of(&entries[i].1) {
                Some(pointer) => {
                    let mut segs = seg_pair(segment, &entries[i].0);
                    proof {
                        assert(segs.deep_view().len() == 2);
                        assert(segs@.len() == 2);
                    }
                    let ghost pdv = pointer.deep_view();
                    let ghost pv0 = pointer@;
                    let mut rest = pointer;
                    segs.append(&mut rest);
                    proof {
                        assert(pdv.len() == 1 && pdv.len() == pv0.len());
                        assert(segs@.len() == 3);
                        assert(segs@[2] == pv0[0]);
                        assert(pv0[0]@ == pdv[0]);
                        assert(pdv[0] == crate::nodes30::schema_key());
                        assert(segs.deep_view() =~~= seq![
                            segment@,
                            ev[i as int].0,
                            crate::nodes30::schema_key(),
                        ]);
                    }
                    let loc = rloc.push_pointer(segs);
                    let ghost pre = locs_view(out@);
                    let ghost tv = loc@;
                    proof {
                        assert(tv =~~= push_loc(
                            rloc@,
                            seq![segment@, ev[i as int].0, crate::nodes30::schema_key()],
                        ));
                    }
                    out.push(loc);
                    proof {
                        assert(locs_view(out@) =~~= pre.push(tv));
                        assert(locs_view(out@).take(base_len) =~~= pre.take(base_len));
                        if segment@ == headers_key() && skip_refs {
                            assert(header_schemas(rloc@, ev, i as int) == seq![tv]
                                + header_schemas(rloc@, ev, i + 1));
                            assert(pre.skip(base_len) + (seq![tv] + header_schemas(
                                rloc@,
                                ev,
                                i + 1,
                            )) =~~= pre.push(tv).skip(base_len) + header_schemas(
                                rloc@,
                                ev,
                                i + 1,
                            ));
                        }
                        if segment@ == content_key() && !skip_refs {
                            assert(body_schemas(rloc@, ev, i as int) == seq![tv] + body_schemas(
                                rloc@,
                                ev,
                                i + 1,
                            ));
                            assert(pre.skip(base_len) + (seq![tv] + body_schemas(
                                rloc@,
                                ev,
                                i + 1,
                            )) =~~= pre.push(tv).skip(base_len) + body_schemas(rloc@, ev, i + 1));
                        }
                    }
                },
                None => {
                    proof {
                        if segment@ == headers_key() && skip_refs {
                            assert(header_schemas(rloc@, ev, i as int) == header_schemas(
                                rloc@,
                                ev,
                                i + 1,
                            ));
                        }
                        if segment@ == content_key() && !skip_refs {
                            assert(body_schemas(rloc@, ev, i as int) == body_schemas(
                                rloc@,
                                ev,
                                i + 1,
                            ));
                        }
                    }
                },
            }
        } else {
            proof {
                if segment@ == headers_key() && skip_refs {
                    assert(header_schemas(rloc@, ev, i as int) == header_schemas(
                        rloc@,
                        ev,
                        i + 1,
                    ));
                }
            }
        }
        i += 1;
    }
    proof {
        assert(header_schemas(rloc@, ev, n as int) =~~= Seq::<LocationView>::empty());
        assert(body_schemas(rloc@, ev, n as int) =~~= Seq::<LocationView>::empty());
        assert(locs_view(out@).skip(base_len) + Seq::<LocationView>::empty() =~~= locs_view(
            out@,
        ).skip(base_len));
        assert(locs_view(out@) =~~= locs_view(out@).take(base_len) + locs_view(out@).skip(
            base_len,
        ));
    }
}

/// Collects the schema locations of one operation: its parameters, then
/// per non-reference response its header schemas and body schemas.
fn collect_operation_schemas(oloc: &NodeLocation, op_node: &Node, out: &mut Vec<NodeLocation>)
    ensures
        locs_view(final(out)@) == locs_view(old(out)@) + operation_schemas(oloc@, op_node@),
{
    proof {
        reveal_strlit("responses");
        assert("responses"@ =~= responses_key());
    }
    collect_list_schemas(oloc, op_node, out);
    let ghost pa = param_list_schemas(oloc@, param_items(op_node@), 0);
    let ghost rv = member_entries(op_node@, responses_key());
    let member = match op_node.get("responses") {
        Some(m) => m,
        None => {
            proof {
                assert(rv =~~= Seq::<(Seq<char>, NodeView)>::empty());
                assert(pa + Seq::<LocationView>::empty() =~~= pa);
            }
            return ;
        },
    };
    let entries = match crate::nodes30::object_entries(member) {
        Some(e) => e,
        None => {
            proof {
                assert(rv =~~= Seq::<(Seq<char>, NodeView)>::empty());
                assert(pa + Seq::<LocationView>::empty() =~~= pa);
            }
            return ;
        },
    };
    proof {
        crate::node::lemma_entries_view(entries@, 0);
        assert(rv == crate::node::entries_view_from(entries@, 0));
    }
    let n = entries.len();
    let mut i: usize = 0;
    let ghost part_len = locs_view(out@).len() as int;
    proof {
        assert(locs_view(out@).skip(part_len) + response_schemas(oloc@, rv, 0)
            =~~= response_schemas(oloc@, rv, 0));
        assert(locs_view(out@).take(part_len) =~~= locs_view(out@));
    }
    while i < n
        invariant
            i <= n,
            n == entries@.len(),
            rv == member_entries(op_node@, responses_key()),
            rv.len() == n,
            forall|j: int|
                0 <= j < n ==> rv[j] == ((#[trigger] entries@[j]).0@, crate::node::node_view(
                    entries@[j].1,
                )),
            part_len >= 0,
            out@.len() >= part_len,
            locs_view(out@).take(part_len) == locs_view(old(out)@) + pa,
            response_schemas(oloc@, rv, 0) == locs_view(out@).skip(part_len) + response_schemas(
                oloc@,
                rv,
                i as int,
            ),
        decreases n - i,
    {
        let is_reference = reference_of(&entries[i].1).is_some();
        if !is_reference {
            let rloc = oloc.push_pointer(seg_pair("responses", &entries[i].0));
            proof {
                reveal_strlit("responses");
                reveal_strlit("headers");
                reveal_strlit("content");
                assert("headers"@ =~= headers_key());
                assert("content"@ =~= content_key());
                assert(rloc@ =~~= push_loc(oloc@, seq![responses_key(), rv[i as int].0]));
            }
            let ghost pre = locs_view(out@);
            collect_keyed_schemas(&rloc, entries[i].1.get("headers"), "headers", true, out);
            collect_keyed_schemas(&rloc, entries[i].1.get("content"), "content", false, out);
            proof {
                let ha = header_schemas(rloc@, member_entries(rv[i as int].1, headers_key()), 0);
                let ba = body_schemas(rloc@, member_entries(rv[i as int].1, content_key()), 0);
                assert(locs_view(out@) =~~= (pre + ha) + ba);
                assert(locs_view(out@).take(part_len) =~~= pre.take(part_len));
                assert(response_schemas(oloc@, rv, i as int) == ha + ba + response_schemas(
                    oloc@,
                    rv,
                    i + 1,
                ));
                assert(pre.skip(part_len) + (ha + ba + response_schemas(oloc@, rv, i + 1)) =~~= ((
                pre + ha) + ba).skip(part_len) + response_schemas(oloc@, rv, i + 1));
            }
        } else {
            proof {
                assert(response_schemas(oloc@, rv, i as int) == response_schemas(
                    oloc@,
                    rv,
                    i + 1,
                ));
            }
        }
        i += 1;
    }
    proof {
        assert(response_schemas(oloc@, rv, n as int) =~~= Seq::<LocationView>::empty());
        assert(locs_view(out@).skip(part_len) + Seq::<LocationView>::empty() =~~= locs_view(
            out@,
        ).skip(part_len));
        assert(locs_view(out@) =~~= locs_view(out@).take(part_len) + locs_view(out@).skip(
            part_len,
        ));
        assert(locs_view(out@) =~~= (locs_view(old(out)@) + pa) + response_schemas(
            oloc@,
            rv,
            0,
        ));
        assert((locs_view(old(out)@) + pa) + response_schemas(oloc@, rv, 0) =~~= locs_view(
            old(out)@,
        ) + (pa + response_schemas(oloc@, rv, 0)));
    }
}

/// Collects the schema locations of one path item: its parameter list,
/// then its method-keyed operations.
fn collect_path_schemas(ploc: &NodeLocation, path_node: &Node, out: &mut Vec<NodeLocation>)
    ensures
        locs_view(final(out)@) == locs_view(old(out)@) + path_schemas(ploc@, path_node@),
{
    collect_list_schemas(ploc, path_node, out);
    let ghost pa = param_list_schemas(ploc@, param_items(path_node@), 0);
    let entries = match crate::nodes30::object_entries(path_node) {
        Some(e) => e,
        None => {
            proof {
                assert(pa + Seq::<LocationView>::empty() =~~= pa);
            }
            return ;
        },
    };
    let ghost ev = crate::node::entries_view_from(entries@, 0);
    proof {
        crate::node::lemma_entries_view(entries@, 0);
        if let NodeView::Object(e) = path_node@ {
            assert(ev == e);
        }
    }
    let n = entries.len();
    let mut i: usize = 0;
    let ghost part_len = locs_view(out@).len() as int;
    proof {
        assert(locs_view(out@).skip(part_len) + path_entry_ops_schemas(ploc@, ev, 0)
            =~~= path_entry_ops_schemas(ploc@, ev, 0));
        assert(locs_view(out@).take(part_len) =~~= locs_view(out@));
    }
    while i < n
        invariant
            i <= n,
            n == entries@.len(),
            path_node@ == crate::node::NodeView::Object(ev),
            param_list_schemas(ploc@, param_items(path_node@), 0) == pa,
            ev.len() == n,
            forall|j: int|
                0 <= j < n ==> ev[j] == ((#[trigger] entries@[j]).0@, crate::node::node_view(
                    entries@[j].1,
                )),
            part_len >= 0,
            out@.len() >= part_len,
            locs_view(out@).take(part_len) == locs_view(old(out)@) + pa,
            path_entry_ops_schemas(ploc@, ev, 0) == locs_view(out@).skip(part_len)
                + path_entry_ops_schemas(ploc@, ev, i as int),
        decreases n - i,
    {
        match crate::method::Method::parse(entries[i].0.as_str()) {
            Ok(_) => {
                let mut pointer: Vec<String> = Vec::new();
                pointer.push(entries[i].0.clone());
                proof {
                    assert(pointer.deep_view() =~~= seq![ev[i as int].0]);
                }
                let oloc = ploc.push_pointer(pointer);
                proof {
                    assert(oloc@ =~~= push_loc(ploc@, seq![ev[i as int].0]));
                }
                let ghost pre = locs_view(out@);
                collect_operation_schemas(&oloc, &entries[i].1, out);
                proof {
                    let a = operation_schemas(oloc@, ev[i as int].1);
                    assert(locs_view(out@) =~~= pre + a);
                    assert(locs_view(out@).take(part_len) =~~= pre.take(part_len));
                    assert(path_entry_ops_schemas(ploc@, ev, i as int) == a
                        + path_entry_ops_schemas(ploc@, ev, i + 1));
                    assert(pre.skip(part_len) + (a + path_entry_ops_schemas(ploc@, ev, i + 1))
                        =~~= (pre + a).skip(part_len) + path_entry_ops_schemas(ploc@, ev, i + 1));
                }
            },
            Err(_) => {
                proof {
                    assert(path_entry_ops_schemas(ploc@, ev, i as int) == path_entry_ops_schemas(
                        ploc@,
                        ev,
                        i + 1,
                    ));
                }
            },
        }
        i += 1;
    }
    proof {
        assert(path_entry_ops_schemas(ploc@, ev, n as int) =~~= Seq::<LocationView>::empty());
        assert(locs_view(out@).skip(part_len) + Seq::<LocationView>::empty() =~~= locs_view(
            out@,
        ).skip(part_len));
        assert(locs_view(out@) =~~= locs_view(out@).take(part_len) + locs_view(out@).skip(
            part_len,
        ));
        assert(locs_view(out@) =~~= (locs_view(old(out)@) + pa) + path_entry_ops_schemas(
            ploc@,
            ev,
            0,
        ));
        assert((locs_view(old(out)@) + pa) + path_entry_ops_schemas(ploc@, ev, 0) =~~= locs_view(
            old(out)@,
        ) + (pa + path_entry_ops_schemas(ploc@, ev, 0)));
    }
}

} // verus!
