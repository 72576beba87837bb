//! The dialect-independent model: what the engine compiles every
//! document into, whatever dialect it was written in. All entities are
//! built once during compilation and never change afterwards; external
//! tooling reads them as plain data.

use vstd::prelude::*;

use crate::location::NodeLocation;
use crate::method::Method;
use crate::status::StatusKind;

verus! {

/// A whole compiled API description.
pub struct Api {
    pub location: NodeLocation,
    pub paths: Vec<Path>,
    pub authentication: Vec<Authentication>,
}

/// One path pattern and its operations. The id is assigned by discovery
/// order, starting at one; it is stable only within one compilation run.
pub struct Path {
    pub id: usize,
    pub location: NodeLocation,
    pub pattern: String,
    pub operations: Vec<Operation>,
}

/// One operation of a path: its method, metadata, the parameters visible
/// to it partitioned by where they travel, its request bodies, and its
/// results keyed by status.
pub struct Operation {
    pub location: NodeLocation,
    pub method: Method,
    pub name: String,
    pub summary: Option<String>,
    pub description: Option<String>,
    pub deprecated: bool,
    pub authentication_requirements: Vec<AuthenticationRequirementGroup>,
    pub query_parameters: Vec<Parameter>,
    pub header_parameters: Vec<Parameter>,
    pub path_parameters: Vec<Parameter>,
    pub cookie_parameters: Vec<Parameter>,
    pub bodies: Vec<Body>,
    pub operation_results: Vec<OperationResult>,
}

/// One response of an operation. `status_codes` is the resolved, disjoint
/// set of HTTP codes this result owns after allocation.
pub struct OperationResult {
    pub location: NodeLocation,
    pub description: Option<String>,
    pub status_kind: StatusKind,
    pub status_codes: Vec<usize>,
    pub header_parameters: Vec<Parameter>,
    pub bodies: Vec<Body>,
}

/// One request or response body: its media type and, when the body
/// declares a schema, the schema's location for the external schema
/// compiler. Schemas are located, never dereferenced.
pub struct Body {
    pub location: NodeLocation,
    pub content_type: String,
    pub schema_id: Option<NodeLocation>,
}

/// One parameter or response header.
pub struct Parameter {
    pub location: NodeLocation,
    pub name: String,
    pub required: bool,
    pub schema_id: Option<NodeLocation>,
}

/// One security scheme. The scheme's declared `type` and `in` fields are
/// carried as `auth_type` and `auth_in`.
pub struct Authentication {
    pub location: NodeLocation,
    pub name: String,
    pub description: Option<String>,
    pub auth_type: String,
    pub parameter_name: Option<String>,
    pub auth_in: Option<String>,
    pub scheme: Option<String>,
}

/// One scheme a requirement group demands, with its scopes.
pub struct AuthenticationRequirement {
    pub authentication_name: String,
    pub scopes: Vec<String>,
}

/// One alternative way to satisfy an operation's security: all of its
/// requirements together. A list of groups is a disjunction of such
/// conjunctions.
pub struct AuthenticationRequirementGroup {
    pub requirements: Vec<AuthenticationRequirement>,
}

} // verus!
