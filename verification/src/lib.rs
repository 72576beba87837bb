//! Core engine for reading machine-readable API descriptions (Swagger 2.0,
//! OpenAPI 3.0, OpenAPI 3.1) and compiling them into one dialect-independent
//! model: locations addressing nodes in a document graph, a node cache that
//! fetches and flattens each document exactly once, dialect detection, and
//! the per-dialect compiler that resolves `$ref` indirections and allocates
//! HTTP status codes to operation results.

pub mod cache;
pub mod context;
pub mod error;
pub mod fetch;
pub mod location;
pub mod method;
pub mod model;
pub mod node;
pub mod nodes30;
pub mod oas30;
pub mod outside;
pub mod status;
