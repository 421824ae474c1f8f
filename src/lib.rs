//! A query planner for a federated graph API: a client selection set is split
//! over the backend services that own its fields, and the result is a tree of
//! fetches ordered by the entity keys that join them.
//!
//! - `query`: the selection-set document model, with fragment inlining.
//! - `format`: renders a document as indented or minified text.
//! - `schema`: the composed schema graph: field owners and entity keys.
//! - `plan`: the plan tree and the structural rules every plan meets.
//! - `json`: the JSON form of a plan.
//! - `planner`: builds a plan from a schema and a query.

pub mod query;
pub mod format;
pub mod schema;
pub mod plan;
pub mod json;
pub mod planner;
