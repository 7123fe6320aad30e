//! Laplace: an authoritative map of the entities of a project and how they
//! connect — refs, the schema, validation, the derived graph and its queries.

pub mod text;
pub mod model;
pub mod sort;
pub mod diag;
pub mod vault;
pub mod graph;
pub mod bfs;
pub mod query;
pub mod validate;
pub mod summary;
pub mod ops;
pub mod commit;
pub mod schema_ops;
pub mod serve;
pub mod skill;
pub mod mcp;
pub mod drift;
pub mod render;
