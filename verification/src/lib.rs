//! Dependency analysis for an ES-module style monorepo: entities (exported
//! declarations) are merged into a table with stable identities, and a
//! dependency graph over that table answers consumer, path, cycle and
//! ranking queries.

pub mod strutil;
pub mod entity;
pub mod parser;
pub mod scanner;
pub mod git;
pub mod table;
pub mod graph;
pub mod paths;
pub mod cycles;
pub mod rank;
pub mod analysis;
