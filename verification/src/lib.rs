//! Definition collection and module-graph resolution for a compiler
//! front end: starting from an entry file, every transitively imported
//! file is discovered and scanned exactly once, and all top-level
//! declarations are gathered into one registry keyed by unique
//! definition identifiers.

pub mod db;
pub mod laws;
pub mod mem_db;
pub mod resolver;
pub mod syntax;
pub mod ty;

pub use db::AnalyzerDb;
pub use resolver::{DefMap, Resolver};
