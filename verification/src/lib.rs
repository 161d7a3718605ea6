//! Per-file audit of the symbols a project's import declarations use.
//!
//! The engine walks every source file of a project's own packages,
//! expands each import declaration's tree of nested groups into its
//! leaf paths, takes the declarations the semantic-analysis
//! collaborator resolved each leaf to, classifies every resolved
//! symbol by kind, and accumulates the results into one
//! kind-partitioned, duplicate-free set map per file, assembled into a
//! whole-project mapping keyed by file path.
//!
//! Project loading, parsing and symbol resolution belong to the
//! analysis collaborator and are not performed here: the engine works
//! on a model of their answers ([`use_tree::FileSyntax`],
//! [`crate_map::Project`]) and is verified for every answer the
//! collaborator could give.

pub mod crate_map;
pub mod item_map;
pub mod order;
pub mod use_tree;
pub mod used_item;
