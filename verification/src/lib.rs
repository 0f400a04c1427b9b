//! A name-resolution library built on stack graphs: a codebase is encoded as
//! a graph whose edges are traversed under the discipline of two auxiliary
//! stacks (a symbol stack of pending lookups and a scope stack of saved
//! contexts), and resolving a reference to its definitions is path-finding.
//!
//! The crate provides the graph store and builder surface, the single-step
//! path transition engine, the complete-path search used for
//! jump-to-definition, file-local partial paths with precondition and
//! postcondition stacks, joining of partial paths, a cycle-detection
//! heuristic shared by both searches, and a deterministic textual display of
//! paths.

pub mod graph;
pub mod cycles;
pub mod paths;
pub mod partial;
pub mod display;
