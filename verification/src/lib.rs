//! Inspects a pnpm workspace's resolved dependency lockfile and answers
//! "who (transitively) depends on package X?" by rendering an inverted
//! dependency tree.
//!
//! The pipeline runs strictly one direction: lockfile model (`model`) into a
//! bidirectional dependency graph (`graph`) into rendered text lines
//! (`render`). Reading the lockfile from disk and printing to the terminal
//! are left to the surrounding binary; this crate works on plain values.

pub mod graph;
pub mod model;
pub mod render;

pub use graph::DependencyGraph;
pub use graph::NodeId;
pub use model::Dependency;
pub use model::Error;
pub use model::Importer;
pub use model::Lockfile;
pub use model::Snapshot;
pub use model::join_path;
pub use model::split_snapshot_key;
pub use render::render_tree;
