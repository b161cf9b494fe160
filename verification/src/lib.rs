//! Reconstruction and bottleneck classification of await-tree dumps.
//!
//! A running distributed engine periodically dumps, per worker ("actor"), a
//! textual rendering of its hierarchical execution trace.  This crate rebuilds
//! each actor's trace as an in-memory tree, renders it back to canonical
//! text, and runs heuristic stall detectors over the trees, aggregating the
//! findings across actors into a summary report.

pub mod analyze;
pub mod chars;
pub mod json;
pub mod parse;
pub mod render;
pub mod roundtrip;
pub mod time;
pub mod tree;
pub mod wide;

pub use analyze::AnalyzeError;
pub use analyze::AnalyzeSummary;
pub use parse::reconstruct;

pub use tree::SpanNodeView;
pub use tree::SpanView;
pub use tree::TraceError;
pub use tree::TreeView;
