//! Test coverage on the symbols of a code graph.
//!
//! Line coverage from LCOV tracefiles and JSON payloads is bound to the nodes of a code graph,
//! kept as the snapshot of a workspace, and summed up in the plugin's packet.
pub mod binding_laws;
pub mod clock;
pub mod file_table;
pub mod graph;
pub mod ingest;
pub mod plugin;
pub mod plugin_laws;
pub mod registry;
pub mod resolver;
pub mod source_laws;
pub mod sum_laws;
pub mod sync;
pub mod sync_laws;
pub mod table;
pub mod text;

pub use crate::plugin::{
    CoverageError, CoveragePlugin, CoverageSummary, Ingest, TableStats, WorkspaceContext, PLUGIN_ID,
};
