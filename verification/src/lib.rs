//! Snapshot timeline analysis: decodes newline-delimited machine-state
//! snapshots and derives visualization-ready structures from them — a stable
//! heatmap row ordering, a sparse cell matrix over a selected time window,
//! and per-GPU / CPU time series.

pub mod decode;
pub mod json;
pub mod labels;
pub mod laws;
pub mod matrix;
pub mod model;
pub mod orchestrator;
pub mod replay;
pub mod series;
