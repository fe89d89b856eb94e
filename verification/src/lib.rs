//! Deterministic, file-level code graph for coding agents.

pub mod body;
pub mod budget;
pub mod cache;
pub mod churn;
pub mod graph;
pub mod group_graph;
pub mod index;
pub mod laws;
pub mod lsp;
pub mod name_path;
pub mod neighborhood;
pub mod order;
pub mod paths;
pub mod ranking;
pub mod reuse;
pub mod text;
pub mod types;
