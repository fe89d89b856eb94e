//! What holds of the library's answers, said of what goes in and what comes out.

pub mod answers;
pub mod churn;
pub mod connection;
pub mod diagnostics;
pub mod discovery;
pub mod frame;
pub mod graph;
pub mod group_graph;
pub mod index;
pub mod install;
pub mod name_path;
pub mod nesting;
pub mod output;
pub mod paths;
pub mod queries;
pub mod ranking;
pub mod router;
pub mod storage;
pub mod text;
pub mod wire;
