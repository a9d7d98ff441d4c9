use vstd::prelude::*;

pub mod appearance;
pub mod assets;
pub mod bookmark_members;
pub mod bound;
pub mod calculation_kernels;
pub mod capture;
pub mod calculations;
pub mod clock;
pub mod control;
pub mod error;
pub mod expand;
pub mod export;
pub mod export_cmd;
pub mod field_detail;
pub mod graph_reads;
pub mod history;
pub mod history_actions;
pub mod launch;
pub mod layout;
pub mod loader;
pub mod mcp;
pub mod messages;
pub mod meta_graph;
pub mod output;
pub mod output_values;
pub mod paths;
pub mod protocol;
pub mod ranking;
pub mod queries;
pub mod render;
pub mod render_cmd;
pub mod request;
pub mod shared;
pub mod subset;
pub mod text;
pub mod views;
