//! Wavefront parallel compilation planner for Cargo workspaces.

pub mod bench;
pub mod builder;
pub mod builder_v4;
pub mod builder_v5;
pub mod capture;
pub mod classifier;
pub mod cli;
pub mod codegen;
pub mod coordinator;
pub mod graph;
pub mod json;
pub mod laws;
pub mod layers;
pub mod metadata;
pub mod names;
pub mod order;
pub mod paths;
pub mod plan;
pub mod reach;
pub mod recorder;
pub mod text;
pub mod trees;
pub mod unit_graph;
pub mod waves;
