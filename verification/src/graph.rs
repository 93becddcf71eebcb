//! Graphs of layers: their description, their state and their schedule.

pub mod builder;
pub mod compile;
pub mod config;
pub mod draft;
pub mod graph_node;
pub mod node;
pub mod run;
pub mod schedule;
pub mod state;
pub mod train;
