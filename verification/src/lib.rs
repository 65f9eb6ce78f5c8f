//! Core logic of dirtrack: filters, scan grouping, history, trend and formatting.

pub mod aggregate;
pub mod cli;
pub mod clock;
pub mod config;
pub mod filters;
pub mod grouping;
pub mod history;
pub mod index;
pub mod interactive;
pub mod mcp;
pub mod output;
pub mod paths;
pub mod scanner;
pub mod sorting;
pub mod text;
pub mod trend;
