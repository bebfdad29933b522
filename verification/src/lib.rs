//! A load-test dashboard: metrics, verdicts and reports, with their behaviour proved.

pub mod app;
pub mod cli;
pub mod config;
pub mod doc;
pub mod hist;
pub mod json;
pub mod laws;
pub mod markdown;
pub mod metrics;
pub mod number;
pub mod paths;
pub mod process;
pub mod protocol;
pub mod render;
pub mod replay;
pub mod report;
pub mod rounding;
pub mod rows;
pub mod runner;
pub mod scenario;
pub mod slug;
pub mod sorted;
pub mod store;
pub mod text;
pub mod time;
pub mod ui;
pub mod verdict;
