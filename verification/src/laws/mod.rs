//! What holds of the library as a whole: properties of every state, and of several calls
//! together.

pub mod accounts;
pub mod arithmetic;
pub mod buckets;
pub mod charts;
pub mod counters;
pub mod gauges;
pub mod histograms;
pub mod histories;
pub mod judgements;
pub mod keys;
pub mod labels;
pub mod means;
pub mod names;
pub mod numbers;
pub mod overviews;
pub mod percentiles;
pub mod replays;
pub mod reports;
pub mod runs;
pub mod stores;
pub mod texts;
pub mod verdicts;
