//! Minute-resolution momentum backtest: a price store built from raw
//! records, a per-instrument strategy evaluator, and a batch scheduler
//! whose report does not depend on the batch width.

pub mod config;
pub mod price;
pub mod record;
pub mod series;
pub mod strategy;
pub mod schedule;
