//! Orchestration core of an EVM benchmark matrix: the data model, the
//! runner protocol, the build-cache decision and the aggregation of timing
//! samples into a ranked report.

pub mod builder;
pub mod model;
pub mod number;
pub mod order;
pub mod protocol;
pub mod report;
pub mod results;
pub mod run;
pub mod table;
pub mod text;
