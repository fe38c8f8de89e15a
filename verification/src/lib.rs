//! Hardware monitor: the verified core.
//!
//! Parsers for system tool output (text, JSON and property lists), history
//! query validation and tier arithmetic, storage topology and anonymous
//! device identity, sampling
//! health, settings validation, and the decisions of the command runner
//! and the sampling scheduler.

pub mod cmd;
pub mod data_paths;
pub mod device_id;
pub mod history;
pub mod json_doc;
pub mod loginitem;
pub mod metric_status;
pub mod parse;
pub mod processes;
pub mod property_list;
pub mod query;
pub mod sampler;
pub mod settings;
pub mod storage;
pub mod termination;
pub mod text;
