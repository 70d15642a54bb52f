//! A streaming web-server log analyzer: parses raw access-log lines,
//! batches the metric facts they explode into, and maintains bounded,
//! continuously updatable aggregate statistics that an export request
//! reduces to a capped set of published series in the text exposition
//! format.

pub mod analytics;
pub mod args;
pub mod cache;
pub mod fmt;
pub mod generator;
pub mod keys;
pub mod models;
pub mod parse;
pub mod prometheus;
pub mod sort;
pub mod timestamp;
pub mod worker;

pub use analytics::Event;
