//! The structured record one valid log line parses to.

use vstd::prelude::*;

verus! {

/// One parsed access-log record: constructed by the parser, decomposed
/// into metric facts, discarded.
#[derive(Debug, Clone, PartialEq, Eq)]
pub struct LogEntry {
    pub host: String,
    /// Unix seconds, in UTC, of the request instant.
    pub timestamp: i64,
    pub path: String,
    pub status: u16,
    pub bytes: u64,
}

/// The mathematical shape of a parsed record.
pub ghost struct LogEntryView {
    pub host: Seq<char>,
    pub timestamp: int,
    pub path: Seq<char>,
    pub status: u16,
    pub bytes: u64,
}

impl View for LogEntry {
    type V = LogEntryView;

    open spec fn view(&self) -> LogEntryView {
        LogEntryView {
            host: self.host@,
            timestamp: self.timestamp as int,
            path: self.path@,
            status: self.status,
            bytes: self.bytes,
        }
    }
}

} // verus!
