//! The normalized log line that every backend produces.

use vstd::prelude::*;

verus! {

/// Mathematical model of one log entry.
pub ghost struct LogEntryV {
    pub timestamp: int,
    pub message: Seq<char>,
    pub log_group: Seq<char>,
    pub log_stream: Option<Seq<char>>,
    pub region: Option<Seq<char>>,
}

/// One normalized log line.
///
/// The timestamp is epoch milliseconds (UTC) and is always present: parsers
/// fall back to the ingestion time when a line carries none.  The message may
/// be empty but is never absent.
#[derive(Debug)]
pub struct LogEntry {
    pub timestamp: i64,
    pub message: String,
    pub log_group: String,
    pub log_stream: Option<String>,
    pub region: Option<String>,
}

impl View for LogEntry {
    type V = LogEntryV;

    open spec fn view(&self) -> LogEntryV {
        LogEntryV {
            timestamp: self.timestamp as int,
            message: self.message@,
            log_group: self.log_group@,
            log_stream: self.log_stream.deep_view(),
            region: self.region.deep_view(),
        }
    }
}

impl Clone for LogEntry {
    /// An exact copy.
    fn clone(&self) -> (r: Self)
        ensures
            r == *self,
    {
        LogEntry {
            timestamp: self.timestamp,
            message: self.message.clone(),
            log_group: self.log_group.clone(),
            log_stream: match &self.log_stream {
                Some(s) => Some(s.clone()),
                None => None,
            },
            region: match &self.region {
                Some(s) => Some(s.clone()),
                None => None,
            },
        }
    }
}

} // verus!
