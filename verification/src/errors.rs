//! Per-target search errors.
//!
//! A target's failure is surfaced beside its siblings' results, never
//! aborting them.  Address-shape problems are not errors at all (they
//! degrade to "no endpoint"), and a malformed log line is dropped silently,
//! so neither appears here.

use vstd::prelude::*;

verus! {

/// Why one target's search failed.
#[derive(Debug, Clone)]
pub enum SearchError {
    /// Transport or authentication failure while reaching the backend.
    Connection(String),
    /// The poll-based backend reported a terminal failure state; carries the
    /// query handle and the reported status.
    QueryTerminal { query_id: String, status: String },
    /// No running container matched the service on a remote host; distinct
    /// from a search with zero results.
    RemoteDiscovery(String),
}

impl SearchError {
    /// Human-readable description.
    pub fn message(&self) -> (r: String)
        ensures
            match self {
                SearchError::Connection(d) => r@ == "connection failed: "@ + d@,
                SearchError::QueryTerminal { query_id, status } => r@ == "query "@ + query_id@
                    + ": "@ + status@,
                SearchError::RemoteDiscovery(d) => r@
                    == "no running container found for service: "@ + d@,
            },
    {
        match self {
            SearchError::Connection(d) => {
                let mut s = "connection failed: ".to_owned();
                s.append(d.as_str());
                s
            },
            SearchError::QueryTerminal { query_id, status } => {
                let mut s = "query ".to_owned();
                s.append(query_id.as_str());
                s.append(": ");
                s.append(status.as_str());
                s
            },
            SearchError::RemoteDiscovery(d) => {
                let mut s = "no running container found for service: ".to_owned();
                s.append(d.as_str());
                s
            },
        }
    }
}

} // verus!
