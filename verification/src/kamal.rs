//! The push-capable remote-shell backend: batch log fetching and the live
//! tail, over a container runtime reached through a remote session.
//!
//! The session itself (connecting, running a command, reading its output)
//! is I/O and lives with the caller; everything the backend decides — the
//! discovery and fetch command lines, what a raw log line means, which
//! lines survive the filters, how results are ordered and capped, and how
//! a live tail reacts to each event — is verified here.

use vstd::prelude::*;

use crate::chars::find_char;
use crate::chars::find_char_exec;
use crate::chars::chars_of;
use crate::chars::copy_range;
use crate::chars::spec_split;
use crate::chars::spec_trim;
use crate::chars::split_chars;
use crate::chars::string_from_chars;
use crate::chars::trim_bounds;
use crate::deploy::KamalConfig;
use crate::entry::LogEntry;
use crate::entry::LogEntryV;
use crate::errors::SearchError;
use crate::filter::spec_matches_filters;
use crate::filter::matches_filters;
use crate::insights::dec_digits;
use crate::ordering::sorted_desc;
use crate::ordering::sort_entries_descending;
use crate::timefmt::parse_docker_timestamp;
use crate::timefmt::spec_parse_docker_timestamp;

verus! {

broadcast use vstd::seq_lib::group_to_multiset_ensures;

/// How often a live tail checks its cancellation flag, in milliseconds.
pub const FOLLOW_POLL_INTERVAL_MS: u64 = 100;

/// Capacity of the bounded delivery channel of a live tail.
pub const FOLLOW_CHANNEL_CAPACITY: usize = 1000;

/// Search parameters for the remote-shell backend.
#[derive(Debug, Clone)]
pub struct KamalSearchParams {
    pub patterns: Vec<String>,
    pub exclude: Vec<String>,
    pub limit: usize,
    pub since: Option<String>,
    pub follow: bool,
}

// --- one raw log line ------------------------------------------------------

/// What one raw log line means: the text before the first space is the
/// timestamp (falling back to the ingestion time when missing or
/// unparsable), the rest is the message; a line without any space is all
/// message.
pub open spec fn spec_parse_log_line(
    line: Seq<char>,
    server: Seq<char>,
    service: Seq<char>,
    fallback_ts: int,
) -> LogEntryV {
    let group = "kamal:"@ + server;
    match find_char(line, ' ') {
        None => LogEntryV {
            timestamp: fallback_ts,
            message: line,
            log_group: group,
            log_stream: Some(service),
            region: None,
        },
        Some(i) => LogEntryV {
            timestamp: match spec_parse_docker_timestamp(line.take(i)) {
                Some(t) => t as int,
                None => fallback_ts,
            },
            message: line.skip(i + 1),
            log_group: group,
            log_stream: Some(service),
            region: None,
        },
    }
}

/// Parse one raw log line into an entry; this never fails, the fallback
/// timestamp standing in where the line carries none.
pub fn parse_log_line(line: &str, server: &str, service: &str, fallback_ts: i64) -> (r: LogEntry)
    ensures
        r@ == spec_parse_log_line(line@, server@, service@, fallback_ts as int),
{
    let mut group = "kamal:".to_owned();
    group.append(server);
    let cs = chars_of(line);
    match find_char_exec(&cs, ' ') {
        None => LogEntry {
            timestamp: fallback_ts,
            message: line.to_owned(),
            log_group: group,
            log_stream: Some(service.to_owned()),
            region: None,
        },
        Some(i) => {
            proof {
                crate::chars::lemma_find_char(cs@, ' ');
            }
            let n = cs.len();
            let tspart = copy_range(&cs, 0, i);
            let msgpart = copy_range(&cs, i + 1, n);
            proof {
                assert(tspart@ =~= line@.take(i as int));
                assert(msgpart@ =~= line@.skip(i + 1));
            }
            let ts_str = string_from_chars(tspart.as_slice());
            let timestamp = match parse_docker_timestamp(ts_str.as_str()) {
                Some(t) => t,
                None => fallback_ts,
            };
            LogEntry {
                timestamp,
                message: string_from_chars(msgpart.as_slice()),
                log_group: group,
                log_stream: Some(service.to_owned()),
                region: None,
            }
        },
    }
}

// --- the batch pipeline -----------------------------------------------------

/// `l` without a trailing carriage return.
pub open spec fn spec_strip_cr(l: Seq<char>) -> Seq<char> {
    if l.len() > 0 && l.last() == '\r' {
        l.drop_last()
    } else {
        l
    }
}

/// What one line of raw output contributes: nothing when blank, nothing
/// when the filters reject its message, its entry otherwise.
pub open spec fn spec_line_entry(
    l: Seq<char>,
    server: Seq<char>,
    service: Seq<char>,
    fallback_ts: int,
    includes: Seq<Seq<char>>,
    excludes: Seq<Seq<char>>,
) -> Option<LogEntryV> {
    let l2 = spec_strip_cr(l);
    if spec_trim(l2).len() == 0 {
        None
    } else {
        let e = spec_parse_log_line(l2, server, service, fallback_ts);
        if spec_matches_filters(e.message, includes, excludes) {
            Some(e)
        } else {
            None
        }
    }
}

/// The entries of a whole raw output, in line order.
pub open spec fn spec_collect_entries(
    lines: Seq<Seq<char>>,
    server: Seq<char>,
    service: Seq<char>,
    fallback_ts: int,
    includes: Seq<Seq<char>>,
    excludes: Seq<Seq<char>>,
) -> Seq<LogEntryV>
    decreases lines.len(),
{
    if lines.len() == 0 {
        Seq::empty()
    } else {
        spec_collect_entries(lines.drop_last(), server, service, fallback_ts, includes, excludes)
            + match spec_line_entry(lines.last(), server, service, fallback_ts, includes, excludes) {
            Some(e) => seq![e],
            None => Seq::empty(),
        }
    }
}

/// The matching entries of a whole raw log output, in order: one candidate
/// per non-blank line, kept when it passes the include/exclude filters.
pub fn collect_matching_entries(
    raw: &str,
    server: &str,
    service: &str,
    fallback_ts: i64,
    includes: &Vec<String>,
    excludes: &Vec<String>,
) -> (r: Vec<LogEntry>)
    ensures
        r@.map_values(|e: LogEntry| e@) == spec_collect_entries(
            spec_split(raw@, '\n'),
            server@,
            service@,
            fallback_ts as int,
            includes.deep_view(),
            excludes.deep_view(),
        ),
{
    let cs = chars_of(raw);
    let lines = split_chars(&cs, '\n');
    let ghost linevs = spec_split(raw@, '\n');
    let mut out: Vec<LogEntry> = Vec::new();
    let mut i: usize = 0;
    proof {
        assert(linevs.take(0) =~= Seq::<Seq<char>>::empty());
        assert(out@.map_values(|e: LogEntry| e@) =~= Seq::<LogEntryV>::empty());
    }
    while i < lines.len()
        invariant
            lines.deep_view() == linevs,
            linevs == spec_split(raw@, '\n'),
            linevs.len() == lines@.len(),
            i <= lines@.len(),
            out@.map_values(|e: LogEntry| e@) == spec_collect_entries(
                linevs.take(i as int),
                server@,
                service@,
                fallback_ts as int,
                includes.deep_view(),
                excludes.deep_view(),
            ),
        decreases lines@.len() - i,
    {
        proof {
            assert(lines@[i as int]@ =~= lines.deep_view()[i as int]);
            assert(linevs.take(i + 1 as int).drop_last() =~= linevs.take(i as int));
            assert(linevs.take(i + 1 as int).last() == linevs[i as int]);
        }
        let ghost before = out@.map_values(|e: LogEntry| e@);
        let mut l = lines[i].clone();
        proof {
            assert(l@ =~= lines@[i as int]@);
        }
        let n0 = l.len();
        if n0 > 0 && l[n0 - 1] == '\r' {
            let _ = l.pop();
        }
        proof {
            assert(l@ =~= spec_strip_cr(linevs[i as int]));
        }
        let (ta, tb) = trim_bounds(&l);
        if ta == tb {
            proof {
                assert(before + Seq::<LogEntryV>::empty() =~= before);
            }
        } else {
            let ls = string_from_chars(l.as_slice());
            let entry = parse_log_line(ls.as_str(), server, service, fallback_ts);
            if matches_filters(entry.message.as_str(), includes, excludes) {
                let ghost ev = entry@;
                out.push(entry);
                proof {
                    assert(out@.map_values(|e: LogEntry| e@) =~= before.push(ev));
                    assert(before.push(ev) =~= before + seq![ev]);
                }
            } else {
                proof {
                    assert(before + Seq::<LogEntryV>::empty() =~= before);
                }
            }
        }
        i = i + 1;
    }
    proof {
        assert(linevs.take(linevs.len() as int) =~= linevs);
    }
    out
}

// --- command lines ----------------------------------------------------------

/// The discovery command: list running containers whose name matches the
/// service, IDs only, first match.
pub fn find_container_command(service: &str) -> (r: String)
    ensures
        r@ == "docker ps --filter 'name="@ + service@ + "' --format '{{.ID}}' | head -1"@,
{
    let mut s = "docker ps --filter 'name=".to_owned();
    s.append(service);
    s.append("' --format '{{.ID}}' | head -1");
    s
}

/// What the discovery output means: the trimmed output is the container id,
/// and an empty output is a discovery failure — no running container
/// matches the service — which must not be confused with zero results.
pub fn interpret_container_lookup(stdout: &str, service: &str) -> (r: Result<String, SearchError>)
    ensures
        match r {
            Ok(id) => spec_trim(stdout@).len() > 0 && id@ == spec_trim(stdout@),
            Err(e) => spec_trim(stdout@).len() == 0 && (e matches SearchError::RemoteDiscovery(s)
                && s@ == service@),
        },
{
    let cs = chars_of(stdout);
    let (a, b) = trim_bounds(&cs);
    if a == b {
        Err(SearchError::RemoteDiscovery(service.to_owned()))
    } else {
        let t = copy_range(&cs, a, b);
        Ok(string_from_chars(t.as_slice()))
    }
}

/// The batch over-fetch: ten times the cap, at least 1000 lines, to
/// compensate for client-side filtering discarding most lines.
pub open spec fn spec_overfetch(limit: nat) -> nat {
    let tenfold = if limit * 10 > u64::MAX {
        u64::MAX as nat
    } else {
        limit * 10
    };
    if tenfold < 1000 {
        1000
    } else {
        tenfold
    }
}

fn overfetch(limit: u64) -> (r: u64)
    ensures
        r == spec_overfetch(limit as nat),
{
    let tenfold = match limit.checked_mul(10) {
        Some(x) => x,
        None => u64::MAX,
    };
    if tenfold < 1000 {
        1000
    } else {
        tenfold
    }
}

/// The batch fetch command: timestamps on, bounded by the over-fetch
/// multiplier, optionally limited to a `--since` window.
pub fn docker_logs_command(container_id: &str, since: &Option<String>, limit: u64) -> (r: String)
    ensures
        r@ == "docker logs "@ + container_id@ + " --timestamps"@ + (match since {
            Some(s) => " --since "@ + s@,
            None => Seq::<char>::empty(),
        }) + " --tail "@ + dec_digits(spec_overfetch(limit as nat)),
{
    let mut s = "docker logs ".to_owned();
    s.append(container_id);
    s.append(" --timestamps");
    match since {
        Some(w) => {
            s.append(" --since ");
            s.append(w.as_str());
        },
        None => {},
    }
    s.append(" --tail ");
    let n = crate::insights::u64_to_string(overfetch(limit));
    s.append(n.as_str());
    s
}

/// The live tail command: like the batch fetch, but following.
pub fn docker_follow_command(container_id: &str, since: &Option<String>) -> (r: String)
    ensures
        r@ == "docker logs "@ + container_id@ + " --timestamps -f"@ + (match since {
            Some(s) => " --since "@ + s@,
            None => Seq::<char>::empty(),
        }),
{
    let mut s = "docker logs ".to_owned();
    s.append(container_id);
    s.append(" --timestamps -f");
    match since {
        Some(w) => {
            s.append(" --since ");
            s.append(w.as_str());
        },
        None => {},
    }
    s
}

/// The remote destination `user@server`.
pub fn ssh_destination(user: &str, server: &str) -> (r: String)
    ensures
        r@ == user@ + "@"@ + server@,
{
    let mut s = user.to_owned();
    s.append("@");
    s.append(server);
    s
}

// --- the searcher ------------------------------------------------------------

/// Searcher for container logs on the servers of one deploy configuration.
pub struct KamalSearcher {
    pub config: KamalConfig,
}

impl KamalSearcher {
    /// A searcher over an existing configuration.
    pub fn new(config: KamalConfig) -> (r: KamalSearcher)
        ensures
            r.config == config,
    {
        KamalSearcher { config }
    }

    /// The configured servers, for display and iteration.
    pub fn servers(&self) -> (r: &Vec<String>)
        ensures
            r == &self.config.servers,
    {
        &self.config.servers
    }

    /// The configured service name.
    pub fn service(&self) -> (r: &str)
        ensures
            r@ == self.config.service@,
    {
        self.config.service.as_str()
    }

    /// Turn one server's raw fetch output into the final result: parse and
    /// filter every line, newest first, at most `limit` entries.  The result
    /// is the cap-prefix of a timestamp-descending permutation of the kept
    /// entries, so over the cap it is the `limit` newest matches; under the
    /// cap it is exactly the matches.
    pub fn parse_logs(
        &self,
        raw_logs: &str,
        server: &str,
        params: &KamalSearchParams,
        fallback_ts: i64,
    ) -> (r: Vec<LogEntry>)
        ensures
            ({
                let filtered = spec_collect_entries(
                    spec_split(raw_logs@, '\n'),
                    server@,
                    self.config.service@,
                    fallback_ts as int,
                    params.patterns.deep_view(),
                    params.exclude.deep_view(),
                );
                &&& sorted_desc(r@)
                &&& r@.len() == (if filtered.len() <= params.limit {
                    filtered.len() as int
                } else {
                    params.limit as int
                })
                &&& (filtered.len() <= params.limit ==> r@.map_values(|e: LogEntry| e@)
                    .to_multiset() == filtered.to_multiset())
                &&& exists|p: Seq<LogEntry>|
                    {
                        &&& #[trigger] sorted_desc(p)
                        &&& p.map_values(|e: LogEntry| e@).to_multiset() == filtered.to_multiset()
                        &&& r@ == (if p.len() <= params.limit {
                            p
                        } else {
                            p.take(params.limit as int)
                        })
                    }
                &&& forall|k: int|
                    0 <= k < r@.len() ==> filtered.to_multiset().count(#[trigger] r@[k]@) > 0
            }),
    {
        let entries = collect_matching_entries(
            raw_logs,
            server,
            self.config.service.as_str(),
            fallback_ts,
            &params.patterns,
            &params.exclude,
        );
        let ghost entriesv = entries@;
        let ghost filtered = entriesv.map_values(|e: LogEntry| e@);
        let mut sorted = sort_entries_descending(entries);
        let ghost sortedv = sorted@;
        crate::ordering::cap_entries(&mut sorted, params.limit);
        proof {
            crate::ordering::lemma_multiset_map(sortedv, entriesv, |e: LogEntry| e@);
            let mappedfull = sortedv.map_values(|e: LogEntry| e@);
            if sortedv.len() > params.limit {
                assert(sorted@ == sortedv.take(params.limit as int));
            } else {
                assert(sorted@ == sortedv);
                assert(sorted@ =~= sortedv.take(sorted@.len() as int));
            }
            let mapped = sorted@.map_values(|e: LogEntry| e@);
            let rest = sortedv.skip(sorted@.len() as int).map_values(|e: LogEntry| e@);
            assert(mappedfull =~= mapped + rest);
            vstd::seq_lib::lemma_multiset_commutative(mapped, rest);
            assert(mappedfull.to_multiset() == filtered.to_multiset());
            if filtered.len() <= params.limit {
                assert(mapped =~= mappedfull);
            }
            assert(sorted_desc(sortedv) && sortedv.map_values(|e: LogEntry| e@).to_multiset()
                == filtered.to_multiset() && sorted@ == (if sortedv.len() <= params.limit {
                sortedv
            } else {
                sortedv.take(params.limit as int)
            }));
            assert forall|k: int|
                0 <= k < sorted@.len() implies filtered.to_multiset().count(
                #[trigger] sorted@[k]@,
            ) > 0 by {
                assert(mapped[k] == sorted@[k]@);
                assert(mapped.contains(mapped[k]));
                assert(mapped.to_multiset().count(mapped[k]) > 0);
                assert(mappedfull.to_multiset().count(mapped[k]) == mapped.to_multiset().count(
                    mapped[k],
                ) + rest.to_multiset().count(mapped[k]));
            }
        }
        sorted
    }
}

// --- the live tail ------------------------------------------------------------

/// The cancellation flag of a live tail.
#[derive(Debug, Clone, PartialEq, Eq, Structural)]
pub enum FollowState {
    /// The tail is delivering entries.
    Running,
    /// Cancellation has been requested; the producer must observe it within
    /// one polling interval.
    StopRequested,
    /// The producer has terminated the remote process and stopped.
    Stopped,
}

/// Ghost model of one event observed by the tail's producer.
pub ghost enum FollowEventV {
    /// One raw line arrived.
    Line(Seq<char>),
    /// The remote stream ended.
    Eof,
    /// Reading the remote stream failed.
    ReadError,
    /// The consumer dropped its receiving end: delivery would fail
    /// permanently, so the write is dropped and the tail shuts down.
    ReceiverGone,
    /// The periodic cancellation check fired with nothing to read.
    Tick,
}

/// One event observed by the tail's producer.
pub enum FollowEvent {
    Line(String),
    Eof,
    ReadError,
    ReceiverGone,
    Tick,
}

impl View for FollowEvent {
    type V = FollowEventV;

    open spec fn view(&self) -> FollowEventV {
        match self {
            FollowEvent::Line(l) => FollowEventV::Line(l@),
            FollowEvent::Eof => FollowEventV::Eof,
            FollowEvent::ReadError => FollowEventV::ReadError,
            FollowEvent::ReceiverGone => FollowEventV::ReceiverGone,
            FollowEvent::Tick => FollowEventV::Tick,
        }
    }
}

/// Ghost model of what the producer must do next.
pub ghost enum FollowActionV {
    /// Deliver this entry on the channel.
    Deliver(LogEntryV),
    /// Deliver nothing; keep reading.
    Skip,
    /// Kill the remote process and stop.
    Terminate,
}

/// What the producer must do next.
pub enum FollowAction {
    Deliver(LogEntry),
    Skip,
    Terminate,
}

impl View for FollowAction {
    type V = FollowActionV;

    open spec fn view(&self) -> FollowActionV {
        match self {
            FollowAction::Deliver(e) => FollowActionV::Deliver(e@),
            FollowAction::Skip => FollowActionV::Skip,
            FollowAction::Terminate => FollowActionV::Terminate,
        }
    }
}

/// The tail's transition function: what one event makes of one state.
pub open spec fn spec_follow_step(
    state: FollowState,
    event: FollowEventV,
    server: Seq<char>,
    service: Seq<char>,
    fallback_ts: int,
    includes: Seq<Seq<char>>,
    excludes: Seq<Seq<char>>,
) -> (FollowState, FollowActionV) {
    if !(state is Running) {
        (FollowState::Stopped, FollowActionV::Terminate)
    } else {
        match event {
            FollowEventV::Line(l) => {
                let e = spec_parse_log_line(l, server, service, fallback_ts);
                if spec_matches_filters(e.message, includes, excludes) {
                    (FollowState::Running, FollowActionV::Deliver(e))
                } else {
                    (FollowState::Running, FollowActionV::Skip)
                }
            },
            FollowEventV::Tick => (FollowState::Running, FollowActionV::Skip),
            _ => (FollowState::Stopped, FollowActionV::Terminate),
        }
    }
}

/// Decide the producer's next move.  The caller runs the loop: it performs
/// the returned action, feeds back the next event, and must check the
/// cancellation flag at least every `FOLLOW_POLL_INTERVAL_MS`.
pub fn follow_step(
    state: FollowState,
    event: FollowEvent,
    server: &str,
    service: &str,
    fallback_ts: i64,
    includes: &Vec<String>,
    excludes: &Vec<String>,
) -> (r: (FollowState, FollowAction))
    ensures
        (r.0, r.1@) == spec_follow_step(
            state,
            event@,
            server@,
            service@,
            fallback_ts as int,
            includes.deep_view(),
            excludes.deep_view(),
        ),
{
    match state {
        FollowState::Running => match event {
            FollowEvent::Line(l) => {
                let e = parse_log_line(l.as_str(), server, service, fallback_ts);
                if matches_filters(e.message.as_str(), includes, excludes) {
                    (FollowState::Running, FollowAction::Deliver(e))
                } else {
                    (FollowState::Running, FollowAction::Skip)
                }
            },
            FollowEvent::Tick => (FollowState::Running, FollowAction::Skip),
            _ => (FollowState::Stopped, FollowAction::Terminate),
        },
        _ => (FollowState::Stopped, FollowAction::Terminate),
    }
}

/// The cancellation law: once stop has been requested (or the tail has
/// stopped), every subsequent event — another line, a tick, anything —
/// yields no delivery, terminates the remote process, and leaves the tail
/// stopped.  With the caller checking the flag every polling interval, no
/// entry is delivered after cancellation and the process is released within
/// one interval of observing it.
pub proof fn lemma_follow_cancellation(
    state: FollowState,
    event: FollowEventV,
    server: Seq<char>,
    service: Seq<char>,
    fallback_ts: int,
    includes: Seq<Seq<char>>,
    excludes: Seq<Seq<char>>,
)
    requires
        !(state is Running),
    ensures
        spec_follow_step(state, event, server, service, fallback_ts, includes, excludes).0
            is Stopped,
        spec_follow_step(state, event, server, service, fallback_ts, includes, excludes).1
            is Terminate,
        !(spec_follow_step(state, event, server, service, fallback_ts, includes, excludes).1
            is Deliver),
{
}

} // verus!
