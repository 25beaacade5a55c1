use log_hound::deploy::KamalConfig;
use log_hound::display::group_entries;
use log_hound::display::shorten_group;
use log_hound::display::shorten_region;
use log_hound::display::strip_ansi_codes;
use log_hound::entry::LogEntry;
use log_hound::errors::SearchError;
use log_hound::filter::contains_ci;
use log_hound::filter::matches_filters;
use log_hound::insights::build_insights_query;
use log_hound::insights::classify_query_status;
use log_hound::insights::parse_log_result;
use log_hound::insights::terminal_error;
use log_hound::insights::PollDecision;
use log_hound::kamal::find_container_command;
use log_hound::kamal::docker_logs_command;
use log_hound::kamal::follow_step;
use log_hound::kamal::interpret_container_lookup;
use log_hound::kamal::parse_log_line;
use log_hound::kamal::FollowAction;
use log_hound::kamal::FollowEvent;
use log_hound::kamal::FollowState;
use log_hound::kamal::KamalSearcher;
use log_hound::kamal::KamalSearchParams;
use log_hound::ordering::aggregate_results;
use log_hound::ordering::sort_entries_ascending;
use log_hound::pool::ConnectionPool;

fn entry(ts: i64, msg: &str, group: &str) -> LogEntry {
    LogEntry {
        timestamp: ts,
        message: msg.to_string(),
        log_group: group.to_string(),
        log_stream: None,
        region: None,
    }
}

// --- include/exclude filtering ---------------------------------------------

#[test]
fn test_include_exclude_filtering() {
    let incs = vec!["error".to_string(), "user".to_string()];
    let excs = vec!["health".to_string()];
    // matches all includes, no exclude: kept
    assert!(matches_filters("User error in request", &incs, &excs));
    // matches all includes but also an exclude: dropped
    assert!(!matches_filters("user ERROR health-check", &incs, &excs));
    // missing one include: dropped
    assert!(!matches_filters("error only", &incs, &excs));
    // empty include list matches everything
    assert!(matches_filters("anything at all", &vec![], &vec![]));
    // ... except excluded lines
    assert!(!matches_filters("a health ping", &vec![], &excs));
}

#[test]
fn test_contains_ci() {
    assert!(contains_ci("Hello World", "WORLD"));
    assert!(contains_ci("Hello World", "lo wo"));
    assert!(!contains_ci("Hello World", "planet"));
    assert!(contains_ci("anything", ""));
}

// --- fan-out aggregation -----------------------------------------------------

#[test]
fn test_fanout_partial_failure() {
    // three targets, target 2 fails: one failure, two successes, no
    // short-circuit
    let results: Vec<Result<Vec<LogEntry>, SearchError>> = vec![
        Ok(vec![entry(1, "a", "g1"), entry(3, "c", "g1")]),
        Err(SearchError::Connection("boom".to_string())),
        Ok(vec![entry(2, "b", "g3")]),
    ];
    let (entries, errors) = aggregate_results(results);
    assert_eq!(entries.len(), 3);
    assert_eq!(errors.len(), 1);
    assert_eq!(errors[0].0, 1);
    assert!(matches!(errors[0].1, SearchError::Connection(_)));
}

#[test]
fn test_interleaved_merge() {
    // one target returns 5 entries over an hour, another 3 in an
    // overlapping window: interleaved output is all 8 sorted ascending
    let hour = 3600 * 1000i64;
    let t0 = 1769126400000i64;
    let a: Vec<LogEntry> = (0..5).map(|i| entry(t0 + i * (hour / 5), "a", "g1")).collect();
    let b: Vec<LogEntry> = (0..3).map(|i| entry(t0 + hour / 10 + i * (hour / 4), "b", "g2")).collect();
    let results: Vec<Result<Vec<LogEntry>, SearchError>> = vec![Ok(a), Ok(b)];
    let (entries, errors) = aggregate_results(results);
    assert!(errors.is_empty());
    let merged = sort_entries_ascending(entries);
    assert_eq!(merged.len(), 8);
    for w in merged.windows(2) {
        assert!(w[0].timestamp <= w[1].timestamp);
    }
}

#[test]
fn test_group_entries() {
    let entries = vec![
        entry(2, "x", "g1"),
        entry(1, "y", "g2"),
        entry(1, "z", "g1"),
    ];
    let grouped = group_entries(&entries);
    assert_eq!(grouped.len(), 2);
    assert_eq!(grouped[0].0, "g1");
    assert_eq!(grouped[0].1.len(), 2);
    // sorted ascending inside the group
    assert_eq!(grouped[0].1[0].message, "z");
    assert_eq!(grouped[1].0, "g2");
    assert_eq!(grouped[1].1.len(), 1);
}

// --- the connection pool ------------------------------------------------------

#[test]
fn test_pool_single_construction() {
    // many get calls for the same endpoint resolve to one cached entry
    let mut pool: ConnectionPool<u32> = ConnectionPool::new();
    let first = pool.get_or_insert("eu-west-1".to_string(), 7);
    let second = pool.get_or_insert("eu-west-1".to_string(), 99);
    assert_eq!(first, second);
    assert_eq!(pool.entries.len(), 1);
    assert_eq!(*pool.at(first), 7);

    let other = pool.get_or_insert("us-east-1".to_string(), 42);
    assert_ne!(other, first);
    assert_eq!(pool.entries.len(), 2);
    assert_eq!(pool.lookup("eu-west-1"), Some(first));
    assert_eq!(pool.lookup("nowhere"), None);
}

// --- the poll-based backend ---------------------------------------------------

#[test]
fn test_build_insights_query() {
    let q = build_insights_query(&vec!["ERROR".to_string()], 100);
    assert_eq!(
        q,
        "fields @timestamp, @message, @logStream\n| filter @message like /ERROR/\n| sort @timestamp desc\n| limit 100"
    );
    let q2 = build_insights_query(&vec!["a'b".to_string(), "c".to_string()], 5);
    assert_eq!(
        q2,
        "fields @timestamp, @message, @logStream\n| filter @message like /a\\'b/ and @message like /c/\n| sort @timestamp desc\n| limit 5"
    );
}

#[test]
fn test_classify_query_status() {
    assert_eq!(classify_query_status("Complete"), PollDecision::Complete);
    assert_eq!(classify_query_status("Failed"), PollDecision::Terminal);
    assert_eq!(classify_query_status("Cancelled"), PollDecision::Terminal);
    assert_eq!(classify_query_status("Timeout"), PollDecision::Terminal);
    assert_eq!(classify_query_status("Running"), PollDecision::StillRunning);
    assert_eq!(classify_query_status("Scheduled"), PollDecision::StillRunning);
}

#[test]
fn test_terminal_error_carries_handle() {
    let e = terminal_error("query-123", "Failed");
    match e {
        SearchError::QueryTerminal { query_id, status } => {
            assert_eq!(query_id, "query-123");
            assert_eq!(status, "Failed");
            assert!(e_msg_contains(&terminal_error("query-123", "Failed"), "query-123"));
        },
        _ => panic!("wrong variant"),
    }
}

fn e_msg_contains(e: &SearchError, needle: &str) -> bool {
    e.message().contains(needle)
}

#[test]
fn test_parse_log_result_rows() {
    let row = vec![
        ("@timestamp".to_string(), "2026-01-23 05:36:05.200".to_string()),
        ("@message".to_string(), "hello".to_string()),
        ("@logStream".to_string(), "stream-1".to_string()),
        ("@ignored".to_string(), "x".to_string()),
    ];
    let e = parse_log_result(&row, "my-group", &Some("us-east-1".to_string())).unwrap();
    assert_eq!(e.timestamp, 1769146565200);
    assert_eq!(e.message, "hello");
    assert_eq!(e.log_group, "my-group");
    assert_eq!(e.log_stream, Some("stream-1".to_string()));
    assert_eq!(e.region, Some("us-east-1".to_string()));

    // a row missing its message is dropped silently
    let row2 = vec![("@timestamp".to_string(), "2026-01-23 05:36:05".to_string())];
    assert!(parse_log_result(&row2, "g", &None).is_none());
    // a row with an unparsable timestamp is dropped silently
    let row3 = vec![
        ("@timestamp".to_string(), "???".to_string()),
        ("@message".to_string(), "m".to_string()),
    ];
    assert!(parse_log_result(&row3, "g", &None).is_none());
}

// --- the remote-shell backend --------------------------------------------------

#[test]
fn test_parse_log_line_shapes() {
    let e = parse_log_line("2026-01-31T12:34:56Z hello there", "h1", "svc", 42);
    assert_eq!(e.timestamp, 1769862896000);
    assert_eq!(e.message, "hello there");
    assert_eq!(e.log_group, "kamal:h1");
    assert_eq!(e.log_stream, Some("svc".to_string()));

    // no timestamp prefix: the whole line is the message, ingestion time used
    let e2 = parse_log_line("no-spaces-here", "h1", "svc", 42);
    assert_eq!(e2.timestamp, 42);
    assert_eq!(e2.message, "no-spaces-here");

    // unparsable prefix: ingestion time, message keeps the rest
    let e3 = parse_log_line("XYZ message", "h1", "svc", 42);
    assert_eq!(e3.timestamp, 42);
    assert_eq!(e3.message, "message");
}

#[test]
fn test_commands() {
    assert_eq!(
        find_container_command("my-app"),
        "docker ps --filter 'name=my-app' --format '{{.ID}}' | head -1"
    );
    assert_eq!(
        docker_logs_command("abc123", &Some("1h".to_string()), 10),
        "docker logs abc123 --timestamps --since 1h --tail 1000"
    );
    assert_eq!(
        docker_logs_command("abc123", &None, 500),
        "docker logs abc123 --timestamps --tail 5000"
    );
}

#[test]
fn test_interpret_container_lookup() {
    assert_eq!(interpret_container_lookup("  abc123\n", "svc").unwrap(), "abc123");
    let err = interpret_container_lookup("   \n", "svc").unwrap_err();
    match err {
        SearchError::RemoteDiscovery(s) => assert_eq!(s, "svc"),
        _ => panic!("wrong variant"),
    }
}

#[test]
fn test_kamal_parse_logs() {
    let yaml = "service: svc\nservers:\n  - h1\n";
    let searcher = KamalSearcher::new(KamalConfig::parse(yaml).unwrap());
    assert_eq!(searcher.service(), "svc");
    assert_eq!(searcher.servers(), &vec!["h1".to_string()]);
    let raw = "1970-01-01T00:00:01Z error one\n1970-01-01T00:00:03Z error three\n\n1970-01-01T00:00:02Z error two\n1970-01-01T00:00:04Z healthy\n";
    let params = KamalSearchParams {
        patterns: vec!["error".to_string()],
        exclude: vec![],
        limit: 2,
        since: None,
        follow: false,
    };
    let got = searcher.parse_logs(raw, "h1", &params, 0);
    // newest first, capped at two, only matching lines
    assert_eq!(got.len(), 2);
    assert_eq!(got[0].message, "error three");
    assert_eq!(got[1].message, "error two");
}

// --- the live tail --------------------------------------------------------------

#[test]
fn test_follow_cancellation() {
    // after cancellation is requested, nothing is delivered and the remote
    // process is terminated, whatever arrives
    let incs = vec![];
    let excs = vec![];
    let (st, act) = follow_step(
        FollowState::StopRequested,
        FollowEvent::Line("1970-01-01T00:00:01Z hello".to_string()),
        "h1",
        "svc",
        0,
        &incs,
        &excs,
    );
    assert_eq!(st, FollowState::Stopped);
    assert!(matches!(act, FollowAction::Terminate));

    let (st2, act2) = follow_step(FollowState::Stopped, FollowEvent::Tick, "h1", "svc", 0, &incs, &excs);
    assert_eq!(st2, FollowState::Stopped);
    assert!(matches!(act2, FollowAction::Terminate));
}

#[test]
fn test_follow_delivery() {
    let incs = vec!["error".to_string()];
    let excs = vec!["noise".to_string()];
    let (st, act) = follow_step(
        FollowState::Running,
        FollowEvent::Line("1970-01-01T00:00:01Z an ERROR happened".to_string()),
        "h1",
        "svc",
        0,
        &incs,
        &excs,
    );
    assert_eq!(st, FollowState::Running);
    match act {
        FollowAction::Deliver(e) => {
            assert_eq!(e.message, "an ERROR happened");
            assert_eq!(e.timestamp, 1000);
        },
        _ => panic!("expected delivery"),
    }

    // filtered-out lines are skipped, the tail keeps running
    let (st2, act2) = follow_step(
        FollowState::Running,
        FollowEvent::Line("1970-01-01T00:00:01Z error noise".to_string()),
        "h1",
        "svc",
        0,
        &incs,
        &excs,
    );
    assert_eq!(st2, FollowState::Running);
    assert!(matches!(act2, FollowAction::Skip));

    // the stream ending terminates the tail
    let (st3, act3) = follow_step(FollowState::Running, FollowEvent::Eof, "h1", "svc", 0, &incs, &excs);
    assert_eq!(st3, FollowState::Stopped);
    assert!(matches!(act3, FollowAction::Terminate));

    // the consumer disappearing terminates it too, without delivering
    let (st4, act4) = follow_step(
        FollowState::Running,
        FollowEvent::ReceiverGone,
        "h1",
        "svc",
        0,
        &incs,
        &excs,
    );
    assert_eq!(st4, FollowState::Stopped);
    assert!(matches!(act4, FollowAction::Terminate));
}

// --- display helpers -------------------------------------------------------------

#[test]
fn test_shorten_region() {
    assert_eq!(shorten_region("ap-northeast-1"), "AN1");
    assert_eq!(shorten_region("us-east-1"), "UE1");
    assert_eq!(shorten_region("eu-central-2"), "EC2");
    assert_eq!(shorten_region("xx-unknown-1"), "xx-unk");
    assert_eq!(shorten_region("short"), "short");
}

#[test]
fn test_shorten_group() {
    assert_eq!(shorten_group("/aws/app/my-rails-app"), "MRA");
    assert_eq!(shorten_group("api_server"), "AS");
    assert_eq!(shorten_group("plain"), "PLA");
}

#[test]
fn test_strip_ansi_codes() {
    assert_eq!(strip_ansi_codes("\u{1b}[31mred\u{1b}[0m"), "red");
    assert_eq!(strip_ansi_codes("no escapes"), "no escapes");
    assert_eq!(strip_ansi_codes("tail\u{1b}[1;32m"), "tail");
}
