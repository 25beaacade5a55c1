//! The poll-based query backend: building the query text, classifying the
//! backend's reported status, and parsing result rows.
//!
//! A submitted query moves through `Submitted -> Running -> {Complete,
//! Failed, Cancelled, TimedOut}`.  The caller drives the protocol (submit,
//! then poll until a terminal state, waiting `POLL_INTERVAL_MS` between
//! polls); the decisions — what each reported status means, and what each
//! result row yields — are made here.

use vstd::prelude::*;

use crate::chars::str_eq;
use crate::entry::LogEntry;
use crate::entry::LogEntryV;
use crate::errors::SearchError;
use crate::timefmt::parse_cloudwatch_timestamp;
use crate::timefmt::spec_parse_cloudwatch_timestamp;

verus! {

/// How long the caller must wait between two polls of one query.
pub const POLL_INTERVAL_MS: u64 = 500;

// --- query text -----------------------------------------------------------

/// A pattern with every single quote escaped.
pub open spec fn spec_escape_quotes(s: Seq<char>) -> Seq<char>
    decreases s.len(),
{
    if s.len() == 0 {
        Seq::empty()
    } else {
        spec_escape_quotes(s.drop_last()) + (if s.last() == '\'' {
            seq!['\\', '\'']
        } else {
            seq![s.last()]
        })
    }
}

/// One filter clause: a substring match on the message.
pub open spec fn spec_filter_clause(p: Seq<char>) -> Seq<char> {
    "@message like /"@ + spec_escape_quotes(p) + "/"@
}

/// The filter clauses joined with `and`.
pub open spec fn spec_join_and(parts: Seq<Seq<char>>) -> Seq<char>
    decreases parts.len(),
{
    if parts.len() == 0 {
        Seq::empty()
    } else if parts.len() == 1 {
        parts[0]
    } else {
        spec_join_and(parts.drop_last()) + " and "@ + parts.last()
    }
}

/// Decimal digits of `n`.
pub open spec fn dec_digits(n: nat) -> Seq<char>
    decreases n,
{
    if n < 10 {
        seq![((48 + n) as u8) as char]
    } else {
        dec_digits(n / 10).push(((48 + n % 10) as u8) as char)
    }
}

/// Decimal rendering of a signed number.
pub open spec fn spec_i64_dec(n: int) -> Seq<char> {
    if n < 0 {
        seq!['-'] + dec_digits((-n) as nat)
    } else {
        dec_digits(n as nat)
    }
}

/// The full query text sent to the backend: fetch timestamp, message and
/// stream, filter by every pattern (AND), newest first, capped.  Exclude
/// patterns are deliberately absent: this backend's filter language only
/// combines positive substring matches, so excludes are applied client-side.
pub open spec fn spec_insights_query(patterns: Seq<Seq<char>>, limit: int) -> Seq<char> {
    "fields @timestamp, @message, @logStream\n| filter "@ + spec_join_and(
        patterns.map_values(|p: Seq<char>| spec_filter_clause(p)),
    ) + "\n| sort @timestamp desc\n| limit "@ + spec_i64_dec(limit)
}

fn escape_quotes(p: &str) -> (r: String)
    ensures
        r@ == spec_escape_quotes(p@),
{
    let cs = crate::chars::chars_of(p);
    let mut out: Vec<char> = Vec::new();
    let mut i: usize = 0;
    proof {
        assert(cs@.take(0) =~= Seq::<char>::empty());
    }
    while i < cs.len()
        invariant
            cs@ == p@,
            i <= cs@.len(),
            out@ == spec_escape_quotes(cs@.take(i as int)),
        decreases cs@.len() - i,
    {
        proof {
            assert(cs@.take(i + 1 as int).drop_last() =~= cs@.take(i as int));
            assert(cs@.take(i + 1 as int).last() == cs@[i as int]);
        }
        if cs[i] == '\'' {
            out.push('\\');
            out.push('\'');
            proof {
                assert(out@ =~= spec_escape_quotes(cs@.take(i as int)) + seq!['\\', '\'']);
            }
        } else {
            out.push(cs[i]);
            proof {
                assert(out@ =~= spec_escape_quotes(cs@.take(i as int)) + seq![cs@[i as int]]);
            }
        }
        i = i + 1;
    }
    proof {
        assert(cs@.take(cs@.len() as int) =~= cs@);
    }
    crate::chars::string_from_chars(out.as_slice())
}

/// Decimal digits of `n`, appended to `out`.
fn push_dec_digits(n: u64, out: &mut Vec<char>)
    ensures
        final(out)@ == old(out)@ + dec_digits(n as nat),
    decreases n,
{
    if n < 10 {
        out.push(((48 + n) as u8) as char);
        proof {
            assert(final(out)@ =~= old(out)@ + dec_digits(n as nat));
        }
    } else {
        let d = n % 10;
        push_dec_digits(n / 10, out);
        out.push(((48 + d) as u8) as char);
        proof {
            assert(final(out)@ =~= old(out)@ + dec_digits(n as nat));
        }
    }
}

/// Decimal rendering of an unsigned 64-bit number.
pub fn u64_to_string(n: u64) -> (r: String)
    ensures
        r@ == dec_digits(n as nat),
{
    let mut out: Vec<char> = Vec::new();
    push_dec_digits(n, &mut out);
    proof {
        assert(out@ =~= Seq::<char>::empty() + dec_digits(n as nat));
        assert(Seq::<char>::empty() + dec_digits(n as nat) =~= dec_digits(n as nat));
    }
    crate::chars::string_from_chars(out.as_slice())
}

/// Decimal rendering of a signed 64-bit number.
pub fn i64_to_string(n: i64) -> (r: String)
    ensures
        r@ == spec_i64_dec(n as int),
{
    let mut out: Vec<char> = Vec::new();
    if n < 0 {
        out.push('-');
        let mag: u64 = if n == i64::MIN {
            9223372036854775808u64
        } else {
            (-n) as u64
        };
        push_dec_digits(mag, &mut out);
        proof {
            assert(out@ =~= seq!['-'] + dec_digits(mag as nat));
        }
    } else {
        push_dec_digits(n as u64, &mut out);
        proof {
            assert(out@ =~= Seq::<char>::empty() + dec_digits(n as nat));
            assert(Seq::<char>::empty() + dec_digits(n as nat) =~= dec_digits(n as nat));
        }
    }
    crate::chars::string_from_chars(out.as_slice())
}

/// Build the backend query text from include patterns (ANDed substring
/// matches) and a result cap.
pub fn build_insights_query(patterns: &Vec<String>, limit: i32) -> (r: String)
    ensures
        r@ == spec_insights_query(patterns.deep_view(), limit as int),
{
    let mut clause = String::new();
    let ghost mapped = patterns.deep_view().map_values(|p: Seq<char>| spec_filter_clause(p));
    let mut i: usize = 0;
    proof {
        assert(patterns.deep_view().len() == patterns@.len());
        assert(mapped.take(0) =~= Seq::<Seq<char>>::empty());
    }
    while i < patterns.len()
        invariant
            mapped == patterns.deep_view().map_values(|p: Seq<char>| spec_filter_clause(p)),
            mapped.len() == patterns@.len(),
            i <= patterns@.len(),
            clause@ == spec_join_and(mapped.take(i as int)),
        decreases patterns@.len() - i,
    {
        proof {
            assert(patterns.deep_view()[i as int] == patterns@[i as int]@);
            assert(mapped[i as int] == spec_filter_clause(patterns@[i as int]@));
            assert(mapped.take(i + 1 as int).drop_last() =~= mapped.take(i as int));
            assert(mapped.take(i + 1 as int).last() == mapped[i as int]);
        }
        if i > 0 {
            clause.append(" and ");
        }
        clause.append("@message like /");
        let esc = escape_quotes(patterns[i].as_str());
        clause.append(esc.as_str());
        clause.append("/");
        proof {
            if i == 0 {
                assert(clause@ =~= spec_filter_clause(patterns@[0]@));
                assert(spec_join_and(mapped.take(1)) == mapped.take(1)[0]);
            } else {
                assert(clause@ =~= spec_join_and(mapped.take(i as int)) + " and "@ + mapped[
                    i as int
                ]);
            }
        }
        i = i + 1;
    }
    proof {
        assert(mapped.take(patterns@.len() as int) =~= mapped);
    }
    let mut q = "fields @timestamp, @message, @logStream\n| filter ".to_owned();
    q.append(clause.as_str());
    q.append("\n| sort @timestamp desc\n| limit ");
    let ls = i64_to_string(limit as i64);
    q.append(ls.as_str());
    q
}

// --- status classification -------------------------------------------------

/// What one reported query status means for the poll loop.
#[derive(Debug, Clone, PartialEq, Eq, Structural)]
pub enum PollDecision {
    /// The query is complete; its rows are the final result.
    Complete,
    /// The backend reported a terminal failure (failed/cancelled/timed out).
    Terminal,
    /// Still running: wait `POLL_INTERVAL_MS` and poll again.
    StillRunning,
}

/// The statuses that mean a terminal failure.
pub open spec fn is_failure_status(s: Seq<char>) -> bool {
    s == "Failed"@ || s == "Cancelled"@ || s == "Timeout"@
}

/// Classify one reported query status.  Every status other than the three
/// terminal failures and completion means "still running": the poll loop
/// has no overall timeout and ends only on a backend-reported terminal
/// state.
pub fn classify_query_status(status: &str) -> (r: PollDecision)
    ensures
        r is Complete <==> status@ == "Complete"@,
        r is Terminal <==> is_failure_status(status@),
        r is StillRunning <==> (status@ != "Complete"@ && !is_failure_status(status@)),
{
    proof {
        reveal_strlit("Complete");
        reveal_strlit("Failed");
        reveal_strlit("Cancelled");
        reveal_strlit("Timeout");
        assert("Complete"@.len() == 8);
        assert("Failed"@.len() == 6);
        assert("Complete"@ != "Failed"@);
    }
    if str_eq(status, "Complete") {
        PollDecision::Complete
    } else if str_eq(status, "Failed") || str_eq(status, "Cancelled") || str_eq(
        status,
        "Timeout",
    ) {
        PollDecision::Terminal
    } else {
        PollDecision::StillRunning
    }
}

/// The error surfaced when the backend reports a terminal failure: it
/// carries the query handle and the status string.
pub fn terminal_error(query_id: &str, status: &str) -> (r: SearchError)
    ensures
        r matches SearchError::QueryTerminal { query_id: q, status: s } && q@ == query_id@ && s@
            == status@,
{
    SearchError::QueryTerminal { query_id: query_id.to_owned(), status: status.to_owned() }
}

// --- result rows -----------------------------------------------------------

/// The value of the last field named `name` in a row, if any.
pub open spec fn spec_field(row: Seq<(Seq<char>, Seq<char>)>, name: Seq<char>) -> Option<Seq<char>>
    decreases row.len(),
{
    if row.len() == 0 {
        None
    } else if row.last().0 == name {
        Some(row.last().1)
    } else {
        spec_field(row.drop_last(), name)
    }
}

/// What one result row yields: an entry when it has a parsable timestamp
/// and a message; nothing (dropped silently) otherwise.  Unrecognized
/// fields are ignored.
pub open spec fn spec_row_entry(
    row: Seq<(Seq<char>, Seq<char>)>,
    log_group: Seq<char>,
    region: Option<Seq<char>>,
) -> Option<LogEntryV> {
    let ts = match spec_field(row, "@timestamp"@) {
        Some(v) => spec_parse_cloudwatch_timestamp(v),
        None => None,
    };
    match ts {
        Some(t) => match spec_field(row, "@message"@) {
            Some(m) => Some(
                LogEntryV {
                    timestamp: t as int,
                    message: m,
                    log_group: log_group,
                    log_stream: spec_field(row, "@logStream"@),
                    region: region,
                },
            ),
            None => None,
        },
        None => None,
    }
}

/// Parse one result row (a bag of named fields) into an entry; a row
/// missing its timestamp or message, or with an unparsable timestamp, is
/// dropped, not an error.
pub fn parse_log_result(
    row: &Vec<(String, String)>,
    log_group: &str,
    region: &Option<String>,
) -> (r: Option<LogEntry>)
    ensures
        match r {
            Some(e) => Some(e@) == spec_row_entry(
                row@.map_values(|p: (String, String)| (p.0@, p.1@)),
                log_group@,
                region.deep_view(),
            ),
            None => spec_row_entry(
                row@.map_values(|p: (String, String)| (p.0@, p.1@)),
                log_group@,
                region.deep_view(),
            ) is None,
        },
{
    proof {
        reveal_strlit("@timestamp");
        reveal_strlit("@message");
        reveal_strlit("@logStream");
    }
    let ghost rowv = row@.map_values(|p: (String, String)| (p.0@, p.1@));
    let mut ts_text: Option<&String> = None;
    let mut message: Option<&String> = None;
    let mut stream: Option<&String> = None;
    let mut i: usize = 0;
    proof {
        assert(rowv.take(0) =~= Seq::<(Seq<char>, Seq<char>)>::empty());
    }
    while i < row.len()
        invariant
            rowv == row@.map_values(|p: (String, String)| (p.0@, p.1@)),
            rowv.len() == row@.len(),
            i <= row@.len(),
            match ts_text {
                Some(v) => spec_field(rowv.take(i as int), "@timestamp"@) == Some(v@),
                None => spec_field(rowv.take(i as int), "@timestamp"@) is None,
            },
            match message {
                Some(v) => spec_field(rowv.take(i as int), "@message"@) == Some(v@),
                None => spec_field(rowv.take(i as int), "@message"@) is None,
            },
            match stream {
                Some(v) => spec_field(rowv.take(i as int), "@logStream"@) == Some(v@),
                None => spec_field(rowv.take(i as int), "@logStream"@) is None,
            },
        decreases row@.len() - i,
    {
        proof {
            reveal_strlit("@timestamp");
            reveal_strlit("@message");
            reveal_strlit("@logStream");
            assert("@timestamp"@.len() == 10);
            assert("@message"@.len() == 8);
            assert("@logStream"@.len() == 10);
            assert("@timestamp"@[1] == 't' && "@logStream"@[1] == 'l');
            assert("@timestamp"@ != "@logStream"@);
            assert("@timestamp"@ != "@message"@);
            assert("@logStream"@ != "@message"@);
            assert(rowv.take(i + 1 as int).drop_last() =~= rowv.take(i as int));
            assert(rowv.take(i + 1 as int).last() == rowv[i as int]);
            assert(rowv[i as int] == (row@[i as int].0@, row@[i as int].1@));
        }
        let name = &row[i].0;
        if str_eq(name.as_str(), "@timestamp") {
            ts_text = Some(&row[i].1);
        } else if str_eq(name.as_str(), "@message") {
            message = Some(&row[i].1);
        } else if str_eq(name.as_str(), "@logStream") {
            stream = Some(&row[i].1);
        }
        i = i + 1;
    }
    proof {
        assert(rowv.take(rowv.len() as int) =~= rowv);
    }
    let ts = match ts_text {
        Some(v) => parse_cloudwatch_timestamp(v.as_str()),
        None => None,
    };
    match ts {
        Some(t) => match message {
            Some(m) => Some(
                LogEntry {
                    timestamp: t,
                    message: m.clone(),
                    log_group: log_group.to_owned(),
                    log_stream: match stream {
                        Some(s) => Some(s.clone()),
                        None => None,
                    },
                    region: match region {
                        Some(r) => Some(r.clone()),
                        None => None,
                    },
                },
            ),
            None => None,
        },
        None => None,
    }
}

/// The entries of a whole result page, in row order, unparsable rows
/// dropped.
pub open spec fn spec_rows_entries(
    rows: Seq<Seq<(Seq<char>, Seq<char>)>>,
    log_group: Seq<char>,
    region: Option<Seq<char>>,
) -> Seq<LogEntryV>
    decreases rows.len(),
{
    if rows.len() == 0 {
        Seq::empty()
    } else {
        spec_rows_entries(rows.drop_last(), log_group, region) + match spec_row_entry(
            rows.last(),
            log_group,
            region,
        ) {
            Some(e) => seq![e],
            None => Seq::empty(),
        }
    }
}

/// Parse a complete page of result rows.
pub fn parse_result_rows(
    rows: &Vec<Vec<(String, String)>>,
    log_group: &str,
    region: &Option<String>,
) -> (r: Vec<LogEntry>)
    ensures
        r@.map_values(|e: LogEntry| e@) == spec_rows_entries(
            rows@.map_values(
                |row: Vec<(String, String)>| row@.map_values(
                    |p: (String, String)| (p.0@, p.1@),
                ),
            ),
            log_group@,
            region.deep_view(),
        ),
{
    let ghost rowsv = rows@.map_values(
        |row: Vec<(String, String)>| row@.map_values(|p: (String, String)| (p.0@, p.1@)),
    );
    let mut out: Vec<LogEntry> = Vec::new();
    let mut i: usize = 0;
    proof {
        assert(rowsv.take(0) =~= Seq::<Seq<(Seq<char>, Seq<char>)>>::empty());
        assert(out@.map_values(|e: LogEntry| e@) =~= Seq::<LogEntryV>::empty());
    }
    while i < rows.len()
        invariant
            rowsv == rows@.map_values(
                |row: Vec<(String, String)>| row@.map_values(
                    |p: (String, String)| (p.0@, p.1@),
                ),
            ),
            rowsv.len() == rows@.len(),
            i <= rows@.len(),
            out@.map_values(|e: LogEntry| e@) == spec_rows_entries(
                rowsv.take(i as int),
                log_group@,
                region.deep_view(),
            ),
        decreases rows@.len() - i,
    {
        proof {
            assert(rowsv.take(i + 1 as int).drop_last() =~= rowsv.take(i as int));
            assert(rowsv.take(i + 1 as int).last() == rowsv[i as int]);
            assert(rowsv[i as int] == rows@[i as int]@.map_values(
                |p: (String, String)| (p.0@, p.1@),
            ));
        }
        let ghost before = out@.map_values(|e: LogEntry| e@);
        match parse_log_result(&rows[i], log_group, region) {
            Some(e) => {
                out.push(e);
                proof {
                    assert(out@.map_values(|x: LogEntry| x@) =~= before.push(e@));
                    assert(before.push(e@) =~= before + seq![e@]);
                }
            },
            None => {
                proof {
                    assert(before + Seq::<LogEntryV>::empty() =~= before);
                }
            },
        }
        i = i + 1;
    }
    proof {
        assert(rowsv.take(rowsv.len() as int) =~= rowsv);
    }
    out
}

// --- listing pages -----------------------------------------------------------

/// The names present in one page of a resource listing, in page order.
pub open spec fn spec_page_names(page: Seq<Option<String>>) -> Seq<Seq<char>>
    decreases page.len(),
{
    if page.len() == 0 {
        Seq::empty()
    } else {
        spec_page_names(page.drop_last()) + match page.last() {
            Some(n) => seq![n@],
            None => Seq::empty(),
        }
    }
}

/// Append one page of a paginated resource listing: the named entries are
/// kept in page order, unnamed ones are skipped.  The caller follows the
/// continuation token, calling this once per page until none remains.
pub fn append_page_names(acc: &mut Vec<String>, page: Vec<Option<String>>)
    ensures
        final(acc).deep_view() == old(acc).deep_view() + spec_page_names(page@),
{
    let ghost pagev = page@;
    let mut page = page;
    let mut i: usize = 0;
    proof {
        assert(pagev.take(0) =~= Seq::<Option<String>>::empty());
        assert(old(acc).deep_view() + spec_page_names(pagev.take(0)) =~= old(acc).deep_view());
    }
    let n = page.len();
    while i < n
        invariant
            n == pagev.len(),
            page@ == pagev.skip(i as int),
            i <= n,
            acc.deep_view() == old(acc).deep_view() + spec_page_names(pagev.take(i as int)),
        decreases n - i,
    {
        proof {
            assert(pagev.take(i + 1 as int).drop_last() =~= pagev.take(i as int));
            assert(pagev.take(i + 1 as int).last() == pagev[i as int]);
        }
        let one = page.remove(0);
        proof {
            assert(pagev.skip(i as int).remove(0) =~= pagev.skip(i + 1 as int));
            assert(one == pagev[i as int]);
        }
        let ghost before = acc.deep_view();
        match one {
            Some(name) => {
                let ghost namev = name@;
                acc.push(name);
                proof {
                    assert(acc.deep_view() =~= before.push(namev));
                    assert(before.push(namev) =~= before + seq![namev]);
                }
            },
            None => {
                proof {
                    assert(before + Seq::<Seq<char>>::empty() =~= before);
                }
            },
        }
        i = i + 1;
    }
    proof {
        assert(pagev.take(n as int) =~= pagev);
    }
}

} // verus!
