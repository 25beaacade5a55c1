//! Deterministic reordering and aggregation of search results.
//!
//! The fan-out orchestrator searches every target concurrently; whatever
//! order outcomes arrive in, the merged output is reordered deterministically
//! before it reaches the caller: concatenated and sorted by timestamp for
//! interleaved display, grouped by source (in first-appearance order, sorted
//! within each group) for grouped display.  Partial failure is not fatal:
//! aggregation keeps every target's slot, successes and failures side by
//! side, and never short-circuits.

use vstd::prelude::*;

use crate::entry::LogEntry;
use crate::errors::SearchError;

verus! {

broadcast use vstd::seq_lib::group_to_multiset_ensures;

/// Non-decreasing timestamps.
pub open spec fn sorted_asc(s: Seq<LogEntry>) -> bool {
    forall|i: int, j: int| 0 <= i < j < s.len() ==> s[i].timestamp <= s[j].timestamp
}

/// Non-increasing timestamps (newest first).
pub open spec fn sorted_desc(s: Seq<LogEntry>) -> bool {
    forall|i: int, j: int| 0 <= i < j < s.len() ==> s[i].timestamp >= s[j].timestamp
}

/// Sort entries by timestamp, oldest first.
pub fn sort_entries_ascending(entries: Vec<LogEntry>) -> (r: Vec<LogEntry>)
    ensures
        sorted_asc(r@),
        r@.to_multiset() == entries@.to_multiset(),
        r@.len() == entries@.len(),
{
    let mut src = entries;
    let ghost all = src@;
    let mut out: Vec<LogEntry> = Vec::new();
    proof {
        assert(out@.to_multiset().add(src@.to_multiset()) =~= all.to_multiset());
    }
    while src.len() > 0
        invariant
            sorted_asc(out@),
            out@.to_multiset().add(src@.to_multiset()) == all.to_multiset(),
            out@.len() + src@.len() == all.len(),
        decreases src@.len(),
    {
        let ghost old_src = src@;
        let e = src.remove(0);
        proof {
            assert(src@.to_multiset() =~= old_src.to_multiset().remove(e));
        }
        let mut p: usize = 0;
        while p < out.len() && out[p].timestamp <= e.timestamp
            invariant
                p <= out@.len(),
                forall|k: int| 0 <= k < p ==> out@[k].timestamp <= e.timestamp,
            decreases out@.len() - p,
        {
            p = p + 1;
        }
        let ghost old_out = out@;
        out.insert(p, e);
        proof {
            assert(out@ == old_out.insert(p as int, e));
            assert forall|i: int, j: int|
                0 <= i < j < out@.len() implies out@[i].timestamp <= out@[j].timestamp by {
                assert(sorted_asc(old_out));
                if i < p && j < p {
                    assert(out@[i] == old_out[i] && out@[j] == old_out[j]);
                } else if i < p && j == p {
                    assert(out@[i] == old_out[i]);
                } else if i < p && j > p {
                    assert(out@[i] == old_out[i] && out@[j] == old_out[j - 1]);
                } else if i == p && j > p {
                    assert(out@[j] == old_out[j - 1]);
                    assert(old_out[j - 1].timestamp > e.timestamp || old_out[j - 1].timestamp
                        >= e.timestamp);
                } else {
                    assert(out@[i] == old_out[i - 1] && out@[j] == old_out[j - 1]);
                }
            }
            assert(out@.to_multiset() =~= old_out.to_multiset().insert(e)) by {
                vstd::seq_lib::lemma_multiset_commutative(
                    old_out.subrange(0, p as int).push(e),
                    old_out.subrange(p as int, old_out.len() as int),
                );
                vstd::seq_lib::lemma_multiset_commutative(
                    old_out.subrange(0, p as int),
                    old_out.subrange(p as int, old_out.len() as int),
                );
                assert(old_out.subrange(0, p as int) + old_out.subrange(
                    p as int,
                    old_out.len() as int,
                ) =~= old_out);
            }
            assert(out@.to_multiset().add(src@.to_multiset()) =~= all.to_multiset());
        }
    }
    out
}

/// Sort entries by timestamp, newest first.
pub fn sort_entries_descending(entries: Vec<LogEntry>) -> (r: Vec<LogEntry>)
    ensures
        sorted_desc(r@),
        r@.to_multiset() == entries@.to_multiset(),
        r@.len() == entries@.len(),
{
    let mut src = entries;
    let ghost all = src@;
    let mut out: Vec<LogEntry> = Vec::new();
    proof {
        assert(out@.to_multiset().add(src@.to_multiset()) =~= all.to_multiset());
    }
    while src.len() > 0
        invariant
            sorted_desc(out@),
            out@.to_multiset().add(src@.to_multiset()) == all.to_multiset(),
            out@.len() + src@.len() == all.len(),
        decreases src@.len(),
    {
        let ghost old_src = src@;
        let e = src.remove(0);
        proof {
            assert(src@.to_multiset() =~= old_src.to_multiset().remove(e));
        }
        let mut p: usize = 0;
        while p < out.len() && out[p].timestamp >= e.timestamp
            invariant
                p <= out@.len(),
                forall|k: int| 0 <= k < p ==> out@[k].timestamp >= e.timestamp,
            decreases out@.len() - p,
        {
            p = p + 1;
        }
        let ghost old_out = out@;
        out.insert(p, e);
        proof {
            assert(out@ == old_out.insert(p as int, e));
            assert forall|i: int, j: int|
                0 <= i < j < out@.len() implies out@[i].timestamp >= out@[j].timestamp by {
                assert(sorted_desc(old_out));
                if i < p && j < p {
                    assert(out@[i] == old_out[i] && out@[j] == old_out[j]);
                } else if i < p && j == p {
                    assert(out@[i] == old_out[i]);
                } else if i < p && j > p {
                    assert(out@[i] == old_out[i] && out@[j] == old_out[j - 1]);
                } else if i == p && j > p {
                    assert(out@[j] == old_out[j - 1]);
                } else {
                    assert(out@[i] == old_out[i - 1] && out@[j] == old_out[j - 1]);
                }
            }
            assert(out@.to_multiset() =~= old_out.to_multiset().insert(e)) by {
                vstd::seq_lib::lemma_multiset_commutative(
                    old_out.subrange(0, p as int).push(e),
                    old_out.subrange(p as int, old_out.len() as int),
                );
                vstd::seq_lib::lemma_multiset_commutative(
                    old_out.subrange(0, p as int),
                    old_out.subrange(p as int, old_out.len() as int),
                );
                assert(old_out.subrange(0, p as int) + old_out.subrange(
                    p as int,
                    old_out.len() as int,
                ) =~= old_out);
            }
            assert(out@.to_multiset().add(src@.to_multiset()) =~= all.to_multiset());
        }
    }
    out
}

/// Keep at most `cap` entries, dropping from the end.
pub fn cap_entries(entries: &mut Vec<LogEntry>, cap: usize)
    ensures
        final(entries)@ == if old(entries)@.len() <= cap {
            old(entries)@
        } else {
            old(entries)@.take(cap as int)
        },
{
    entries.truncate(cap);
    proof {
        if old(entries)@.len() <= cap {
            assert(final(entries)@ =~= old(entries)@);
        }
    }
}

// --- fan-out aggregation -------------------------------------------------

/// The concatenation of all successful targets' entries, in target order,
/// paired with the failed targets' indices and errors, in target order.
pub open spec fn spec_aggregate(rs: Seq<Result<Vec<LogEntry>, SearchError>>) -> (
    Seq<LogEntry>,
    Seq<(int, SearchError)>,
)
    decreases rs.len(),
{
    if rs.len() == 0 {
        (Seq::empty(), Seq::empty())
    } else {
        let prev = spec_aggregate(rs.drop_last());
        match rs.last() {
            Ok(v) => (prev.0 + v@, prev.1),
            Err(e) => (prev.0, prev.1.push((rs.len() - 1, e))),
        }
    }
}

/// How many targets failed.
pub open spec fn spec_err_count(rs: Seq<Result<Vec<LogEntry>, SearchError>>) -> int
    decreases rs.len(),
{
    if rs.len() == 0 {
        0
    } else {
        spec_err_count(rs.drop_last()) + if rs.last() is Err {
            1int
        } else {
            0
        }
    }
}

/// Merge per-target outcomes: all successful entries concatenated in target
/// order, and every failure kept beside them with its target index.  No
/// outcome is dropped and no failure aborts the rest.
pub fn aggregate_results(results: Vec<Result<Vec<LogEntry>, SearchError>>) -> (r: (
    Vec<LogEntry>,
    Vec<(usize, SearchError)>,
))
    ensures
        r.0@ == spec_aggregate(results@).0,
        r.1@.map_values(|p: (usize, SearchError)| (p.0 as int, p.1)) == spec_aggregate(
            results@,
        ).1,
        r.1@.len() == spec_err_count(results@),
{
    let mut results = results;
    let total = results.len();
    let mut entries: Vec<LogEntry> = Vec::new();
    let mut errors: Vec<(usize, SearchError)> = Vec::new();
    let ghost all = results@;
    let mut i: usize = 0;
    proof {
        assert(all.take(0) =~= Seq::<Result<Vec<LogEntry>, SearchError>>::empty());
        assert(errors@.map_values(|p: (usize, SearchError)| (p.0 as int, p.1)) =~= Seq::<(
            int,
            SearchError,
        )>::empty());
    }
    while results.len() > 0
        invariant
            total == all.len(),
            results@ == all.skip(i as int),
            0 <= i <= all.len(),
            entries@ == spec_aggregate(all.take(i as int)).0,
            errors@.map_values(|p: (usize, SearchError)| (p.0 as int, p.1)) == spec_aggregate(
                all.take(i as int),
            ).1,
            errors@.len() == spec_err_count(all.take(i as int)),
        decreases results@.len(),
    {
        let ghost pre = all.take(i as int);
        let ghost preagg = spec_aggregate(pre);
        let one = results.remove(0);
        proof {
            assert(one == all[i as int]);
            assert(all.skip(i as int).remove(0) =~= all.skip(i + 1 as int));
            assert(all.take(i + 1 as int).drop_last() =~= pre);
            assert(all.take(i + 1 as int).last() == all[i as int]);
        }
        match one {
            Ok(v) => {
                let ghost oldentries = entries@;
                let mut v = v;
                entries.append(&mut v);
                proof {
                    assert(entries@ == oldentries + all[i as int]->Ok_0@);
                }
            },
            Err(e) => {
                let ghost olderrs = errors@;
                errors.push((i, e));
                proof {
                    assert(errors@.map_values(|p: (usize, SearchError)| (p.0 as int, p.1))
                        =~= olderrs.map_values(|p: (usize, SearchError)| (p.0 as int, p.1)).push(
                        (i as int, all[i as int]->Err_0),
                    ));
                }
            },
        }
        i = i + 1;
    }
    proof {
        assert(all.take(all.len() as int) =~= all);
    }
    (entries, errors)
}


/// A permutation stays a permutation under mapping.
pub proof fn lemma_multiset_map<A, B>(s1: Seq<A>, s2: Seq<A>, f: spec_fn(A) -> B)
    requires
        s1.to_multiset() == s2.to_multiset(),
    ensures
        s1.map_values(f).to_multiset() == s2.map_values(f).to_multiset(),
    decreases s1.len(),
{
    if s1.len() == 0 {
        assert(s2.to_multiset().len() == 0);
        assert(s2.len() == 0);
        assert(s1.map_values(f) =~= Seq::<B>::empty());
        assert(s2.map_values(f) =~= Seq::<B>::empty());
    } else {
        let x = s1.last();
        assert(s1[s1.len() - 1] == x);
        assert(s1.contains(x));
        assert(s1.to_multiset().count(x) > 0);
        assert(s2.contains(x));
        let i = choose|i: int| 0 <= i < s2.len() && s2[i] == x;
        let s1h = s1.drop_last();
        let s2r = s2.remove(i);
        assert(s1 =~= s1h.push(x));
        assert(s1.to_multiset() =~= s1h.to_multiset().insert(x));
        assert(s2r.to_multiset() =~= s2.to_multiset().remove(x));
        assert(s1h.to_multiset() =~= s2r.to_multiset()) by {
            assert(s1h.to_multiset().insert(x).remove(x) =~= s1h.to_multiset());
        }
        lemma_multiset_map(s1h, s2r, f);
        assert(s1.map_values(f) =~= s1h.map_values(f).push(f(x)));
        assert(s1.map_values(f).to_multiset() =~= s1h.map_values(f).to_multiset().insert(f(x)));
        assert(s2.map_values(f).remove(i) =~= s2r.map_values(f));
        assert(s2.map_values(f)[i] == f(x));
        assert(s2.map_values(f).remove(i).to_multiset() =~= s2.map_values(f).to_multiset().remove(
            f(x),
        ));
        assert(s2.map_values(f).contains(f(x)));
        assert(s2.map_values(f).to_multiset().count(f(x)) > 0);
        assert(s2.map_values(f).to_multiset().remove(f(x)).insert(f(x)) =~= s2.map_values(
            f,
        ).to_multiset());
        assert(s1.map_values(f).to_multiset() =~= s2.map_values(f).to_multiset());
    }
}

/// Partition law for the fan-out: every target lands either among the
/// successes or among the reported failures, so with `n` targets the
/// aggregation reflects exactly `n` outcomes and a failing target never
/// cancels its siblings.
pub proof fn lemma_fanout_partition(rs: Seq<Result<Vec<LogEntry>, SearchError>>)
    ensures
        spec_aggregate(rs).1.len() == spec_err_count(rs),
        0 <= spec_err_count(rs) <= rs.len(),
        forall|k: int|
            0 <= k < spec_aggregate(rs).1.len() ==> {
                let p = #[trigger] spec_aggregate(rs).1[k];
                0 <= p.0 < rs.len() && rs[p.0] is Err && p.1 == rs[p.0]->Err_0
            },
    decreases rs.len(),
{
    if rs.len() > 0 {
        lemma_fanout_partition(rs.drop_last());
        assert forall|k: int|
            0 <= k < spec_aggregate(rs).1.len() implies {
            let p = #[trigger] spec_aggregate(rs).1[k];
            0 <= p.0 < rs.len() && rs[p.0] is Err && p.1 == rs[p.0]->Err_0
        } by {
            let prev = spec_aggregate(rs.drop_last());
            if k < prev.1.len() {
                assert(spec_aggregate(rs).1[k] == prev.1[k]);
                let p = prev.1[k];
                assert(rs.drop_last()[p.0] == rs[p.0]);
            }
        }
    }
}

} // verus!
