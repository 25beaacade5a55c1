//! Include/exclude filtering with case-insensitive substring semantics.
//!
//! A line is kept when it contains every include pattern (an empty include
//! list keeps everything) and none of the exclude patterns, all compared
//! ASCII-case-insensitively.

use vstd::prelude::*;

use crate::chars::chars_of;
use crate::chars::lower_char;
use crate::chars::to_lower_char;

verus! {

/// `needle` occurs in `hay` at position `i`, ignoring ASCII case.
pub open spec fn ci_match_at(hay: Seq<char>, needle: Seq<char>, i: int) -> bool {
    &&& 0 <= i
    &&& i + needle.len() <= hay.len()
    &&& forall|j: int|
        0 <= j < needle.len() ==> lower_char(hay[i + j]) == lower_char(#[trigger] needle[j])
}

/// `needle` occurs somewhere in `hay`, ignoring ASCII case.
pub open spec fn ci_contains(hay: Seq<char>, needle: Seq<char>) -> bool {
    exists|i: int| ci_match_at(hay, needle, i)
}

/// A message passes the filters: every include pattern occurs in it, and no
/// exclude pattern does.
pub open spec fn spec_matches_filters(
    msg: Seq<char>,
    includes: Seq<Seq<char>>,
    excludes: Seq<Seq<char>>,
) -> bool {
    &&& forall|i: int| 0 <= i < includes.len() ==> ci_contains(msg, #[trigger] includes[i])
    &&& !exists|i: int| 0 <= i < excludes.len() && ci_contains(msg, #[trigger] excludes[i])
}

/// Case-insensitive substring test on character vectors.
fn ci_contains_chars(hay: &Vec<char>, needle: &Vec<char>) -> (r: bool)
    ensures
        r == ci_contains(hay@, needle@),
{
    let hn = hay.len();
    let nn = needle.len();
    if nn > hn {
        proof {
            assert forall|i: int| !ci_match_at(hay@, needle@, i) by {}
        }
        return false;
    }
    let mut i: usize = 0;
    while i <= hn - nn
        invariant
            nn <= hn == hay@.len(),
            nn == needle@.len(),
            i <= hn - nn + 1,
            forall|k: int| 0 <= k < i ==> !ci_match_at(hay@, needle@, k),
        decreases hn - nn - i + 1,
    {
        let mut j: usize = 0;
        let mut ok = true;
        while j < nn && ok
            invariant
                nn <= hn == hay@.len(),
                nn == needle@.len(),
                i + nn <= hn,
                j <= nn,
                ok ==> forall|m: int|
                    0 <= m < j ==> lower_char(hay@[i + m]) == lower_char(#[trigger] needle@[m]),
                !ok ==> !ci_match_at(hay@, needle@, i as int),
            decreases nn - j + (if ok { 1int } else { 0int }),
        {
            if to_lower_char(hay[i + j]) != to_lower_char(needle[j]) {
                proof {
                    assert(lower_char(hay@[i + j]) != lower_char(needle@[j as int]));
                }
                ok = false;
            } else {
                j = j + 1;
            }
        }
        if ok {
            proof {
                assert(ci_match_at(hay@, needle@, i as int));
            }
            return true;
        }
        i = i + 1;
    }
    proof {
        assert forall|k: int| !ci_match_at(hay@, needle@, k) by {
            if 0 <= k <= hn - nn {
                assert(!ci_match_at(hay@, needle@, k));
            }
        }
    }
    false
}

/// Case-insensitive substring test on strings.
pub fn contains_ci(hay: &str, needle: &str) -> (r: bool)
    ensures
        r == ci_contains(hay@, needle@),
{
    let h = chars_of(hay);
    let n = chars_of(needle);
    ci_contains_chars(&h, &n)
}

/// Whether a message passes the include (all must occur) and exclude (none
/// may occur) patterns, ASCII-case-insensitively.
pub fn matches_filters(message: &str, includes: &Vec<String>, excludes: &Vec<String>) -> (r: bool)
    ensures
        r == spec_matches_filters(message@, includes.deep_view(), excludes.deep_view()),
{
    let msg = chars_of(message);
    let mut i: usize = 0;
    while i < includes.len()
        invariant
            msg@ == message@,
            i <= includes@.len(),
            forall|k: int|
                0 <= k < i ==> ci_contains(message@, #[trigger] includes.deep_view()[k]),
        decreases includes@.len() - i,
    {
        let pat = chars_of(includes[i].as_str());
        proof {
            assert(includes.deep_view()[i as int] == includes@[i as int]@);
        }
        if !ci_contains_chars(&msg, &pat) {
            return false;
        }
        i = i + 1;
    }
    let mut e: usize = 0;
    while e < excludes.len()
        invariant
            msg@ == message@,
            e <= excludes@.len(),
            forall|k: int|
                0 <= k < includes.deep_view().len() ==> ci_contains(
                    message@,
                    #[trigger] includes.deep_view()[k],
                ),
            forall|k: int|
                0 <= k < e ==> !ci_contains(message@, #[trigger] excludes.deep_view()[k]),
        decreases excludes@.len() - e,
    {
        let pat = chars_of(excludes[e].as_str());
        proof {
            assert(excludes.deep_view()[e as int] == excludes@[e as int]@);
        }
        if ci_contains_chars(&msg, &pat) {
            return false;
        }
        e = e + 1;
    }
    true
}

/// The filtering law: a line matching all includes and no exclude is kept;
/// a line matching any exclude is dropped; an empty include list keeps
/// every line that no exclude pattern hits.
pub proof fn lemma_include_exclude_filtering(
    msg: Seq<char>,
    includes: Seq<Seq<char>>,
    excludes: Seq<Seq<char>>,
)
    ensures
        ((forall|i: int| 0 <= i < includes.len() ==> ci_contains(msg, #[trigger] includes[i]))
            && (forall|i: int|
            0 <= i < excludes.len() ==> !ci_contains(msg, #[trigger] excludes[i])))
            ==> spec_matches_filters(msg, includes, excludes),
        (exists|i: int| 0 <= i < excludes.len() && ci_contains(msg, #[trigger] excludes[i]))
            ==> !spec_matches_filters(msg, includes, excludes),
        includes.len() == 0 ==> (spec_matches_filters(msg, includes, excludes) <==> !exists|i: int|
            0 <= i < excludes.len() && ci_contains(msg, #[trigger] excludes[i])),
{
}

} // verus!
