//! Target address resolution: a raw target string is split into an optional
//! endpoint (region) prefix and a resource (log group) name.
//!
//! The prefix before the first colon is taken as a region only when it has
//! the strict region shape: at least three hyphen-separated segments, every
//! segment but the last a non-empty run of lowercase ASCII letters (the
//! first exactly two letters long), and a final segment that is a decimal
//! number fitting in 32 bits.  Otherwise the whole string is the resource,
//! so resource names may legitimately contain colons.

use vstd::prelude::*;

use crate::chars::all_digits;
use crate::chars::chars_of;
use crate::chars::copy_range;
use crate::chars::digit_char;
use crate::chars::digit_value;
use crate::chars::digits_val;
use crate::chars::find_char;
use crate::chars::find_char_exec;
use crate::chars::is_lower_alpha;
use crate::chars::lemma_digits_val_prefix;
use crate::chars::lemma_find_char_is;
use crate::chars::lower_alpha_char;
use crate::chars::spec_split;
use crate::chars::spec_trim;
use crate::chars::split_chars;
use crate::chars::string_from_chars;
use crate::chars::trim_bounds;

verus! {

/// Mathematical model of a resolved target.
pub ghost struct ResolvedTarget {
    pub region: Option<Seq<char>>,
    pub log_group: Seq<char>,
}

/// A non-empty, all-digit sequence whose decimal value fits in a `u32`.
pub open spec fn is_u32_numeric(s: Seq<char>) -> bool {
    s.len() > 0 && all_digits(s) && digits_val(s) <= u32::MAX
}

/// A non-empty run of lowercase ASCII letters.
pub open spec fn is_lower_word(s: Seq<char>) -> bool {
    s.len() > 0 && forall|i: int| 0 <= i < s.len() ==> is_lower_alpha(s[i])
}

/// The strict region shape: at least three hyphen-separated segments, every
/// segment but the last a non-empty run of lowercase ASCII letters, the
/// first exactly two letters long, and the last a decimal number.
pub open spec fn spec_is_valid_region(s: Seq<char>) -> bool {
    let parts = spec_split(s, '-');
    &&& parts.len() >= 3
    &&& is_u32_numeric(parts.last())
    &&& parts[0].len() == 2
    &&& forall|i: int| 0 <= i < parts.len() - 1 ==> is_lower_word(#[trigger] parts[i])
}

/// What `RegionalLogGroup::parse` returns on a raw target string.
pub open spec fn spec_resolve(raw: Seq<char>) -> ResolvedTarget {
    let t = spec_trim(raw);
    match find_char(t, ':') {
        Some(i) => {
            if spec_is_valid_region(t.take(i)) {
                ResolvedTarget { region: Some(t.take(i)), log_group: t.skip(i + 1) }
            } else {
                ResolvedTarget { region: None, log_group: t }
            }
        },
        None => ResolvedTarget { region: None, log_group: t },
    }
}

/// One search target: an optional region override and a log group name.
#[derive(Debug, Clone)]
pub struct RegionalLogGroup {
    pub region: Option<String>,
    pub log_group: String,
}

impl View for RegionalLogGroup {
    type V = ResolvedTarget;

    open spec fn view(&self) -> ResolvedTarget {
        ResolvedTarget { region: self.region.deep_view(), log_group: self.log_group@ }
    }
}

/// True iff the decimal value of `v` is a number that fits in a `u32`.
fn digits_u32_ok(v: &Vec<char>) -> (r: bool)
    ensures
        r == is_u32_numeric(v@),
{
    let n = v.len();
    if n == 0 {
        return false;
    }
    let mut acc: u64 = 0;
    let mut i: usize = 0;
    while i < n
        invariant
            n == v@.len(),
            i <= n,
            all_digits(v@.take(i as int)),
            acc == digits_val(v@.take(i as int)),
            acc <= u32::MAX,
        decreases n - i,
    {
        let c = v[i];
        if !digit_char(c) {
            assert(!all_digits(v@));
            return false;
        }
        let d = digit_value(c);
        proof {
            assert(v@.take(i + 1 as int).drop_last() =~= v@.take(i as int));
            assert(v@.take(i + 1 as int).last() == v@[i as int]);
        }
        let next: u64 = acc * 10 + (d as u64);
        if next > u32::MAX as u64 {
            proof {
                lemma_digits_val_prefix(v@, i + 1 as int);
            }
            return false;
        }
        acc = next;
        i = i + 1;
    }
    proof {
        assert(v@.take(n as int) =~= v@);
    }
    true
}

/// True iff `v` has the strict region shape.
fn valid_region_chars(v: &Vec<char>) -> (r: bool)
    ensures
        r == spec_is_valid_region(v@),
{
    let parts = split_chars(v, '-');
    let ghost sparts = spec_split(v@, '-');
    if parts.len() < 3 {
        return false;
    }
    let last = &parts[parts.len() - 1];
    proof {
        assert(last.deep_view() == sparts.last());
        assert(last@ =~= last.deep_view());
    }
    if !digits_u32_ok(last) {
        return false;
    }
    let first = &parts[0];
    proof {
        assert(first.deep_view() == sparts[0]);
        assert(first@ =~= first.deep_view());
    }
    if first.len() != 2 {
        return false;
    }
    let mut i: usize = 0;
    while i < parts.len() - 1
        invariant
            parts.deep_view() == sparts,
            sparts == spec_split(v@, '-'),
            parts@.len() == sparts.len(),
            3 <= parts@.len(),
            i <= parts@.len() - 1,
            forall|j: int| 0 <= j < i ==> is_lower_word(#[trigger] sparts[j]),
        decreases parts@.len() - 1 - i,
    {
        let p = &parts[i];
        proof {
            assert(p.deep_view() == sparts[i as int]);
            assert(p@ =~= p.deep_view());
        }
        if p.len() == 0 {
            proof {
                assert(!is_lower_word(sparts[i as int]));
            }
            return false;
        }
        let mut j: usize = 0;
        while j < p.len()
            invariant
                p@ == sparts[i as int],
                i < sparts.len() - 1,
                sparts == spec_split(v@, '-'),
                j <= p@.len(),
                forall|k: int| 0 <= k < j ==> is_lower_alpha(p@[k]),
            decreases p@.len() - j,
        {
            if !lower_alpha_char(p[j]) {
                proof {
                    assert(!is_lower_word(sparts[i as int]));
                }
                return false;
            }
            j = j + 1;
        }
        proof {
            assert(is_lower_word(sparts[i as int]));
        }
        i = i + 1;
    }
    true
}

/// True iff `s` has the strict region shape (for example `us-east-1`).
pub fn is_valid_region_format(s: &str) -> (r: bool)
    ensures
        r == spec_is_valid_region(s@),
{
    let cs = chars_of(s);
    valid_region_chars(&cs)
}

impl RegionalLogGroup {
    /// Split a raw target string into an optional region prefix and the log
    /// group name; malformed prefixes degrade to "no region", never an error.
    pub fn parse(input: &str) -> (r: RegionalLogGroup)
        ensures
            r@ == spec_resolve(input@),
    {
        let cs = chars_of(input);
        let (start, end) = trim_bounds(&cs);
        let t = copy_range(&cs, start, end);
        match find_char_exec(&t, ':') {
            Some(i) => {
                proof {
                    crate::chars::lemma_find_char(t@, ':');
                }
                let prefix = copy_range(&t, 0, i);
                proof {
                    assert(prefix@ =~= spec_trim(input@).take(i as int));
                }
                if valid_region_chars(&prefix) {
                    let rest = copy_range(&t, i + 1, t.len());
                    proof {
                        assert(rest@ =~= spec_trim(input@).skip(i + 1));
                    }
                    RegionalLogGroup {
                        region: Some(string_from_chars(prefix.as_slice())),
                        log_group: string_from_chars(rest.as_slice()),
                    }
                } else {
                    RegionalLogGroup { region: None, log_group: string_from_chars(t.as_slice()) }
                }
            },
            None => RegionalLogGroup { region: None, log_group: string_from_chars(t.as_slice()) },
        }
    }

    /// Resolve each raw target string in order.
    pub fn parse_many(inputs: &[String]) -> (r: Vec<RegionalLogGroup>)
        ensures
            r@.len() == inputs@.len(),
            forall|i: int| 0 <= i < r@.len() ==> #[trigger] r@[i]@ == spec_resolve(inputs@[i]@),
    {
        let mut r: Vec<RegionalLogGroup> = Vec::new();
        let mut i: usize = 0;
        while i < inputs.len()
            invariant
                i <= inputs@.len(),
                r@.len() == i,
                forall|j: int| 0 <= j < i ==> #[trigger] r@[j]@ == spec_resolve(inputs@[j]@),
            decreases inputs@.len() - i,
        {
            r.push(Self::parse(inputs[i].as_str()));
            i = i + 1;
        }
        r
    }
}

/// A valid region prefix followed by a colon resolves to exactly that region
/// and the remainder as the log group.
pub proof fn lemma_region_prefix_resolution(region: Seq<char>, resource: Seq<char>)
    requires
        spec_is_valid_region(region),
        !region.contains(':'),
        spec_trim(region + seq![':'] + resource) == region + seq![':'] + resource,
    ensures
        spec_resolve(region + seq![':'] + resource).region == Some(region),
        spec_resolve(region + seq![':'] + resource).log_group == resource,
{
    let s = region + seq![':'] + resource;
    assert(s[region.len() as int] == ':');
    assert forall|j: int| 0 <= j < region.len() implies s[j] != ':' by {
        assert(s[j] == region[j]);
        if s[j] == ':' {
            assert(region.contains(':'));
        }
    }
    lemma_find_char_is(s, ':', region.len() as int);
    assert(s.take(region.len() as int) =~= region);
    assert(s.skip(region.len() as int + 1) =~= resource);
}

/// A string whose first-colon prefix is not region-shaped (or that has no
/// colon at all) resolves to no region and itself as the log group.
pub proof fn lemma_resolve_without_region(s: Seq<char>)
    requires
        spec_trim(s) == s,
        match find_char(s, ':') {
            Some(i) => !spec_is_valid_region(s.take(i)),
            None => true,
        },
    ensures
        spec_resolve(s).region is None,
        spec_resolve(s).log_group == s,
{
}

} // verus!
