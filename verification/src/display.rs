//! Pure helpers behind the presentation layer: grouping results by source,
//! shortening region and group labels, and stripping terminal escape
//! sequences out of log text.

use vstd::prelude::*;

use crate::chars::chars_of;
use crate::chars::spec_split;
use crate::chars::split_chars;
use crate::chars::string_from_chars;
use crate::chars::str_eq;
use crate::chars::upper_seq;
use crate::chars::to_upper_char;
use crate::deploy::spec_dedup;
use crate::entry::LogEntry;
use crate::ordering::sorted_asc;
use crate::ordering::sort_entries_ascending;

verus! {

broadcast use vstd::seq_lib::group_to_multiset_ensures;

// --- grouped display -------------------------------------------------------

/// The group names appearing among the entries, first appearance first.
pub open spec fn spec_group_names(entries: Seq<LogEntry>) -> Seq<Seq<char>> {
    spec_dedup(entries.map_values(|e: LogEntry| e.log_group@))
}

/// The entries belonging to one source group, in their original order.
pub open spec fn entries_of_group(entries: Seq<LogEntry>, name: Seq<char>) -> Seq<LogEntry> {
    entries.filter(|e: LogEntry| e.log_group@ == name)
}

proof fn lemma_entries_of_group_step(s: Seq<LogEntry>, name: Seq<char>)
    requires
        s.len() > 0,
    ensures
        entries_of_group(s, name) == if s.last().log_group@ == name {
            entries_of_group(s.drop_last(), name).push(s.last())
        } else {
            entries_of_group(s.drop_last(), name)
        },
{
    reveal_with_fuel(Seq::filter, 2);
}

/// Group entries by their source log group, groups in first-appearance
/// order, entries inside each group sorted by timestamp ascending.
pub fn group_entries(entries: &Vec<LogEntry>) -> (r: Vec<(String, Vec<LogEntry>)>)
    ensures
        r@.len() == spec_group_names(entries@).len(),
        forall|g: int| 0 <= g < r@.len() ==> (#[trigger] r@[g]).0@ == spec_group_names(entries@)[g],
        forall|g: int|
            0 <= g < r@.len() ==> sorted_asc((#[trigger] r@[g]).1@) && r@[g].1@.to_multiset()
                == entries_of_group(entries@, spec_group_names(entries@)[g]).to_multiset(),
{
    let ghost namesv = spec_group_names(entries@);
    let mut groups: Vec<String> = Vec::new();
    let mut i: usize = 0;
    proof {
        assert(groups.deep_view() =~= entries@.take(0).map_values(|e: LogEntry| e.log_group@));
    }
    while i < entries.len()
        invariant
            i <= entries@.len(),
            groups.deep_view() == entries@.take(i as int).map_values(|e: LogEntry| e.log_group@),
        decreases entries@.len() - i,
    {
        let ghost before = groups.deep_view();
        groups.push(entries[i].log_group.clone());
        proof {
            assert(groups.deep_view() =~= before.push(entries@[i as int].log_group@));
            assert(entries@.take(i + 1 as int).map_values(|e: LogEntry| e.log_group@) =~= before.push(
                entries@[i as int].log_group@,
            ));
        }
        i = i + 1;
    }
    proof {
        assert(entries@.take(entries@.len() as int) =~= entries@);
    }
    let names = crate::deploy::dedup_servers(groups);
    let mut out: Vec<(String, Vec<LogEntry>)> = Vec::new();
    let mut g: usize = 0;
    while g < names.len()
        invariant
            names.deep_view() == namesv,
            namesv == spec_group_names(entries@),
            names@.len() == namesv.len(),
            g <= names@.len(),
            out@.len() == g,
            forall|h: int| 0 <= h < g ==> (#[trigger] out@[h]).0@ == namesv[h],
            forall|h: int|
                0 <= h < g ==> sorted_asc((#[trigger] out@[h]).1@) && out@[h].1@.to_multiset()
                    == entries_of_group(entries@, namesv[h]).to_multiset(),
        decreases names@.len() - g,
    {
        let ghost namev = namesv[g as int];
        proof {
            assert(names@[g as int]@ == names.deep_view()[g as int]);
        }
        let mut bucket: Vec<LogEntry> = Vec::new();
        let mut i: usize = 0;
        proof {
            assert(entries_of_group(entries@.take(0), namev) =~= Seq::<LogEntry>::empty());
        }
        while i < entries.len()
            invariant
                namev == namesv[g as int],
                g < names@.len(),
                names@[g as int]@ == namev,
                i <= entries@.len(),
                bucket@ == entries_of_group(entries@.take(i as int), namev),
            decreases entries@.len() - i,
        {
            proof {
                assert(entries@.take(i + 1 as int).drop_last() =~= entries@.take(i as int));
                assert(entries@.take(i + 1 as int).last() == entries@[i as int]);
            }
            let ghost beforeb = bucket@;
            let keep = str_eq(entries[i].log_group.as_str(), names[g].as_str());
            if keep {
                bucket.push(entries[i].clone());
            }
            proof {
                lemma_entries_of_group_step(entries@.take(i + 1 as int), namev);
                if keep {
                    assert(bucket@ =~= beforeb.push(entries@[i as int]));
                } else {
                    assert(entries@[i as int].log_group@ != namev);
                }
            }
            i = i + 1;
        }
        proof {
            assert(entries@.take(entries@.len() as int) =~= entries@);
        }
        let ghost bucketv = bucket@;
        let sorted = sort_entries_ascending(bucket);
        out.push((names[g].clone(), sorted));
        proof {
            assert(out@[g as int].0 == names@[g as int]);
            assert(out@[g as int].0@ == namesv[g as int]);
            assert(out@[g as int].1@.to_multiset() == bucketv.to_multiset());
            assert(bucketv == entries_of_group(entries@, namev));
        }
        g = g + 1;
    }
    out
}

// --- short labels -----------------------------------------------------------

/// The first characters of a sequence, at most six.
pub open spec fn spec_take6(s: Seq<char>) -> Seq<char> {
    if s.len() <= 6 {
        s
    } else {
        s.take(6)
    }
}

/// The two-letter code of a known region family.
pub open spec fn spec_region_code(p0: Seq<char>, p1: Seq<char>) -> Option<Seq<char>> {
    if p0 == "ap"@ && p1 == "northeast"@ {
        Some("AN"@)
    } else if p0 == "ap"@ && p1 == "southeast"@ {
        Some("AS"@)
    } else if p0 == "ap"@ && p1 == "south"@ {
        Some("AO"@)
    } else if p0 == "ap"@ && p1 == "east"@ {
        Some("AE"@)
    } else if p0 == "us"@ && p1 == "east"@ {
        Some("UE"@)
    } else if p0 == "us"@ && p1 == "west"@ {
        Some("UW"@)
    } else if p0 == "eu"@ && p1 == "west"@ {
        Some("EW"@)
    } else if p0 == "eu"@ && p1 == "central"@ {
        Some("EC"@)
    } else if p0 == "eu"@ && p1 == "north"@ {
        Some("EN"@)
    } else if p0 == "ca"@ && p1 == "central"@ {
        Some("CC"@)
    } else if p0 == "sa"@ && p1 == "east"@ {
        Some("SE"@)
    } else {
        None
    }
}

/// The short label of a region name: the family code plus the final
/// number, or the first six characters when the family is unknown.
pub open spec fn spec_shorten_region(region: Seq<char>) -> Seq<char> {
    let parts = spec_split(region, '-');
    if parts.len() >= 3 {
        match spec_region_code(parts[0], parts[1]) {
            Some(code) => code + parts.last(),
            None => spec_take6(region),
        }
    } else {
        spec_take6(region)
    }
}

fn vec_eq_lit(v: &Vec<char>, lit: &str) -> (r: bool)
    ensures
        r == (v@ == lit@),
{
    let s = string_from_chars(v.as_slice());
    str_eq(s.as_str(), lit)
}

fn take6(v: &Vec<char>) -> (r: String)
    ensures
        r@ == spec_take6(v@),
{
    if v.len() <= 6 {
        string_from_chars(v.as_slice())
    } else {
        let t = crate::chars::copy_range(v, 0, 6);
        proof {
            assert(t@ =~= v@.take(6));
        }
        string_from_chars(t.as_slice())
    }
}

/// Shorten a region name for column display.
pub fn shorten_region(region: &str) -> (r: String)
    ensures
        r@ == spec_shorten_region(region@),
{
    let cs = chars_of(region);
    let parts = split_chars(&cs, '-');
    let ghost sparts = spec_split(region@, '-');
    if parts.len() >= 3 {
        let p0 = &parts[0];
        let p1 = &parts[1];
        proof {
            assert(parts@[0]@ =~= parts.deep_view()[0]);
            assert(parts@[1]@ =~= parts.deep_view()[1]);
        }
        let code: Option<&str> = if vec_eq_lit(p0, "ap") && vec_eq_lit(p1, "northeast") {
            Some("AN")
        } else if vec_eq_lit(p0, "ap") && vec_eq_lit(p1, "southeast") {
            Some("AS")
        } else if vec_eq_lit(p0, "ap") && vec_eq_lit(p1, "south") {
            Some("AO")
        } else if vec_eq_lit(p0, "ap") && vec_eq_lit(p1, "east") {
            Some("AE")
        } else if vec_eq_lit(p0, "us") && vec_eq_lit(p1, "east") {
            Some("UE")
        } else if vec_eq_lit(p0, "us") && vec_eq_lit(p1, "west") {
            Some("UW")
        } else if vec_eq_lit(p0, "eu") && vec_eq_lit(p1, "west") {
            Some("EW")
        } else if vec_eq_lit(p0, "eu") && vec_eq_lit(p1, "central") {
            Some("EC")
        } else if vec_eq_lit(p0, "eu") && vec_eq_lit(p1, "north") {
            Some("EN")
        } else if vec_eq_lit(p0, "ca") && vec_eq_lit(p1, "central") {
            Some("CC")
        } else if vec_eq_lit(p0, "sa") && vec_eq_lit(p1, "east") {
            Some("SE")
        } else {
            None
        };
        match code {
            Some(c) => {
                let last = &parts[parts.len() - 1];
                proof {
                    assert(last@ =~= parts.deep_view().last());
                    assert(parts.deep_view().last() == sparts.last());
                }
                let mut s = c.to_owned();
                let lasts = string_from_chars(last.as_slice());
                s.append(lasts.as_str());
                s
            },
            None => take6(&cs),
        }
    } else {
        take6(&cs)
    }
}

// --- group label ------------------------------------------------------------

/// A separator inside a group name.
pub open spec fn is_sep_char(c: char) -> bool {
    c == '-' || c == '_' || c == '.'
}

fn sep_char(c: char) -> (r: bool)
    ensures
        r == is_sep_char(c),
{
    c == '-' || c == '_' || c == '.'
}

/// The first character of every separator-delimited piece of `s` from
/// position `i` on.
pub open spec fn spec_initials(s: Seq<char>, i: int) -> Seq<char>
    decreases s.len() - i,
{
    if i < 0 || i >= s.len() {
        Seq::empty()
    } else if !is_sep_char(s[i]) && (i == 0 || is_sep_char(s[i - 1])) {
        seq![s[i]] + spec_initials(s, i + 1)
    } else {
        spec_initials(s, i + 1)
    }
}

/// The first characters of a sequence, at most three.
pub open spec fn spec_take3(s: Seq<char>) -> Seq<char> {
    if s.len() <= 3 {
        s
    } else {
        s.take(3)
    }
}

/// The short label of a group name: the uppercased initials of the last
/// path segment's pieces, or its first three characters uppercased when
/// there are fewer than two pieces.
pub open spec fn spec_shorten_group(group: Seq<char>) -> Seq<char> {
    let name = spec_split(group, '/').last();
    let abbrev = upper_seq(spec_initials(name, 0));
    if abbrev.len() >= 2 {
        abbrev
    } else {
        upper_seq(spec_take3(name))
    }
}

/// Shorten a log group name for column display.
pub fn shorten_group(group: &str) -> (r: String)
    ensures
        r@ == spec_shorten_group(group@),
{
    let cs = chars_of(group);
    let segs = split_chars(&cs, '/');
    let name = &segs[segs.len() - 1];
    proof {
        assert(name@ =~= segs.deep_view().last());
        assert(segs.deep_view().last() == spec_split(group@, '/').last());
    }
    let ghost namev = name@;
    let mut abbrev: Vec<char> = Vec::new();
    let mut i: usize = 0;
    proof {
        assert(upper_seq(spec_initials(namev, 0)) =~= abbrev@ + upper_seq(
            spec_initials(namev, 0),
        ));
    }
    while i < name.len()
        invariant
            namev == name@,
            i <= namev.len(),
            upper_seq(spec_initials(namev, 0)) == abbrev@ + upper_seq(spec_initials(namev, i as int)),
        decreases namev.len() - i,
    {
        let take_it = !sep_char(name[i]) && (i == 0 || sep_char(name[i - 1]));
        let ghost before = abbrev@;
        if take_it {
            abbrev.push(to_upper_char(name[i]));
        }
        proof {
            if take_it {
                assert(spec_initials(namev, i as int) == seq![namev[i as int]] + spec_initials(
                    namev,
                    i + 1,
                ));
                assert(upper_seq(seq![namev[i as int]] + spec_initials(namev, i + 1)) =~= seq![
                    crate::chars::upper_char(namev[i as int]),
                ] + upper_seq(spec_initials(namev, i + 1)));
                assert(abbrev@ =~= before.push(crate::chars::upper_char(namev[i as int])));
                assert(before + (seq![crate::chars::upper_char(namev[i as int])] + upper_seq(
                    spec_initials(namev, i + 1),
                )) =~= abbrev@ + upper_seq(spec_initials(namev, i + 1)));
            } else {
                assert(spec_initials(namev, i as int) == spec_initials(namev, i + 1));
            }
        }
        i = i + 1;
    }
    proof {
        assert(spec_initials(namev, namev.len() as int) =~= Seq::<char>::empty());
        assert(upper_seq(Seq::<char>::empty()) =~= Seq::<char>::empty());
        assert(abbrev@ + Seq::<char>::empty() =~= abbrev@);
    }
    if abbrev.len() >= 2 {
        string_from_chars(abbrev.as_slice())
    } else {
        let t: Vec<char> = if name.len() <= 3 {
            name.clone()
        } else {
            crate::chars::copy_range(name, 0, 3)
        };
        proof {
            assert(t@ =~= spec_take3(namev));
        }
        let mut up: Vec<char> = Vec::new();
        let mut j: usize = 0;
        while j < t.len()
            invariant
                j <= t@.len(),
                up@ == upper_seq(t@.take(j as int)),
            decreases t@.len() - j,
        {
            up.push(to_upper_char(t[j]));
            proof {
                assert(upper_seq(t@.take(j + 1 as int)) =~= upper_seq(t@.take(j as int)).push(
                    crate::chars::upper_char(t@[j as int]),
                ));
            }
            j = j + 1;
        }
        proof {
            assert(t@.take(t@.len() as int) =~= t@);
        }
        string_from_chars(up.as_slice())
    }
}

// --- escape stripping --------------------------------------------------------

/// An ASCII letter.
pub open spec fn is_alpha_char(c: char) -> bool {
    (65 <= c as u32 && c as u32 <= 90) || (97 <= c as u32 && c as u32 <= 122)
}

fn alpha_char(c: char) -> (r: bool)
    ensures
        r == is_alpha_char(c),
{
    let u = c as u32;
    (65 <= u && u <= 90) || (97 <= u && u <= 122)
}

/// First position at or after `i` holding an ASCII letter.
pub open spec fn first_alpha_from(s: Seq<char>, i: int) -> Option<int>
    decreases s.len() - i,
{
    if i < 0 || i >= s.len() {
        None
    } else if is_alpha_char(s[i]) {
        Some(i)
    } else {
        first_alpha_from(s, i + 1)
    }
}

pub proof fn lemma_first_alpha_bounds(s: Seq<char>, i: int)
    ensures
        match first_alpha_from(s, i) {
            Some(j) => i <= j < s.len(),
            None => true,
        },
    decreases s.len() - i,
{
    if 0 <= i < s.len() && !is_alpha_char(s[i]) {
        lemma_first_alpha_bounds(s, i + 1);
    }
}

/// The text from position `i` on with ANSI escape sequences removed: an
/// escape followed by `[` swallows everything up to and including the next
/// ASCII letter; a stray escape is dropped by itself.
pub open spec fn spec_strip_ansi(s: Seq<char>, i: int) -> Seq<char>
    decreases s.len() - i,
    via spec_strip_ansi_dec
{
    if i < 0 || i >= s.len() {
        Seq::empty()
    } else if s[i] == '\u{1b}' {
        if i + 1 < s.len() && s[i + 1] == '[' {
            match first_alpha_from(s, i + 2) {
                Some(j) => spec_strip_ansi(s, j + 1),
                None => Seq::empty(),
            }
        } else {
            spec_strip_ansi(s, i + 1)
        }
    } else {
        seq![s[i]] + spec_strip_ansi(s, i + 1)
    }
}

#[via_fn]
proof fn spec_strip_ansi_dec(s: Seq<char>, i: int) {
    if 0 <= i < s.len() {
        lemma_first_alpha_bounds(s, i + 2);
    }
}

/// Strip ANSI escape sequences out of log text.
pub fn strip_ansi_codes(s: &str) -> (r: String)
    ensures
        r@ == spec_strip_ansi(s@, 0),
{
    let cs = chars_of(s);
    let n = cs.len();
    let mut out: Vec<char> = Vec::new();
    let mut i: usize = 0;
    proof {
        assert(spec_strip_ansi(cs@, 0) =~= out@ + spec_strip_ansi(cs@, 0));
    }
    while i < n
        invariant
            cs@ == s@,
            n == cs@.len(),
            i <= n,
            spec_strip_ansi(cs@, 0) == out@ + spec_strip_ansi(cs@, i as int),
        decreases n - i,
    {
        let c = cs[i];
        if c == '\u{1b}' {
            if i + 1 < n && cs[i + 1] == '[' {
                let mut j = i + 2;
                while j < n && !alpha_char(cs[j])
                    invariant
                        cs@ == s@,
                        n == cs@.len(),
                        i + 2 <= j <= n,
                        first_alpha_from(cs@, i + 2) == first_alpha_from(cs@, j as int),
                    decreases n - j,
                {
                    j = j + 1;
                }
                if j < n {
                    proof {
                        assert(first_alpha_from(cs@, j as int) == Some(j as int));
                        assert(out@ + spec_strip_ansi(cs@, j + 1 as int) =~= out@
                            + spec_strip_ansi(cs@, j + 1 as int));
                    }
                    i = j + 1;
                } else {
                    proof {
                        assert(first_alpha_from(cs@, j as int) is None);
                        assert(out@ + Seq::<char>::empty() =~= out@);
                    }
                    return string_from_chars(out.as_slice());
                }
            } else {
                i = i + 1;
            }
        } else {
            let ghost before = out@;
            out.push(c);
            proof {
                assert(out@ =~= before + seq![cs@[i as int]]);
                assert(before + (seq![cs@[i as int]] + spec_strip_ansi(cs@, i + 1 as int)) =~= (
                before + seq![cs@[i as int]]) + spec_strip_ansi(cs@, i + 1 as int));
            }
            i = i + 1;
        }
    }
    proof {
        assert(spec_strip_ansi(cs@, n as int) =~= Seq::<char>::empty());
        assert(out@ + Seq::<char>::empty() =~= out@);
    }
    string_from_chars(out.as_slice())
}

} // verus!
