//! Flexible relative-duration parsing.
//!
//! A duration string is one or more `<number><unit>` components, where the
//! number may carry a decimal fraction and the unit is one of several verbose
//! or abbreviated spellings of seconds, minutes, hours, days or weeks,
//! case-insensitively.  Components may be concatenated without separators
//! (`1h30m`, `2d12h`) and are summed.  Text between components that matches
//! no component is skipped, as a left-to-right scan would.
//!
//! Component values are exact rationals (the denominators are powers of
//! ten); they are summed exactly, the integer part saturating at
//! `u64::MAX`, and the total is truncated once to whole seconds.

use vstd::prelude::*;

use crate::chars::chars_of;
use crate::chars::digit_char;
use crate::chars::digit_of;
use crate::chars::digit_value;
use crate::chars::digits_val;
use crate::chars::is_digit_char;
use crate::chars::is_ws_char;
use crate::chars::lower_char;
use crate::chars::spec_trim;
use crate::chars::spec_trim_end;
use crate::chars::spec_trim_start;
use crate::chars::string_from_chars;
use crate::chars::to_lower_char;
use crate::chars::trim_bounds;
use crate::chars::ws_char;

verus! {

// --- unit multipliers ---------------------------------------------------

/// Seconds per unit, keyed by the unit's first letter.
pub open spec fn unit_secs(u: char) -> nat {
    if u == 's' {
        1
    } else if u == 'm' {
        60
    } else if u == 'h' {
        3600
    } else if u == 'd' {
        86400
    } else {
        604800
    }
}

// --- runs of characters -------------------------------------------------

/// Length of the maximal run of ASCII digits starting at `i`.
pub open spec fn digit_run_len(s: Seq<char>, i: int) -> int
    decreases s.len() - i,
{
    if 0 <= i < s.len() && is_digit_char(s[i]) {
        1 + digit_run_len(s, i + 1)
    } else {
        0
    }
}

/// Length of the maximal run of ASCII whitespace starting at `i`.
pub open spec fn ws_run_len(s: Seq<char>, i: int) -> int
    decreases s.len() - i,
{
    if 0 <= i < s.len() && is_ws_char(s[i]) {
        1 + ws_run_len(s, i + 1)
    } else {
        0
    }
}

pub proof fn lemma_digit_run_bounds(s: Seq<char>, i: int)
    requires
        0 <= i <= s.len(),
    ensures
        0 <= digit_run_len(s, i) <= s.len() - i,
    decreases s.len() - i,
{
    if i < s.len() && is_digit_char(s[i]) {
        lemma_digit_run_bounds(s, i + 1);
    }
}

pub proof fn lemma_ws_run_bounds(s: Seq<char>, i: int)
    requires
        0 <= i <= s.len(),
    ensures
        0 <= ws_run_len(s, i) <= s.len() - i,
    decreases s.len() - i,
{
    if i < s.len() && is_ws_char(s[i]) {
        lemma_ws_run_bounds(s, i + 1);
    }
}

proof fn lemma_digit_run_is(s: Seq<char>, i: int, l: int)
    requires
        0 <= i,
        0 <= l,
        i + l <= s.len(),
        forall|m: int| i <= m < i + l ==> is_digit_char(s[m]),
        i + l == s.len() || !is_digit_char(s[i + l]),
    ensures
        digit_run_len(s, i) == l,
    decreases l,
{
    if l > 0 {
        lemma_digit_run_is(s, i + 1, l - 1);
    }
}

proof fn lemma_ws_run_is(s: Seq<char>, i: int, l: int)
    requires
        0 <= i,
        0 <= l,
        i + l <= s.len(),
        forall|m: int| i <= m < i + l ==> is_ws_char(s[m]),
        i + l == s.len() || !is_ws_char(s[i + l]),
    ensures
        ws_run_len(s, i) == l,
    decreases l,
{
    if l > 0 {
        lemma_ws_run_is(s, i + 1, l - 1);
    }
}

fn digit_run(v: &Vec<char>, i: usize) -> (l: usize)
    requires
        i <= v@.len(),
    ensures
        i + l <= v@.len(),
        l == digit_run_len(v@, i as int),
        forall|m: int| i <= m < i + l ==> is_digit_char(v@[m]),
{
    let mut j = i;
    while j < v.len() && digit_char(v[j])
        invariant
            i <= j <= v@.len(),
            forall|m: int| i <= m < j ==> is_digit_char(v@[m]),
        decreases v@.len() - j,
    {
        j = j + 1;
    }
    proof {
        lemma_digit_run_is(v@, i as int, j - i);
    }
    j - i
}

fn ws_run(v: &Vec<char>, i: usize) -> (l: usize)
    requires
        i <= v@.len(),
    ensures
        i + l <= v@.len(),
        l == ws_run_len(v@, i as int),
{
    let mut j = i;
    while j < v.len() && ws_char(v[j])
        invariant
            i <= j <= v@.len(),
            forall|m: int| i <= m < j ==> is_ws_char(v@[m]),
        decreases v@.len() - j,
    {
        j = j + 1;
    }
    proof {
        lemma_ws_run_is(v@, i as int, j - i);
    }
    j - i
}

// --- unit spellings -----------------------------------------------------

/// The character at `i`, case-folded, is `c`.
pub open spec fn lc_at(s: Seq<char>, i: int, c: char) -> bool {
    0 <= i < s.len() && lower_char(s[i]) == c
}

fn lc_is(v: &Vec<char>, i: usize, c: char) -> (r: bool)
    ensures
        r == lc_at(v@, i as int, c),
{
    i < v.len() && to_lower_char(v[i]) == c
}

/// Greedy continuation of a unit starting with `s`: `ec`, then optionally
/// `ond`, then optionally a trailing `s`.
pub open spec fn s_ext(s: Seq<char>, i: int) -> int {
    if lc_at(s, i, 'e') && lc_at(s, i + 1, 'c') {
        let o: int = if lc_at(s, i + 2, 'o') && lc_at(s, i + 3, 'n') && lc_at(s, i + 4, 'd') {
            3
        } else {
            0
        };
        2 + o + if lc_at(s, i + 2 + o, 's') {
            1int
        } else {
            0
        }
    } else {
        0
    }
}

/// Greedy continuation of a unit starting with `m`: `in`, then optionally
/// `ute`, then optionally a trailing `s`.
pub open spec fn m_ext(s: Seq<char>, i: int) -> int {
    if lc_at(s, i, 'i') && lc_at(s, i + 1, 'n') {
        let o: int = if lc_at(s, i + 2, 'u') && lc_at(s, i + 3, 't') && lc_at(s, i + 4, 'e') {
            3
        } else {
            0
        };
        2 + o + if lc_at(s, i + 2 + o, 's') {
            1int
        } else {
            0
        }
    } else {
        0
    }
}

/// Greedy continuation of a unit starting with `h`: `our` or `r`, each with
/// an optional trailing `s`.
pub open spec fn h_ext(s: Seq<char>, i: int) -> int {
    if lc_at(s, i, 'o') && lc_at(s, i + 1, 'u') && lc_at(s, i + 2, 'r') {
        3 + if lc_at(s, i + 3, 's') {
            1int
        } else {
            0
        }
    } else if lc_at(s, i, 'r') {
        1 + if lc_at(s, i + 1, 's') {
            1int
        } else {
            0
        }
    } else {
        0
    }
}

/// Greedy continuation of a unit starting with `d`: `ay`, optional `s`.
pub open spec fn d_ext(s: Seq<char>, i: int) -> int {
    if lc_at(s, i, 'a') && lc_at(s, i + 1, 'y') {
        2 + if lc_at(s, i + 2, 's') {
            1int
        } else {
            0
        }
    } else {
        0
    }
}

/// Greedy continuation of a unit starting with `w`: `eek`, optional `s`.
pub open spec fn w_ext(s: Seq<char>, i: int) -> int {
    if lc_at(s, i, 'e') && lc_at(s, i + 1, 'e') && lc_at(s, i + 2, 'k') {
        3 + if lc_at(s, i + 3, 's') {
            1int
        } else {
            0
        }
    } else {
        0
    }
}

/// The unit spelling starting at `i`: its key letter and its length.
pub open spec fn match_unit(s: Seq<char>, i: int) -> Option<(char, int)> {
    if lc_at(s, i, 's') {
        Some(('s', 1 + s_ext(s, i + 1)))
    } else if lc_at(s, i, 'm') {
        Some(('m', 1 + m_ext(s, i + 1)))
    } else if lc_at(s, i, 'h') {
        Some(('h', 1 + h_ext(s, i + 1)))
    } else if lc_at(s, i, 'd') {
        Some(('d', 1 + d_ext(s, i + 1)))
    } else if lc_at(s, i, 'w') {
        Some(('w', 1 + w_ext(s, i + 1)))
    } else {
        None
    }
}

pub proof fn lemma_match_unit_bounds(s: Seq<char>, i: int)
    ensures
        match match_unit(s, i) {
            Some(ul) => 1 <= ul.1 <= s.len() - i,
            None => true,
        },
{
}

fn s_ext_exec(v: &Vec<char>, i: usize) -> (l: usize)
    requires
        i <= v@.len(),
    ensures
        l == s_ext(v@, i as int),
{
    let n = v.len();
    if lc_is(v, i, 'e') && lc_is(v, i + 1, 'c') {
        let o: usize = if lc_is(v, i + 2, 'o') && lc_is(v, i + 3, 'n') && lc_is(v, i + 4, 'd') {
            3
        } else {
            0
        };
        2 + o + if lc_is(v, i + 2 + o, 's') {
            1
        } else {
            0
        }
    } else {
        0
    }
}

fn m_ext_exec(v: &Vec<char>, i: usize) -> (l: usize)
    requires
        i <= v@.len(),
    ensures
        l == m_ext(v@, i as int),
{
    let n = v.len();
    if lc_is(v, i, 'i') && lc_is(v, i + 1, 'n') {
        let o: usize = if lc_is(v, i + 2, 'u') && lc_is(v, i + 3, 't') && lc_is(v, i + 4, 'e') {
            3
        } else {
            0
        };
        2 + o + if lc_is(v, i + 2 + o, 's') {
            1
        } else {
            0
        }
    } else {
        0
    }
}

fn h_ext_exec(v: &Vec<char>, i: usize) -> (l: usize)
    requires
        i <= v@.len(),
    ensures
        l == h_ext(v@, i as int),
{
    let n = v.len();
    if lc_is(v, i, 'o') && lc_is(v, i + 1, 'u') && lc_is(v, i + 2, 'r') {
        3 + if lc_is(v, i + 3, 's') {
            1usize
        } else {
            0
        }
    } else if lc_is(v, i, 'r') {
        1 + if lc_is(v, i + 1, 's') {
            1usize
        } else {
            0
        }
    } else {
        0
    }
}

fn d_ext_exec(v: &Vec<char>, i: usize) -> (l: usize)
    requires
        i <= v@.len(),
    ensures
        l == d_ext(v@, i as int),
{
    let n = v.len();
    if lc_is(v, i, 'a') && lc_is(v, i + 1, 'y') {
        2 + if lc_is(v, i + 2, 's') {
            1usize
        } else {
            0
        }
    } else {
        0
    }
}

fn w_ext_exec(v: &Vec<char>, i: usize) -> (l: usize)
    requires
        i <= v@.len(),
    ensures
        l == w_ext(v@, i as int),
{
    let n = v.len();
    if lc_is(v, i, 'e') && lc_is(v, i + 1, 'e') && lc_is(v, i + 2, 'k') {
        3 + if lc_is(v, i + 3, 's') {
            1usize
        } else {
            0
        }
    } else {
        0
    }
}

/// Second multiplier and consumed length of the unit at `i`.
fn match_unit_exec(v: &Vec<char>, i: usize) -> (r: Option<(u64, usize)>)
    requires
        i <= v@.len(),
    ensures
        match match_unit(v@, i as int) {
            Some(ul) => r == Some((unit_secs(ul.0) as u64, ul.1 as usize)),
            None => r is None,
        },
{
    let n = v.len();
    if lc_is(v, i, 's') {
        Some((1, 1 + s_ext_exec(v, i + 1)))
    } else if lc_is(v, i, 'm') {
        Some((60, 1 + m_ext_exec(v, i + 1)))
    } else if lc_is(v, i, 'h') {
        Some((3600, 1 + h_ext_exec(v, i + 1)))
    } else if lc_is(v, i, 'd') {
        Some((86400, 1 + d_ext_exec(v, i + 1)))
    } else if lc_is(v, i, 'w') {
        Some((604800, 1 + w_ext_exec(v, i + 1)))
    } else {
        None
    }
}

// --- components ----------------------------------------------------------

/// One parsed duration component: integer digits, fraction digits, unit key.
pub ghost struct DurComp {
    pub int_digits: Seq<char>,
    pub frac_digits: Seq<char>,
    pub unit: char,
}

/// The component starting exactly at `i`, with its end position: a digit
/// run, an optional `.`-fraction, optional whitespace, then a unit.
pub open spec fn match_comp(s: Seq<char>, i: int) -> Option<(DurComp, int)> {
    let d = digit_run_len(s, i);
    if d == 0 {
        None
    } else {
        let p = i + d;
        let fl: int = if p < s.len() && s[p] == '.' {
            digit_run_len(s, p + 1)
        } else {
            0
        };
        let q: int = if fl > 0 {
            p + 1 + fl
        } else {
            p
        };
        let w = ws_run_len(s, q);
        match match_unit(s, q + w) {
            Some(ul) => Some(
                (
                    DurComp {
                        int_digits: s.subrange(i, p),
                        frac_digits: if fl > 0 {
                            s.subrange(p + 1, p + 1 + fl)
                        } else {
                            Seq::empty()
                        },
                        unit: ul.0,
                    },
                    q + w + ul.1,
                ),
            ),
            None => None,
        }
    }
}

pub proof fn lemma_match_comp_advances(s: Seq<char>, i: int)
    requires
        0 <= i <= s.len(),
    ensures
        match match_comp(s, i) {
            Some(ce) => i < ce.1 <= s.len(),
            None => true,
        },
{
    lemma_digit_run_bounds(s, i);
    let d = digit_run_len(s, i);
    if d != 0 {
        let p = i + d;
        if p < s.len() && s[p] == '.' {
            lemma_digit_run_bounds(s, p + 1);
        }
        let fl: int = if p < s.len() && s[p] == '.' {
            digit_run_len(s, p + 1)
        } else {
            0
        };
        let q: int = if fl > 0 {
            p + 1 + fl
        } else {
            p
        };
        lemma_ws_run_bounds(s, q);
        let w = ws_run_len(s, q);
        lemma_match_unit_bounds(s, q + w);
    }
}

/// All components found by a left-to-right scan from `i`: a match consumes
/// its span, anything else is skipped one character at a time.
pub open spec fn scan_comps(s: Seq<char>, i: int) -> Seq<DurComp>
    decreases s.len() - i,
    via scan_comps_dec
{
    if i < 0 || i >= s.len() {
        Seq::empty()
    } else {
        match match_comp(s, i) {
            Some(ce) => seq![ce.0] + scan_comps(s, ce.1),
            None => scan_comps(s, i + 1),
        }
    }
}

#[via_fn]
proof fn scan_comps_dec(s: Seq<char>, i: int) {
    if 0 <= i < s.len() {
        lemma_match_comp_advances(s, i);
    }
}

// --- component values ----------------------------------------------------

pub open spec fn pow10(n: nat) -> nat
    decreases n,
{
    if n == 0 {
        1
    } else {
        10 * pow10((n - 1) as nat)
    }
}

pub proof fn lemma_pow10_pos(n: nat)
    ensures
        pow10(n) >= 1,
    decreases n,
{
    if n > 0 {
        lemma_pow10_pos((n - 1) as nat);
    }
}

/// Decimal value of a sequence of digit values (each below ten).
pub open spec fn digits_num(s: Seq<u8>) -> nat
    decreases s.len(),
{
    if s.len() == 0 {
        0
    } else {
        digits_num(s.drop_last()) * 10 + s.last() as nat
    }
}

/// Every cell holds a single decimal digit.
pub open spec fn digits_below_ten(s: Seq<u8>) -> bool {
    forall|k: int| 0 <= k < s.len() ==> s[k] <= 9
}

/// The longest fraction among the components, in digits.
pub open spec fn max_frac_len(cs: Seq<DurComp>) -> nat
    decreases cs.len(),
{
    if cs.len() == 0 {
        0
    } else {
        let m = max_frac_len(cs.drop_last());
        if cs.last().frac_digits.len() > m {
            cs.last().frac_digits.len()
        } else {
            m
        }
    }
}

/// A component's exact value in seconds, scaled by `pow10(d)` so that it is
/// an integer: `(I + 0.F) * S * 10^d` for any `d` at least the fraction's
/// length.
pub open spec fn comp_scaled(c: DurComp, d: nat) -> nat {
    let l = c.frac_digits.len();
    (digits_val(c.int_digits) * pow10(l) + digits_val(c.frac_digits)) * unit_secs(c.unit) * pow10(
        if d >= l {
            (d - l) as nat
        } else {
            0
        },
    )
}

/// The exact total of the component values in seconds, scaled by `pow10(d)`.
pub open spec fn total_scaled(cs: Seq<DurComp>, d: nat) -> nat
    decreases cs.len(),
{
    if cs.len() == 0 {
        0
    } else {
        total_scaled(cs.drop_last(), d) + comp_scaled(cs.last(), d)
    }
}

/// Saturation at `u64::MAX`.
pub open spec fn sat64(x: int) -> int {
    if x > u64::MAX {
        u64::MAX as int
    } else {
        x
    }
}

/// What `parse_duration` reports: the exact sum of the component values,
/// truncated once to whole seconds, the integer part saturating at
/// `u64::MAX`.
pub open spec fn spec_duration_secs(s: Seq<char>) -> int {
    let cs = scan_comps(s, 0);
    let d = max_frac_len(cs);
    sat64((total_scaled(cs, d) / pow10(d)) as int)
}

// --- arithmetic lemmas ---------------------------------------------------

proof fn lemma_pow10_add(a: nat, b: nat)
    ensures
        pow10(a + b) == pow10(a) * pow10(b),
    decreases a,
{
    if a == 0 {
        assert(1 * pow10(b) == pow10(b)) by (nonlinear_arith);
    } else {
        lemma_pow10_add((a - 1) as nat, b);
        assert(pow10(a + b) == 10 * pow10((a - 1 + b) as nat));
        assert(10 * (pow10((a - 1) as nat) * pow10(b)) == (10 * pow10((a - 1) as nat)) * pow10(
            b,
        )) by (nonlinear_arith);
    }
}

/// Place-value split: the first `k` digits carry weight `pow10(len - k)`.
proof fn lemma_digits_num_split(s: Seq<u8>, k: int)
    requires
        0 <= k <= s.len(),
    ensures
        digits_num(s) == digits_num(s.take(k)) * pow10((s.len() - k) as nat) + digits_num(
            s.skip(k),
        ),
    decreases s.len() - k,
{
    if k == s.len() {
        assert(s.take(k) =~= s);
        assert(s.skip(k) =~= Seq::<u8>::empty());
        assert(digits_num(s) * 1 == digits_num(s)) by (nonlinear_arith);
    } else {
        let h = s.drop_last();
        lemma_digits_num_split(h, k);
        assert(h.take(k) =~= s.take(k));
        assert(h.skip(k) =~= s.skip(k).drop_last());
        assert(s.skip(k).last() == s.last());
        let a = digits_num(s.take(k)) as int;
        let p = pow10((s.len() - 1 - k) as nat) as int;
        let r = digits_num(s.skip(k).drop_last()) as int;
        let last = s.last() as int;
        assert(digits_num(s) == (a * p + r) * 10 + last);
        assert(digits_num(s.skip(k)) == r * 10 + last);
        assert((a * p + r) * 10 + last == a * (p * 10) + (r * 10 + last)) by (nonlinear_arith);
        assert(pow10((s.len() - k) as nat) == 10 * pow10((s.len() - 1 - k) as nat));
        assert(a * (p * 10) == a * (10 * p)) by (nonlinear_arith);
    }
}

proof fn lemma_digits_num_single(d: u8)
    ensures
        digits_num(seq![d]) == d,
{
    let s = seq![d];
    assert(s.len() == 1);
    assert(s.last() == d);
    assert(s.drop_last() =~= Seq::<u8>::empty());
    assert(digits_num(Seq::<u8>::empty()) == 0);
    assert(digits_num(s) == digits_num(s.drop_last()) * 10 + s.last() as nat);
}

proof fn lemma_digits_num_bound(s: Seq<u8>)
    requires
        digits_below_ten(s),
    ensures
        digits_num(s) < pow10(s.len()),
    decreases s.len(),
{
    if s.len() > 0 {
        lemma_digits_num_bound(s.drop_last());
        let d = digits_num(s.drop_last()) as int;
        let p = pow10((s.len() - 1) as nat) as int;
        assert(d * 10 + s.last() < 10 * p) by (nonlinear_arith)
            requires
                d < p,
                s.last() <= 9,
        ;
    }
}

proof fn lemma_digits_num_zero(s: Seq<u8>)
    requires
        forall|k: int| 0 <= k < s.len() ==> s[k] == 0,
    ensures
        digits_num(s) == 0,
    decreases s.len(),
{
    if s.len() > 0 {
        lemma_digits_num_zero(s.drop_last());
    }
}

/// Digit values mirror digit characters.
proof fn lemma_digits_bridge(c: Seq<char>, v: Seq<u8>)
    requires
        c.len() == v.len(),
        forall|k: int| 0 <= k < v.len() ==> v[k] == digit_of(c[k]),
    ensures
        digits_num(v) == digits_val(c),
    decreases c.len(),
{
    if c.len() > 0 {
        lemma_digits_bridge(c.drop_last(), v.drop_last());
    }
}

/// Rescaling a component to a larger denominator multiplies it.
proof fn lemma_comp_scaled_scale(c: DurComp, d: nat, e: nat)
    requires
        c.frac_digits.len() <= d <= e,
    ensures
        comp_scaled(c, e) == comp_scaled(c, d) * pow10((e - d) as nat),
{
    let l = c.frac_digits.len();
    let base = (digits_val(c.int_digits) * pow10(l) + digits_val(c.frac_digits)) * unit_secs(
        c.unit,
    );
    lemma_pow10_add((d - l) as nat, (e - d) as nat);
    assert(base * (pow10((d - l) as nat) * pow10((e - d) as nat)) == (base * pow10(
        (d - l) as nat,
    )) * pow10((e - d) as nat)) by (nonlinear_arith);
}

proof fn lemma_total_scaled_scale(cs: Seq<DurComp>, d: nat, e: nat)
    requires
        max_frac_len(cs) <= d <= e,
    ensures
        total_scaled(cs, e) == total_scaled(cs, d) * pow10((e - d) as nat),
    decreases cs.len(),
{
    if cs.len() == 0 {
        assert(0 * pow10((e - d) as nat) == 0) by (nonlinear_arith);
    } else {
        assert(max_frac_len(cs.drop_last()) <= max_frac_len(cs));
        assert(cs.last().frac_digits.len() <= max_frac_len(cs));
        lemma_total_scaled_scale(cs.drop_last(), d, e);
        lemma_comp_scaled_scale(cs.last(), d, e);
        let a = total_scaled(cs.drop_last(), d) as int;
        let b = comp_scaled(cs.last(), d) as int;
        let p = pow10((e - d) as nat) as int;
        assert(a * p + b * p == (a + b) * p) by (nonlinear_arith);
    }
}

proof fn lemma_sat_mul(a: int, k: int)
    requires
        a >= 0,
        k >= 1,
    ensures
        sat64(sat64(a) * k) == sat64(a * k),
{
    if a > u64::MAX {
        assert(sat64(a) == u64::MAX);
        assert(u64::MAX * k >= u64::MAX) by (nonlinear_arith)
            requires
                k >= 1,
        ;
        assert(a * k >= a) by (nonlinear_arith)
            requires
                a >= 0,
                k >= 1,
        ;
    }
}

proof fn lemma_sat_add(a: int, b: int)
    requires
        a >= 0,
        b >= 0,
    ensures
        sat64(sat64(a) + sat64(b)) == sat64(a + b),
{
}

// --- saturating machine arithmetic ---------------------------------------

fn sat_mul64(a: u64, b: u64) -> (r: u64)
    ensures
        r as int == sat64(a as int * b as int),
{
    match a.checked_mul(b) {
        Some(x) => x,
        None => u64::MAX,
    }
}

fn sat_add64(a: u64, b: u64) -> (r: u64)
    ensures
        r as int == sat64(a as int + b as int),
{
    a.saturating_add(b)
}

// --- executable component matching ---------------------------------------

/// Saturated decimal value of the digit run `v[from..to]`.
fn digits_value_sat(v: &Vec<char>, from: usize, to: usize) -> (r: u64)
    requires
        from <= to <= v@.len(),
        forall|m: int| from <= m < to ==> is_digit_char(v@[m]),
    ensures
        r as int == sat64(digits_val(v@.subrange(from as int, to as int)) as int),
{
    let mut acc: u64 = 0;
    let mut j = from;
    while j < to
        invariant
            from <= j <= to <= v@.len(),
            forall|m: int| from <= m < to ==> is_digit_char(v@[m]),
            acc as int == sat64(digits_val(v@.subrange(from as int, j as int)) as int),
        decreases to - j,
    {
        let d = digit_value(v[j]);
        let ghost prefix = v@.subrange(from as int, j as int);
        let ghost prev = digits_val(prefix) as int;
        acc = sat_add64(sat_mul64(acc, 10), d as u64);
        proof {
            lemma_sat_mul(prev, 10);
            lemma_sat_add(prev * 10, digit_of(v@[j as int]) as int);
            assert(sat64(digit_of(v@[j as int]) as int) == digit_of(v@[j as int]) as int);
            let ext = v@.subrange(from as int, j + 1 as int);
            assert(ext.drop_last() =~= prefix);
            assert(ext.last() == v@[j as int]);
            assert(digits_val(ext) == prev * 10 + digit_of(v@[j as int]));
        }
        j = j + 1;
    }
    acc
}

/// Pad the fraction accumulator with trailing zeros up to `to` digits,
/// scaling its numerator accordingly.
fn pad_zeros(frac: Vec<u8>, to: usize) -> (r: Vec<u8>)
    requires
        frac@.len() <= to,
        digits_below_ten(frac@),
    ensures
        r@.len() == to,
        digits_below_ten(r@),
        digits_num(r@) == digits_num(frac@) * pow10((to - frac@.len()) as nat),
{
    let ghost orig = frac@;
    let mut frac = frac;
    proof {
        assert(digits_num(orig) * 1 == digits_num(orig)) by (nonlinear_arith);
    }
    while frac.len() < to
        invariant
            orig.len() <= frac@.len() <= to,
            digits_below_ten(frac@),
            digits_num(frac@) == digits_num(orig) * pow10((frac@.len() - orig.len()) as nat),
        decreases to - frac@.len(),
    {
        let ghost before = frac@;
        frac.push(0);
        proof {
            assert(frac@.drop_last() =~= before);
            assert(frac@.last() == 0u8);
            let a = digits_num(orig) as int;
            let p = pow10((before.len() - orig.len()) as nat) as int;
            assert((a * p) * 10 == a * (p * 10)) by (nonlinear_arith);
            assert(pow10((frac@.len() - orig.len()) as nat) == 10 * pow10(
                (before.len() - orig.len()) as nat,
            ));
            assert(a * (p * 10) == a * (10 * p)) by (nonlinear_arith);
        }
    }
    frac
}

/// Multiply a fraction's digits by the unit's seconds, right to left: the
/// digits of the product's fractional part, and the integer carry.
fn mul_digits(fd: &Vec<u8>, su: u64) -> (r: (Vec<u8>, u64))
    requires
        1 <= su <= 604800,
        digits_below_ten(fd@),
    ensures
        r.0@.len() == fd@.len(),
        digits_below_ten(r.0@),
        r.1 <= su,
        r.1 * pow10(fd@.len() as nat) + digits_num(r.0@) == digits_num(fd@) * su,
{
    let l = fd.len();
    let mut temp: Vec<u8> = Vec::new();
    let mut carry: u64 = 0;
    let ghost mut done: Seq<u8> = Seq::empty();
    let mut j = l;
    proof {
        assert(fd@.skip(l as int) =~= Seq::<u8>::empty());
        assert(0 * su == 0) by (nonlinear_arith);
    }
    while j > 0
        invariant
            l == fd@.len(),
            j <= l,
            1 <= su <= 604800,
            digits_below_ten(fd@),
            carry <= su,
            done.len() == l - j,
            temp@.len() == done.len(),
            forall|q: int| 0 <= q < temp@.len() ==> temp@[q] == done[done.len() - 1 - q],
            digits_below_ten(done),
            carry * pow10((l - j) as nat) + digits_num(done) == digits_num(fd@.skip(j as int))
                * su,
        decreases j,
    {
        j = j - 1;
        proof {
            assert((fd@[j as int] as int) * (su as int) <= 9 * (su as int)) by (nonlinear_arith)
                requires
                    fd@[j as int] <= 9,
            ;
        }
        let t: u64 = (fd[j] as u64) * su + carry;
        let dg: u8 = (t % 10) as u8;
        let ghost oldcarry = carry;
        let ghost olddone = done;
        carry = t / 10;
        temp.push(dg);
        proof {
            done = seq![dg] + olddone;
            assert(carry <= su) by (nonlinear_arith)
                requires
                    t <= 9 * su + su,
                    carry == t / 10,
                    su >= 1,
            ;
            lemma_digits_num_split(done, 1);
            assert(done.take(1) =~= seq![dg]);
            assert(done.skip(1) =~= olddone);
            lemma_digits_num_single(dg);
            lemma_digits_num_split(fd@.skip(j as int), 1);
            assert(fd@.skip(j as int).take(1) =~= seq![fd@[j as int]]);
            assert(fd@.skip(j as int).skip(1) =~= fd@.skip(j + 1));
            lemma_digits_num_single(fd@[j as int]);
            let p = pow10((l - j - 1) as nat) as int;
            let c1 = carry as int;
            let c0 = oldcarry as int;
            let ti = t as int;
            let dgi = dg as int;
            let fj = fd@[j as int] as int;
            let sui = su as int;
            let rest = digits_num(fd@.skip(j + 1)) as int;
            assert(ti == 10 * c1 + dgi);
            assert(pow10((l - j) as nat) == 10 * pow10((l - j - 1) as nat));
            assert(c1 * (10 * p) + (dgi * p + digits_num(olddone)) == (fj * sui + c0) * p
                + digits_num(olddone)) by (nonlinear_arith)
                requires
                    ti == 10 * c1 + dgi,
                    ti == fj * sui + c0,
            ;
            assert((fj * p + rest) * sui == fj * sui * p + rest * sui) by (nonlinear_arith);
            assert(fj * sui * p == (fj * sui) * p) by (nonlinear_arith);
            assert((fj * sui + c0) * p == (fj * sui) * p + c0 * p) by (nonlinear_arith);
            assert(c0 * p + digits_num(olddone) == rest * sui);
            assert(rest * sui == sui * rest) by (nonlinear_arith);
        }
    }
    proof {
        assert(fd@.skip(0) =~= fd@);
    }
    let mut out: Vec<u8> = Vec::new();
    let mut k: usize = 0;
    while k < l
        invariant
            l == temp@.len() == done.len(),
            k <= l,
            out@.len() == k,
            forall|q: int| 0 <= q < temp@.len() ==> temp@[q] == done[done.len() - 1 - q],
            forall|m: int| 0 <= m < k ==> out@[m] == done[m],
        decreases l - k,
    {
        out.push(temp[l - 1 - k]);
        k = k + 1;
    }
    proof {
        assert(out@ =~= done);
    }
    (out, carry)
}

/// Add a product's fractional digits into the accumulator, right to left:
/// the new digits and the carry into the integer part.
fn add_frac(acc: &Vec<u8>, prod: &Vec<u8>) -> (r: (Vec<u8>, u64))
    requires
        prod@.len() <= acc@.len(),
        digits_below_ten(acc@),
        digits_below_ten(prod@),
    ensures
        r.0@.len() == acc@.len(),
        digits_below_ten(r.0@),
        r.1 <= 1,
        digits_num(r.0@) + r.1 * pow10(acc@.len() as nat) == digits_num(acc@) + digits_num(
            prod@,
        ) * pow10((acc@.len() - prod@.len()) as nat),
{
    let d = acc.len();
    let lp = prod.len();
    let ghost padded = prod@ + Seq::new((d - lp) as nat, |q: int| 0u8);
    proof {
        assert(padded.len() == d);
        lemma_digits_num_split(padded, lp as int);
        assert(padded.take(lp as int) =~= prod@);
        lemma_digits_num_zero(padded.skip(lp as int));
        assert(digits_num(padded) == digits_num(prod@) * pow10((d - lp) as nat));
        assert(acc@.skip(d as int) =~= Seq::<u8>::empty());
        assert(padded.skip(d as int) =~= Seq::<u8>::empty());
    }
    let mut temp: Vec<u8> = Vec::new();
    let mut carry: u64 = 0;
    let ghost mut done: Seq<u8> = Seq::empty();
    let mut j = d;
    while j > 0
        invariant
            d == acc@.len(),
            lp == prod@.len() <= d,
            j <= d,
            digits_below_ten(acc@),
            digits_below_ten(prod@),
            padded == prod@ + Seq::new((d - lp) as nat, |q: int| 0u8),
            carry <= 1,
            done.len() == d - j,
            temp@.len() == done.len(),
            forall|q: int| 0 <= q < temp@.len() ==> temp@[q] == done[done.len() - 1 - q],
            digits_below_ten(done),
            carry * pow10((d - j) as nat) + digits_num(done) == digits_num(acc@.skip(j as int))
                + digits_num(padded.skip(j as int)),
        decreases j,
    {
        j = j - 1;
        let addend: u64 = if j < lp {
            prod[j] as u64
        } else {
            0
        };
        proof {
            assert(padded[j as int] == addend);
        }
        let t: u64 = (acc[j] as u64) + addend + carry;
        let dg: u8 = (t % 10) as u8;
        let ghost oldcarry = carry;
        let ghost olddone = done;
        carry = t / 10;
        temp.push(dg);
        proof {
            done = seq![dg] + olddone;
            lemma_digits_num_split(done, 1);
            assert(done.take(1) =~= seq![dg]);
            assert(done.skip(1) =~= olddone);
            lemma_digits_num_single(dg);
            lemma_digits_num_split(acc@.skip(j as int), 1);
            assert(acc@.skip(j as int).take(1) =~= seq![acc@[j as int]]);
            assert(acc@.skip(j as int).skip(1) =~= acc@.skip(j + 1));
            lemma_digits_num_single(acc@[j as int]);
            lemma_digits_num_split(padded.skip(j as int), 1);
            assert(padded.skip(j as int).take(1) =~= seq![padded[j as int]]);
            assert(padded.skip(j as int).skip(1) =~= padded.skip(j + 1));
            lemma_digits_num_single(padded[j as int]);
            let p = pow10((d - j - 1) as nat) as int;
            let c1 = carry as int;
            let c0 = oldcarry as int;
            let ti = t as int;
            let dgi = dg as int;
            let aj = acc@[j as int] as int;
            let pj = padded[j as int] as int;
            let resta = digits_num(acc@.skip(j + 1)) as int;
            let restp = digits_num(padded.skip(j + 1)) as int;
            assert(ti == 10 * c1 + dgi);
            assert(pow10((d - j) as nat) == 10 * pow10((d - j - 1) as nat));
            assert(c1 * (10 * p) + (dgi * p + digits_num(olddone)) == (aj + pj + c0) * p
                + digits_num(olddone)) by (nonlinear_arith)
                requires
                    ti == 10 * c1 + dgi,
                    ti == aj + pj + c0,
            ;
            assert((aj + pj + c0) * p == aj * p + pj * p + c0 * p) by (nonlinear_arith);
            assert(c0 * p + digits_num(olddone) == resta + restp);
        }
    }
    proof {
        assert(acc@.skip(0) =~= acc@);
        assert(padded.skip(0) =~= padded);
    }
    let mut out: Vec<u8> = Vec::new();
    let mut k: usize = 0;
    while k < d
        invariant
            d == temp@.len() == done.len(),
            k <= d,
            out@.len() == k,
            forall|q: int| 0 <= q < temp@.len() ==> temp@[q] == done[done.len() - 1 - q],
            forall|m: int| 0 <= m < k ==> out@[m] == done[m],
        decreases d - k,
    {
        out.push(temp[d - 1 - k]);
        k = k + 1;
    }
    proof {
        assert(out@ =~= done);
    }
    (out, carry)
}

/// The pieces of the component at `i`: saturated integer digits value, the
/// fraction's digit values, the unit's seconds, and the end position.
fn match_comp_exec(v: &Vec<char>, i: usize) -> (r: Option<(u64, Vec<u8>, u64, usize)>)
    requires
        i <= v@.len(),
    ensures
        match match_comp(v@, i as int) {
            Some(ce) => r matches Some(parts) && {
                &&& parts.0 as int == sat64(digits_val(ce.0.int_digits) as int)
                &&& parts.1@.len() == ce.0.frac_digits.len()
                &&& digits_below_ten(parts.1@)
                &&& digits_num(parts.1@) == digits_val(ce.0.frac_digits)
                &&& parts.2 == unit_secs(ce.0.unit)
                &&& 1 <= parts.2 <= 604800
                &&& parts.3 == ce.1
            },
            None => r is None,
        },
{
    let n = v.len();
    let d = digit_run(v, i);
    if d == 0 {
        return None;
    }
    let p = i + d;
    let fl: usize = if p < v.len() && v[p] == '.' {
        digit_run(v, p + 1)
    } else {
        0
    };
    let q: usize = if fl > 0 {
        p + 1 + fl
    } else {
        p
    };
    let w = ws_run(v, q);
    match match_unit_exec(v, q + w) {
        Some(ku) => {
            let su = ku.0;
            let ulen = ku.1;
            let ghost ce = match_comp(v@, i as int)->Some_0;
            let intpart = digits_value_sat(v, i, p);
            let mut fvals: Vec<u8> = Vec::new();
            if fl > 0 {
                let mut j: usize = 0;
                while j < fl
                    invariant
                        n == v@.len(),
                        i + d == p,
                        p + 1 + fl <= v@.len(),
                        forall|m: int| p + 1 <= m < p + 1 + fl ==> is_digit_char(v@[m]),
                        j <= fl,
                        fvals@.len() == j,
                        forall|m: int| 0 <= m < j ==> fvals@[m] == digit_of(v@[p + 1 + m]),
                        forall|m: int| 0 <= m < j ==> fvals@[m] <= 9,
                    decreases fl - j,
                {
                    fvals.push(digit_value(v[p + 1 + j]) as u8);
                    j = j + 1;
                }
            }
            proof {
                if fl > 0 {
                    assert(ce.0.frac_digits =~= v@.subrange(p + 1, p + 1 + fl));
                    assert forall|m: int| 0 <= m < fvals@.len() implies fvals@[m] == digit_of(
                        ce.0.frac_digits[m],
                    ) by {
                        assert(ce.0.frac_digits[m] == v@[p + 1 + m]);
                    }
                    lemma_digits_bridge(ce.0.frac_digits, fvals@);
                } else {
                    assert(ce.0.frac_digits =~= Seq::<char>::empty());
                    assert(fvals@ =~= Seq::<u8>::empty());
                }
            }
            Some((intpart, fvals, su, q + w + ulen))
        },
        None => None,
    }
}

/// Scan the whole input, keeping the exact running total: saturated whole
/// seconds, and whether any component was found.
fn scan_duration(v: &Vec<char>) -> (r: (u64, bool))
    ensures
        r.0 as int == spec_duration_secs(v@),
        r.1 == (scan_comps(v@, 0).len() > 0),
{
    let n = v.len();
    let mut i: usize = 0;
    let mut any = false;
    let mut int_acc: u64 = 0;
    let mut frac: Vec<u8> = Vec::new();
    let ghost mut done: Seq<DurComp> = Seq::empty();
    let ghost mut true_int: nat = 0nat;
    proof {
        assert(frac@ =~= Seq::<u8>::empty());
        assert(scan_comps(v@, 0) =~= done + scan_comps(v@, 0));
        assert(0 * pow10(0) == 0) by (nonlinear_arith);
    }
    while i < n
        invariant
            n == v@.len(),
            i <= n,
            scan_comps(v@, 0) == done + scan_comps(v@, i as int),
            any == (done.len() > 0),
            frac@.len() == max_frac_len(done),
            digits_below_ten(frac@),
            true_int * pow10(frac@.len() as nat) + digits_num(frac@) == total_scaled(
                done,
                frac@.len() as nat,
            ),
            int_acc as int == sat64(true_int as int),
        decreases n - i,
    {
        match match_comp_exec(v, i) {
            Some(parts) => {
                let (isat, fdigits, su, end) = parts;
                let ghost ce = match_comp(v@, i as int)->Some_0;
                let ghost c = ce.0;
                proof {
                    lemma_match_comp_advances(v@, i as int);
                    let sc = scan_comps(v@, i as int);
                    assert(sc == seq![c] + scan_comps(v@, ce.1));
                    assert(sc[0] == c);
                    assert(sc.drop_first() =~= scan_comps(v@, ce.1));
                    assert(done + sc =~= done.push(c) + scan_comps(v@, ce.1));
                }
                let lf = fdigits.len();
                let ghost d0 = frac@.len() as nat;
                if lf > frac.len() {
                    proof {
                        lemma_total_scaled_scale(done, d0, lf as nat);
                    }
                    let ghost oldnum = digits_num(frac@);
                    frac = pad_zeros(frac, lf);
                    proof {
                        lemma_pow10_add(d0, (lf as nat - d0) as nat);
                        let ti = true_int as int;
                        let pa = pow10(d0) as int;
                        let pb = pow10((lf as nat - d0) as nat) as int;
                        let on = oldnum as int;
                        let ts = total_scaled(done, d0) as int;
                        assert((ti * pa + on) * pb == ti * (pa * pb) + on * pb) by (
                        nonlinear_arith);
                        assert(ts * pb == (ti * pa + on) * pb) by (nonlinear_arith)
                            requires
                                ts == ti * pa + on,
                        ;
                    }
                }
                let d = frac.len();
                proof {
                    assert(max_frac_len(done.push(c)) == frac@.len()) by {
                        assert(done.push(c).drop_last() =~= done);
                        assert(done.push(c).last() == c);
                    }
                }
                let prod_carry = mul_digits(&fdigits, su);
                let prod = prod_carry.0;
                let c0 = prod_carry.1;
                let ghost fracbefore = frac@;
                let new_carry = add_frac(&frac, &prod);
                frac = new_carry.0;
                let cadd = new_carry.1;
                let im = sat_mul64(isat, su);
                proof {
                    lemma_sat_mul(digits_val(c.int_digits) as int, su as int);
                }
                let s1 = sat_add64(int_acc, im);
                let s2 = sat_add64(s1, c0);
                let new_int = sat_add64(s2, cadd);
                proof {
                    let iv = digits_val(c.int_digits) as int;
                    let sui = su as int;
                    let ti = true_int as int;
                    lemma_sat_add(ti, iv * sui);
                    lemma_sat_add(ti + iv * sui, c0 as int);
                    lemma_sat_add(ti + iv * sui + c0 as int, cadd as int);
                    // the component's scaled value, split into integer and
                    // fractional contributions
                    let l = c.frac_digits.len();
                    let pd = pow10(d as nat) as int;
                    let pl = pow10(l) as int;
                    let pdl = pow10((d as nat - l) as nat) as int;
                    let fv = digits_val(c.frac_digits) as int;
                    let pn = digits_num(prod@) as int;
                    lemma_pow10_add(l, (d as nat - l) as nat);
                    assert(comp_scaled(c, d as nat) == ((iv * pl + fv) * sui) * pdl) by (
                    nonlinear_arith)
                        requires
                            comp_scaled(c, d as nat) == (iv * pl + fv) * sui * pdl,
                    ;
                    assert(((iv * pl + fv) * sui) * pdl == iv * sui * (pl * pdl) + (fv * sui)
                        * pdl) by (nonlinear_arith);
                    assert(fv * sui == c0 * pl + pn) by (nonlinear_arith)
                        requires
                            c0 * pl + pn == fv * sui,
                    ;
                    assert((c0 * pl + pn) * pdl == c0 * (pl * pdl) + pn * pdl) by (
                    nonlinear_arith);
                    assert(iv * sui * (pl * pdl) == iv * sui * pd) by (nonlinear_arith)
                        requires
                            pl * pdl == pd,
                    ;
                    assert(c0 * (pl * pdl) == c0 * pd) by (nonlinear_arith)
                        requires
                            pl * pdl == pd,
                    ;
                    // the accumulator update preserves the exact total
                    let fn0 = digits_num(fracbefore) as int;
                    let fn1 = digits_num(frac@) as int;
                    assert(fn1 + cadd * pd == fn0 + pn * pdl);
                    assert(total_scaled(done.push(c), d as nat) == total_scaled(done, d as nat)
                        + comp_scaled(c, d as nat)) by {
                        assert(done.push(c).drop_last() =~= done);
                        assert(done.push(c).last() == c);
                    }
                    assert((ti + iv * sui + c0 + cadd) * pd == ti * pd + iv * sui * pd + c0 * pd
                        + cadd * pd) by (nonlinear_arith);
                    true_int = (true_int + digits_val(c.int_digits) * unit_secs(c.unit) + c0
                        + cadd) as nat;
                    done = done.push(c);
                }
                int_acc = new_int;
                any = true;
                i = end;
            },
            None => {
                i = i + 1;
            },
        }
    }
    proof {
        assert(scan_comps(v@, n as int) =~= Seq::<DurComp>::empty());
        assert(done + Seq::<DurComp>::empty() =~= done);
        assert(done =~= scan_comps(v@, 0));
        lemma_digits_num_bound(frac@);
        lemma_pow10_pos(frac@.len() as nat);
        vstd::arithmetic::div_mod::lemma_fundamental_div_mod_converse(
            total_scaled(done, frac@.len() as nat) as int,
            pow10(frac@.len() as nat) as int,
            true_int as int,
            digits_num(frac@) as int,
        );
    }
    (int_acc, any)
}

// --- trimming facts ------------------------------------------------------

proof fn lemma_trim_start_all_ws(s: Seq<char>)
    requires
        spec_trim_start(s).len() == 0,
    ensures
        forall|j: int| 0 <= j < s.len() ==> is_ws_char(s[j]),
    decreases s.len(),
{
    if s.len() > 0 && is_ws_char(s[0]) {
        lemma_trim_start_all_ws(s.drop_first());
        assert forall|j: int| 0 <= j < s.len() implies is_ws_char(s[j]) by {
            if j > 0 {
                assert(is_ws_char(s.drop_first()[j - 1]));
            }
        }
    }
}

proof fn lemma_trim_end_all_ws(s: Seq<char>)
    requires
        spec_trim_end(s).len() == 0,
    ensures
        forall|j: int| 0 <= j < s.len() ==> is_ws_char(s[j]),
    decreases s.len(),
{
    if s.len() > 0 && is_ws_char(s[s.len() - 1]) {
        lemma_trim_end_all_ws(s.drop_last());
        assert forall|j: int| 0 <= j < s.len() implies is_ws_char(s[j]) by {
            if j < s.len() - 1 {
                assert(is_ws_char(s.drop_last()[j]));
            }
        }
    }
}

proof fn lemma_trim_start_suffix(s: Seq<char>)
    ensures
        exists|k: int|
            0 <= k <= s.len() && spec_trim_start(s) == s.skip(k) && forall|j: int|
                0 <= j < k ==> is_ws_char(s[j]),
    decreases s.len(),
{
    if s.len() > 0 && is_ws_char(s[0]) {
        lemma_trim_start_suffix(s.drop_first());
        let k0 = choose|k: int|
            0 <= k <= s.drop_first().len() && spec_trim_start(s.drop_first()) == s.drop_first().skip(
                k,
            ) && forall|j: int| 0 <= j < k ==> is_ws_char(s.drop_first()[j]);
        assert(s.drop_first().skip(k0) =~= s.skip(k0 + 1));
        assert forall|j: int| 0 <= j < k0 + 1 implies is_ws_char(s[j]) by {
            if j > 0 {
                assert(is_ws_char(s.drop_first()[j - 1]));
            }
        }
        assert(spec_trim_start(s) == s.skip(k0 + 1));
    } else {
        assert(s.skip(0) =~= s);
    }
}

/// An all-whitespace tail of the scan yields no components.
proof fn lemma_ws_scan_empty(s: Seq<char>, i: int)
    requires
        forall|j: int| 0 <= j < s.len() ==> is_ws_char(s[j]),
    ensures
        scan_comps(s, i) == Seq::<DurComp>::empty(),
    decreases s.len() - i,
{
    if 0 <= i < s.len() {
        assert(!is_digit_char(s[i]));
        assert(digit_run_len(s, i) == 0);
        lemma_ws_scan_empty(s, i + 1);
    }
}

/// If the trimmed input is empty, the input is all whitespace, so the scan
/// finds nothing.
pub proof fn lemma_trim_empty_scan_empty(s: Seq<char>)
    requires
        spec_trim(s).len() == 0,
    ensures
        scan_comps(s, 0) == Seq::<DurComp>::empty(),
{
    lemma_trim_start_suffix(s);
    let k = choose|k: int|
        0 <= k <= s.len() && spec_trim_start(s) == s.skip(k) && forall|j: int|
            0 <= j < k ==> is_ws_char(s[j]);
    lemma_trim_end_all_ws(s.skip(k));
    assert forall|j: int| 0 <= j < s.len() implies is_ws_char(s[j]) by {
        if j >= k {
            assert(is_ws_char(s.skip(k)[j - k]));
        }
    }
    lemma_ws_scan_empty(s, 0);
}

// --- the public parser ----------------------------------------------------

/// Why a duration string was rejected.
#[derive(Debug, Clone, PartialEq, Eq, Structural)]
pub enum DurationError {
    /// The input was empty (or only whitespace).
    Empty,
    /// No `<number><unit>` component was recognized anywhere in the input.
    Unrecognized,
}

impl DurationError {
    /// Human-readable description, with format examples.
    pub fn message(&self) -> (r: String)
        ensures
            self is Empty ==> r@ == "Empty duration string"@,
            self is Unrecognized ==> r@
                == "Invalid duration format. Examples: 1h, 30m, 2d, 1h30m, 1.5h"@,
    {
        match self {
            DurationError::Empty => "Empty duration string".to_owned(),
            DurationError::Unrecognized => "Invalid duration format. Examples: 1h, 30m, 2d, 1h30m, 1.5h".to_owned(),
        }
    }
}

/// Parse a flexible duration string into whole seconds.
///
/// Empty (or all-whitespace) input and input without any recognizable
/// component are rejected; everything else reports the exact sum of the
/// component values, truncated once to whole seconds, the integer part
/// saturating at `u64::MAX`.
pub fn parse_duration(input: &str) -> (r: Result<u64, DurationError>)
    ensures
        spec_trim(input@).len() == 0 ==> r == Err::<u64, DurationError>(DurationError::Empty),
        spec_trim(input@).len() > 0 && scan_comps(input@, 0).len() == 0 ==> r == Err::<
            u64,
            DurationError,
        >(DurationError::Unrecognized),
        scan_comps(input@, 0).len() > 0 ==> r == Ok::<u64, DurationError>(
            spec_duration_secs(input@) as u64,
        ),
{
    let cs = chars_of(input);
    let (a, b) = trim_bounds(&cs);
    if a == b {
        proof {
            lemma_trim_empty_scan_empty(input@);
        }
        return Err(DurationError::Empty);
    }
    let (tot, any) = scan_duration(&cs);
    if !any {
        return Err(DurationError::Unrecognized);
    }
    Ok(tot)
}

/// Validate a duration string and hand it on in the shape the container
/// runtime's `--since` flag accepts: trimmed and lowercased.
pub fn to_docker_since(input: &str) -> (r: Result<String, DurationError>)
    ensures
        match r {
            Ok(out) => scan_comps(input@, 0).len() > 0 && out@ == crate::chars::lower_seq(
                spec_trim(input@),
            ),
            Err(e) => scan_comps(input@, 0).len() == 0 && ((e == DurationError::Empty) <==> (
            spec_trim(input@).len() == 0)),
        },
{
    let cs = chars_of(input);
    let (a, b) = trim_bounds(&cs);
    if a == b {
        proof {
            lemma_trim_empty_scan_empty(input@);
        }
        return Err(DurationError::Empty);
    }
    let (_tot, any) = scan_duration(&cs);
    if !any {
        return Err(DurationError::Unrecognized);
    }
    let mut out: Vec<char> = Vec::new();
    let mut j = a;
    while j < b
        invariant
            a <= j <= b <= cs@.len(),
            out@ == crate::chars::lower_seq(cs@.subrange(a as int, j as int)),
        decreases b - j,
    {
        out.push(to_lower_char(cs[j]));
        proof {
            assert(crate::chars::lower_seq(cs@.subrange(a as int, j + 1 as int)) =~= crate::chars::lower_seq(
                cs@.subrange(a as int, j as int),
            ).push(lower_char(cs@[j as int])));
        }
        j = j + 1;
    }
    Ok(string_from_chars(out.as_slice()))
}

// --- the concatenation law ---------------------------------------------------

/// Positions from `i` on are covered by a gapless chain of components.
pub open spec fn consumed_exactly(s: Seq<char>, i: int) -> bool
    decreases s.len() - i,
    via consumed_exactly_dec
{
    if i == s.len() {
        true
    } else if i < 0 || i > s.len() {
        false
    } else {
        match match_comp(s, i) {
            Some(ce) => consumed_exactly(s, ce.1),
            None => false,
        }
    }
}

#[via_fn]
proof fn consumed_exactly_dec(s: Seq<char>, i: int) {
    if 0 <= i < s.len() {
        lemma_match_comp_advances(s, i);
    }
}

/// The whole string is one gapless chain of components.
pub open spec fn cleanly_parses(s: Seq<char>) -> bool {
    s.len() > 0 && consumed_exactly(s, 0)
}

proof fn lemma_cleanly_starts_with_digit(s: Seq<char>)
    requires
        cleanly_parses(s),
    ensures
        is_digit_char(s[0]),
{
    assert(match_comp(s, 0) is Some);
    assert(digit_run_len(s, 0) != 0);
}

proof fn lemma_digit_run_char(s: Seq<char>, i: int)
    requires
        0 <= i <= s.len(),
    ensures
        forall|m: int| i <= m < i + digit_run_len(s, i) ==> is_digit_char(s[m]),
        i + digit_run_len(s, i) == s.len() || !is_digit_char(s[i + digit_run_len(s, i)]),
    decreases s.len() - i,
{
    lemma_digit_run_bounds(s, i);
    if i < s.len() && is_digit_char(s[i]) {
        lemma_digit_run_char(s, i + 1);
    }
}

proof fn lemma_ws_run_char(s: Seq<char>, i: int)
    requires
        0 <= i <= s.len(),
    ensures
        forall|m: int| i <= m < i + ws_run_len(s, i) ==> is_ws_char(s[m]),
        i + ws_run_len(s, i) == s.len() || !is_ws_char(s[i + ws_run_len(s, i)]),
    decreases s.len() - i,
{
    lemma_ws_run_bounds(s, i);
    if i < s.len() && is_ws_char(s[i]) {
        lemma_ws_run_char(s, i + 1);
    }
}

/// Character positions shift across a concatenation boundary.
proof fn lemma_shift_lc(s1: Seq<char>, s2: Seq<char>)
    ensures
        forall|k: int, c: char|
            #![trigger lc_at(s2, k, c)]
            #![trigger lc_at(s1 + s2, s1.len() + k, c)]
            k >= 0 ==> lc_at(s1 + s2, s1.len() + k, c) == lc_at(s2, k, c),
{
    let t = s1 + s2;
    assert forall|k: int, c: char| k >= 0 implies lc_at(t, s1.len() + k, c) == lc_at(
        s2,
        k,
        c,
    ) by {
        if k < s2.len() {
            assert(t[s1.len() + k] == s2[k]);
        }
    }
}

proof fn lemma_shift_digit_run(s1: Seq<char>, s2: Seq<char>, k: int)
    requires
        k >= 0,
    ensures
        digit_run_len(s1 + s2, s1.len() + k) == digit_run_len(s2, k),
    decreases s2.len() - k,
{
    let t = s1 + s2;
    if k < s2.len() {
        assert(t[s1.len() + k] == s2[k]);
        if is_digit_char(s2[k]) {
            lemma_shift_digit_run(s1, s2, k + 1);
        }
    }
}

proof fn lemma_shift_ws_run(s1: Seq<char>, s2: Seq<char>, k: int)
    requires
        k >= 0,
    ensures
        ws_run_len(s1 + s2, s1.len() + k) == ws_run_len(s2, k),
    decreases s2.len() - k,
{
    let t = s1 + s2;
    if k < s2.len() {
        assert(t[s1.len() + k] == s2[k]);
        if is_ws_char(s2[k]) {
            lemma_shift_ws_run(s1, s2, k + 1);
        }
    }
}

proof fn lemma_shift_match_unit(s1: Seq<char>, s2: Seq<char>, k: int)
    requires
        k >= 0,
    ensures
        match_unit(s1 + s2, s1.len() + k) == match_unit(s2, k),
{
    lemma_shift_lc(s1, s2);
}

proof fn lemma_shift_match_comp(s1: Seq<char>, s2: Seq<char>, k: int)
    requires
        k >= 0,
    ensures
        match match_comp(s2, k) {
            Some(ce) => match_comp(s1 + s2, s1.len() + k) == Some(
                (ce.0, s1.len() + ce.1),
            ),
            None => match_comp(s1 + s2, s1.len() + k) is None,
        },
{
    let t = s1 + s2;
    let n1 = s1.len() as int;
    lemma_shift_digit_run(s1, s2, k);
    let d = digit_run_len(s2, k);
    if d != 0 {
        assert(k < s2.len());
        lemma_digit_run_bounds(s2, k);
        let p = k + d;
        if p < s2.len() {
            assert(t[n1 + p] == s2[p]);
        }
        if p < s2.len() && s2[p] == '.' {
            lemma_shift_digit_run(s1, s2, p + 1);
            lemma_digit_run_bounds(s2, p + 1);
        }
        let fl: int = if p < s2.len() && s2[p] == '.' {
            digit_run_len(s2, p + 1)
        } else {
            0
        };
        let q: int = if fl > 0 {
            p + 1 + fl
        } else {
            p
        };
        assert(q >= 0);
        lemma_shift_ws_run(s1, s2, q);
        lemma_ws_run_bounds(s2, q);
        let w = ws_run_len(s2, q);
        lemma_shift_match_unit(s1, s2, q + w);
        match match_unit(s2, q + w) {
            Some(ul) => {
                assert(t.subrange(n1 + k, n1 + p) =~= s2.subrange(k, p));
                if fl > 0 {
                    assert(t.subrange(n1 + p + 1, n1 + p + 1 + fl) =~= s2.subrange(
                        p + 1,
                        p + 1 + fl,
                    ));
                }
            },
            None => {},
        }
    }
}

proof fn lemma_shift_scan(s1: Seq<char>, s2: Seq<char>, k: int)
    requires
        k >= 0,
    ensures
        scan_comps(s1 + s2, s1.len() + k) == scan_comps(s2, k),
    decreases s2.len() - k,
{
    let t = s1 + s2;
    let n1 = s1.len() as int;
    if k >= s2.len() {
        assert(scan_comps(t, n1 + k) =~= Seq::<DurComp>::empty());
        assert(scan_comps(s2, k) =~= Seq::<DurComp>::empty());
    } else {
        lemma_shift_match_comp(s1, s2, k);
        match match_comp(s2, k) {
            Some(ce) => {
                lemma_match_comp_advances(s2, k);
                lemma_shift_scan(s1, s2, ce.1);
                assert(scan_comps(t, n1 + k) == seq![ce.0] + scan_comps(t, n1 + ce.1));
                assert(scan_comps(s2, k) == seq![ce.0] + scan_comps(s2, ce.1));
            },
            None => {
                lemma_shift_scan(s1, s2, k + 1);
            },
        }
    }
}

/// Inside a clean left operand, a component match is unchanged by whatever
/// follows the boundary, provided the right operand starts with a digit.
proof fn lemma_match_comp_boundary(s1: Seq<char>, s2: Seq<char>, i: int)
    requires
        0 <= i < s1.len(),
        match_comp(s1, i) is Some,
        s2.len() > 0,
        is_digit_char(s2[0]),
    ensures
        match_comp(s1 + s2, i) == match_comp(s1, i),
{
    let t = s1 + s2;
    let n1 = s1.len() as int;
    assert(forall|m: int| 0 <= m < n1 ==> t[m] == s1[m]);
    assert(t[n1] == s2[0]);
    let d = digit_run_len(s1, i);
    lemma_digit_run_bounds(s1, i);
    lemma_digit_run_char(s1, i);
    assert(d != 0);
    let p = i + d;
    // the digit run cannot touch the boundary: a component needs a unit after it
    if p == n1 {
        assert(ws_run_len(s1, p) == 0);
        assert(match_unit(s1, p) is None);
        assert(match_comp(s1, i) is None);
    }
    assert(p < n1);
    assert(!is_digit_char(s1[p]));
    lemma_digit_run_is(t, i, d);
    // the fraction
    let fl: int = if p < s1.len() && s1[p] == '.' {
        digit_run_len(s1, p + 1)
    } else {
        0
    };
    if p < s1.len() && s1[p] == '.' {
        lemma_digit_run_bounds(s1, p + 1);
        lemma_digit_run_char(s1, p + 1);
        if fl > 0 {
            if p + 1 + fl == n1 {
                assert(ws_run_len(s1, p + 1 + fl) == 0);
                assert(match_unit(s1, p + 1 + fl) is None);
                assert(match_comp(s1, i) is None);
            }
            assert(p + 1 + fl < n1);
            lemma_digit_run_is(t, p + 1, fl);
        } else {
            if p + 1 == n1 {
                assert(ws_run_len(s1, p) == 0);
                assert(match_unit(s1, p) is None);
                assert(match_comp(s1, i) is None);
            }
            assert(p + 1 < n1);
            assert(!is_digit_char(s1[p + 1]));
            lemma_digit_run_is(t, p + 1, 0);
        }
    }
    let q: int = if fl > 0 {
        p + 1 + fl
    } else {
        p
    };
    // the whitespace run cannot touch the boundary either
    let w = ws_run_len(s1, q);
    lemma_ws_run_bounds(s1, q);
    lemma_ws_run_char(s1, q);
    if q + w == n1 {
        assert(match_unit(s1, q + w) is None);
        assert(match_comp(s1, i) is None);
    }
    assert(q + w < n1);
    assert(!is_ws_char(s1[q + w]));
    lemma_ws_run_is(t, q, w);
    // the unit: every position at the boundary holds a digit, which matches
    // no unit letter, so the greedy spelling is cut off identically
    lemma_unit_boundary(s1, s2, q + w);
    assert(t.subrange(i, p) =~= s1.subrange(i, p));
    if fl > 0 {
        assert(t.subrange(p + 1, p + 1 + fl) =~= s1.subrange(p + 1, p + 1 + fl));
    }
}

/// With a digit just past the boundary, unit spellings read identically in
/// the concatenation and in the left operand alone.
proof fn lemma_unit_boundary(s1: Seq<char>, s2: Seq<char>, k: int)
    requires
        0 <= k <= s1.len(),
        s2.len() > 0,
        is_digit_char(s2[0]),
    ensures
        match_unit(s1 + s2, k) == match_unit(s1, k),
{
    let t = s1 + s2;
    let n1 = s1.len() as int;
    if k == n1 {
        assert(t[n1] == s2[0]);
        assert(lower_char(t[n1]) == t[n1]);
        assert(match_unit(t, k) is None);
        assert(match_unit(s1, k) is None);
    } else {
        assert(t[k] == s1[k]);
        lemma_ext_boundary(s1, s2, k + 1);
    }
}

/// The greedy unit continuations read identically on both sides of the
/// boundary: a digit matches no spelling letter, so every spelling is cut
/// off at the same place.
#[verifier::rlimit(100)]
proof fn lemma_ext_boundary(s1: Seq<char>, s2: Seq<char>, k: int)
    requires
        0 <= k <= s1.len(),
        s2.len() > 0,
        is_digit_char(s2[0]),
    ensures
        s_ext(s1 + s2, k) == s_ext(s1, k),
        m_ext(s1 + s2, k) == m_ext(s1, k),
        h_ext(s1 + s2, k) == h_ext(s1, k),
        d_ext(s1 + s2, k) == d_ext(s1, k),
        w_ext(s1 + s2, k) == w_ext(s1, k),
{
    let t = s1 + s2;
    let n1 = s1.len() as int;
    assert forall|m: int, c: char|
        #![trigger lc_at(t, m, c)]
        0 <= m <= n1 && !is_digit_char(c) implies lc_at(t, m, c) == lc_at(s1, m, c) by {
        if m < n1 {
            assert(t[m] == s1[m]);
        } else {
            assert(t[m] == s2[0]);
            assert(lower_char(t[m]) == t[m]);
        }
    }
}

/// A clean chain in the left operand survives concatenation: the combined
/// scan is the two scans, one after the other.
proof fn lemma_scan_concat_from(s1: Seq<char>, s2: Seq<char>, i: int)
    requires
        0 <= i <= s1.len(),
        consumed_exactly(s1, i),
        cleanly_parses(s2),
    ensures
        scan_comps(s1 + s2, i) == scan_comps(s1, i) + scan_comps(s2, 0),
    decreases s1.len() - i,
{
    let t = s1 + s2;
    let n1 = s1.len() as int;
    lemma_cleanly_starts_with_digit(s2);
    if i == n1 {
        lemma_shift_scan(s1, s2, 0);
        assert(scan_comps(s1, i) =~= Seq::<DurComp>::empty());
        assert(Seq::<DurComp>::empty() + scan_comps(s2, 0) =~= scan_comps(s2, 0));
    } else {
        let ce = match_comp(s1, i)->Some_0;
        lemma_match_comp_advances(s1, i);
        lemma_match_comp_boundary(s1, s2, i);
        lemma_scan_concat_from(s1, s2, ce.1);
        assert(scan_comps(t, i) == seq![ce.0] + scan_comps(t, ce.1));
        assert(scan_comps(s1, i) == seq![ce.0] + scan_comps(s1, ce.1));
        assert(seq![ce.0] + (scan_comps(s1, ce.1) + scan_comps(s2, 0)) =~= (seq![ce.0]
            + scan_comps(s1, ce.1)) + scan_comps(s2, 0));
    }
}

proof fn lemma_total_scaled_concat(a: Seq<DurComp>, b: Seq<DurComp>, d: nat)
    ensures
        total_scaled(a + b, d) == total_scaled(a, d) + total_scaled(b, d),
    decreases b.len(),
{
    if b.len() == 0 {
        assert(a + b =~= a);
    } else {
        assert((a + b).drop_last() =~= a + b.drop_last());
        assert((a + b).last() == b.last());
        lemma_total_scaled_concat(a, b.drop_last(), d);
    }
}

/// The parser is additive over concatenation: when two inputs each consist
/// of a gapless chain of components, the concatenation's components are the
/// two chains one after the other, and its exact value (at any common
/// scale) is the sum of the two exact values.
pub proof fn lemma_duration_concat(s1: Seq<char>, s2: Seq<char>)
    requires
        cleanly_parses(s1),
        cleanly_parses(s2),
    ensures
        scan_comps(s1 + s2, 0) == scan_comps(s1, 0) + scan_comps(s2, 0),
        forall|d: nat|
            #[trigger] total_scaled(scan_comps(s1 + s2, 0), d) == total_scaled(
                scan_comps(s1, 0),
                d,
            ) + total_scaled(scan_comps(s2, 0), d),
{
    lemma_scan_concat_from(s1, s2, 0);
    assert forall|d: nat|
        #[trigger] total_scaled(scan_comps(s1 + s2, 0), d) == total_scaled(scan_comps(s1, 0), d)
        + total_scaled(scan_comps(s2, 0), d) by {
        lemma_total_scaled_concat(scan_comps(s1, 0), scan_comps(s2, 0), d);
    }
}

} // verus!
