//! Character-level helpers shared by the parsers: ASCII classification,
//! whitespace trimming, searching and splitting on a separator, and decimal
//! digit sequences.

use vstd::prelude::*;

verus! {

// --- character classes -------------------------------------------------

/// ASCII whitespace: space, tab, line feed, carriage return, form feed.
pub open spec fn is_ws_char(c: char) -> bool {
    c == ' ' || c == '\t' || c == '\n' || c == '\r' || c == '\u{c}'
}

pub fn ws_char(c: char) -> (r: bool)
    ensures
        r == is_ws_char(c),
{
    c == ' ' || c == '\t' || c == '\n' || c == '\r' || c == '\u{c}'
}

/// ASCII decimal digit.
pub open spec fn is_digit_char(c: char) -> bool {
    48 <= c as u32 && c as u32 <= 57
}

pub fn digit_char(c: char) -> (r: bool)
    ensures
        r == is_digit_char(c),
{
    let u = c as u32;
    48 <= u && u <= 57
}

/// Numeric value of an ASCII digit; zero for any other character.
pub open spec fn digit_of(c: char) -> nat {
    if is_digit_char(c) {
        (c as u32 - 48) as nat
    } else {
        0
    }
}

pub fn digit_value(c: char) -> (r: u32)
    requires
        is_digit_char(c),
    ensures
        r == digit_of(c),
{
    c as u32 - 48
}

/// ASCII lowercase letter.
pub open spec fn is_lower_alpha(c: char) -> bool {
    97 <= c as u32 && c as u32 <= 122
}

pub fn lower_alpha_char(c: char) -> (r: bool)
    ensures
        r == is_lower_alpha(c),
{
    let u = c as u32;
    97 <= u && u <= 122
}

/// ASCII case folding: uppercase letters map to lowercase, all else unchanged.
pub open spec fn lower_char(c: char) -> char {
    if 65 <= c as u32 && c as u32 <= 90 {
        ((c as u32 + 32) as u8) as char
    } else {
        c
    }
}

pub fn to_lower_char(c: char) -> (r: char)
    ensures
        r == lower_char(c),
{
    let u = c as u32;
    if 65 <= u && u <= 90 {
        ((u + 32) as u8) as char
    } else {
        c
    }
}

/// ASCII case folding over a whole sequence.
pub open spec fn lower_seq(s: Seq<char>) -> Seq<char> {
    s.map_values(|c: char| lower_char(c))
}

/// ASCII uppercase folding: lowercase letters map to uppercase.
pub open spec fn upper_char(c: char) -> char {
    if 97 <= c as u32 && c as u32 <= 122 {
        ((c as u32 - 32) as u8) as char
    } else {
        c
    }
}

pub fn to_upper_char(c: char) -> (r: char)
    ensures
        r == upper_char(c),
{
    let u = c as u32;
    if 97 <= u && u <= 122 {
        ((u - 32) as u8) as char
    } else {
        c
    }
}

pub open spec fn upper_seq(s: Seq<char>) -> Seq<char> {
    s.map_values(|c: char| upper_char(c))
}

// --- str <-> Vec<char> -------------------------------------------------

/// The characters of a string slice, in order.
pub fn chars_of(s: &str) -> (r: Vec<char>)
    ensures
        r@ == s@,
{
    let n = s.unicode_len();
    let mut r: Vec<char> = Vec::new();
    let mut i: usize = 0;
    while i < n
        invariant
            n == s@.len(),
            i <= n,
            r@ == s@.take(i as int),
        decreases n - i,
    {
        let c = s.get_char(i);
        r.push(c);
        proof {
            assert(s@.take(i + 1 as int) =~= s@.take(i as int).push(s@[i as int]));
        }
        i = i + 1;
    }
    proof {
        assert(s@.take(n as int) =~= s@);
    }
    r
}

/// Relies on String::push from std: appends the given character to the end
/// of the string.
#[verifier::external_body]
fn push_char(s: &mut String, c: char)
    ensures
        final(s)@ == old(s)@.push(c),
{
    s.push(c);
}

/// A freshly allocated string holding exactly the given characters.
pub fn string_from_chars(v: &[char]) -> (r: String)
    ensures
        r@ == v@,
{
    let mut r = String::new();
    let mut i: usize = 0;
    while i < v.len()
        invariant
            i <= v@.len(),
            r@ == v@.take(i as int),
        decreases v@.len() - i,
    {
        push_char(&mut r, v[i]);
        proof {
            assert(v@.take(i + 1 as int) =~= v@.take(i as int).push(v@[i as int]));
        }
        i = i + 1;
    }
    proof {
        assert(v@.take(v@.len() as int) =~= v@);
    }
    r
}

/// Copy of `v[from..to]`.
pub fn copy_range(v: &Vec<char>, from: usize, to: usize) -> (r: Vec<char>)
    requires
        from <= to <= v@.len(),
    ensures
        r@ == v@.subrange(from as int, to as int),
{
    let mut r: Vec<char> = Vec::new();
    let mut j: usize = from;
    while j < to
        invariant
            from <= j <= to <= v@.len(),
            r@ == v@.subrange(from as int, j as int),
        decreases to - j,
    {
        r.push(v[j]);
        proof {
            assert(v@.subrange(from as int, j + 1 as int) =~= v@.subrange(
                from as int,
                j as int,
            ).push(v@[j as int]));
        }
        j = j + 1;
    }
    r
}

/// Character-wise string equality.
pub fn str_eq(a: &str, b: &str) -> (r: bool)
    ensures
        r == (a@ == b@),
{
    let av = chars_of(a);
    let bv = chars_of(b);
    if av.len() != bv.len() {
        proof {
            assert(a@.len() != b@.len());
        }
        return false;
    }
    let mut i: usize = 0;
    while i < av.len()
        invariant
            av@ == a@,
            bv@ == b@,
            av@.len() == bv@.len(),
            i <= av@.len(),
            forall|j: int| 0 <= j < i ==> a@[j] == b@[j],
        decreases av@.len() - i,
    {
        if av[i] != bv[i] {
            return false;
        }
        i = i + 1;
    }
    proof {
        assert(a@ =~= b@);
    }
    true
}

// --- whitespace trimming -----------------------------------------------

pub open spec fn spec_trim_start(s: Seq<char>) -> Seq<char>
    decreases s.len(),
{
    if s.len() > 0 && is_ws_char(s[0]) {
        spec_trim_start(s.drop_first())
    } else {
        s
    }
}

pub open spec fn spec_trim_end(s: Seq<char>) -> Seq<char>
    decreases s.len(),
{
    if s.len() > 0 && is_ws_char(s[s.len() - 1]) {
        spec_trim_end(s.drop_last())
    } else {
        s
    }
}

/// The sequence with ASCII whitespace removed from both ends.
pub open spec fn spec_trim(s: Seq<char>) -> Seq<char> {
    spec_trim_end(spec_trim_start(s))
}

proof fn lemma_trim_start_skip(s: Seq<char>, k: int)
    requires
        0 <= k <= s.len(),
        forall|j: int| 0 <= j < k ==> is_ws_char(s[j]),
        k < s.len() ==> !is_ws_char(s[k]),
    ensures
        spec_trim_start(s) == s.skip(k),
    decreases k,
{
    if k == 0 {
        assert(s.skip(0) =~= s);
    } else {
        lemma_trim_start_skip(s.drop_first(), k - 1);
        assert(s.drop_first().skip(k - 1) =~= s.skip(k));
    }
}

proof fn lemma_trim_end_take(s: Seq<char>, k: int)
    requires
        0 <= k <= s.len(),
        forall|j: int| k <= j < s.len() ==> is_ws_char(s[j]),
        k > 0 ==> !is_ws_char(s[k - 1]),
    ensures
        spec_trim_end(s) == s.take(k),
    decreases s.len() - k,
{
    if k == s.len() {
        assert(s.take(k) =~= s);
    } else {
        lemma_trim_end_take(s.drop_last(), k);
        assert(s.drop_last().take(k) =~= s.take(k));
    }
}

/// Bounds of the non-whitespace core of `v`: `spec_trim(v@)` is exactly
/// `v@.subrange(start, end)`.
pub fn trim_bounds(v: &Vec<char>) -> (r: (usize, usize))
    ensures
        r.0 <= r.1 <= v@.len(),
        spec_trim(v@) == v@.subrange(r.0 as int, r.1 as int),
{
    let n = v.len();
    let mut start: usize = 0;
    while start < n && ws_char(v[start])
        invariant
            n == v@.len(),
            start <= n,
            forall|j: int| 0 <= j < start ==> is_ws_char(v@[j]),
        decreases n - start,
    {
        start = start + 1;
    }
    proof {
        lemma_trim_start_skip(v@, start as int);
    }
    let mut end: usize = n;
    while end > start && ws_char(v[end - 1])
        invariant
            n == v@.len(),
            start <= end <= n,
            forall|j: int| end <= j < n ==> is_ws_char(v@[j]),
            spec_trim_start(v@) == v@.skip(start as int),
            forall|j: int| 0 <= j < start ==> is_ws_char(v@[j]),
        decreases end,
    {
        end = end - 1;
    }
    proof {
        let t = v@.skip(start as int);
        lemma_trim_end_take(t, end - start);
        assert(t.take(end - start) =~= v@.subrange(start as int, end as int));
    }
    (start, end)
}

// --- searching and splitting -------------------------------------------

/// Index of the first occurrence of `c` in `s`, if any.
pub open spec fn find_char(s: Seq<char>, c: char) -> Option<int>
    decreases s.len(),
{
    if s.len() == 0 {
        None
    } else if s[0] == c {
        Some(0)
    } else {
        match find_char(s.drop_first(), c) {
            Some(i) => Some(i + 1),
            None => None,
        }
    }
}

pub proof fn lemma_find_char(s: Seq<char>, c: char)
    ensures
        match find_char(s, c) {
            Some(i) => 0 <= i < s.len() && s[i] == c && forall|j: int| 0 <= j < i ==> s[j] != c,
            None => forall|j: int| 0 <= j < s.len() ==> s[j] != c,
        },
    decreases s.len(),
{
    if s.len() > 0 && s[0] != c {
        let t = s.drop_first();
        lemma_find_char(t, c);
        match find_char(t, c) {
            Some(i) => {
                assert(s[i + 1] == t[i]);
                assert forall|j: int| 0 <= j < i + 1 implies s[j] != c by {
                    if j > 0 {
                        assert(t[j - 1] != c);
                        assert(s[j] == t[j - 1]);
                    }
                }
            },
            None => {
                assert forall|j: int| 0 <= j < s.len() implies s[j] != c by {
                    if j > 0 {
                        assert(t[j - 1] != c);
                        assert(s[j] == t[j - 1]);
                    }
                }
            },
        }
    }
}

/// The converse direction: a witness pins `find_char` down.
pub proof fn lemma_find_char_is(s: Seq<char>, c: char, i: int)
    requires
        0 <= i < s.len(),
        s[i] == c,
        forall|j: int| 0 <= j < i ==> s[j] != c,
    ensures
        find_char(s, c) == Some(i),
{
    lemma_find_char(s, c);
    match find_char(s, c) {
        Some(k) => {
            if k < i {
                assert(s[k] == c);
            } else if k > i {
                assert(s[i] != c);
            }
        },
        None => {
            assert(s[i] != c);
        },
    }
}

pub proof fn lemma_find_char_none(s: Seq<char>, c: char)
    requires
        forall|j: int| 0 <= j < s.len() ==> s[j] != c,
    ensures
        find_char(s, c) == None::<int>,
{
    lemma_find_char(s, c);
    if let Some(k) = find_char(s, c) {
        assert(s[k] == c);
    }
}

/// First index of `c` in `v`, scanning left to right.
pub fn find_char_exec(v: &Vec<char>, c: char) -> (r: Option<usize>)
    ensures
        match r {
            Some(i) => find_char(v@, c) == Some(i as int),
            None => find_char(v@, c) == None::<int>,
        },
{
    let n = v.len();
    let mut i: usize = 0;
    while i < n
        invariant
            n == v@.len(),
            i <= n,
            forall|j: int| 0 <= j < i ==> v@[j] != c,
        decreases n - i,
    {
        if v[i] == c {
            proof {
                lemma_find_char_is(v@, c, i as int);
            }
            return Some(i);
        }
        i = i + 1;
    }
    proof {
        lemma_find_char_none(v@, c);
    }
    None
}

/// The pieces of `s` between occurrences of `sep`; always non-empty.
pub open spec fn spec_split(s: Seq<char>, sep: char) -> Seq<Seq<char>>
    decreases s.len(),
{
    match find_char(s, sep) {
        None => seq![s],
        Some(i) => {
            if 0 <= i < s.len() {
                seq![s.take(i)] + spec_split(s.skip(i + 1), sep)
            } else {
                seq![s]
            }
        },
    }
}

pub proof fn lemma_split_len(s: Seq<char>, sep: char)
    ensures
        spec_split(s, sep).len() >= 1,
    decreases s.len(),
{
    lemma_find_char(s, sep);
    match find_char(s, sep) {
        None => {},
        Some(i) => {
            lemma_split_len(s.skip(i + 1), sep);
        },
    }
}

/// Split `v` on `sep`, yielding the pieces in order.
pub fn split_chars(v: &Vec<char>, sep: char) -> (r: Vec<Vec<char>>)
    ensures
        r.deep_view() == spec_split(v@, sep),
        r@.len() >= 1,
{
    let mut r: Vec<Vec<char>> = Vec::new();
    let mut pos: usize = 0;
    let n = v.len();
    proof {
        assert(v@.skip(0) =~= v@);
        assert(r.deep_view() + spec_split(v@, sep) =~= spec_split(v@, sep));
    }
    loop
        invariant
            n == v@.len(),
            pos <= n,
            spec_split(v@, sep) == r.deep_view() + spec_split(v@.skip(pos as int), sep),
        decreases n - pos,
    {
        // scan for the next separator at or after pos
        let mut i: usize = pos;
        while i < n && v[i] != sep
            invariant
                n == v@.len(),
                pos <= i <= n,
                forall|j: int| pos <= j < i ==> v@[j] != sep,
            decreases n - i,
        {
            i = i + 1;
        }
        let mut part: Vec<char> = Vec::new();
        let mut j: usize = pos;
        while j < i
            invariant
                pos <= j <= i <= n,
                n == v@.len(),
                part@ == v@.subrange(pos as int, j as int),
            decreases i - j,
        {
            part.push(v[j]);
            proof {
                assert(v@.subrange(pos as int, j + 1 as int) =~= v@.subrange(
                    pos as int,
                    j as int,
                ).push(v@[j as int]));
            }
            j = j + 1;
        }
        let ghost rest = v@.skip(pos as int);
        let ghost olddv = r.deep_view();
        if i == n {
            proof {
                lemma_find_char_none(rest, sep);
                assert(part@ =~= rest);
            }
            r.push(part);
            proof {
                assert(r.deep_view() =~~= olddv.push(rest));
                assert(spec_split(rest, sep) == seq![rest]);
                assert(olddv + seq![rest] =~= olddv.push(rest));
                assert(spec_split(v@, sep) == r.deep_view());
            }
            return r;
        } else {
            let ghost k = i - pos;
            proof {
                assert(rest[k] == sep);
                assert(forall|j: int| 0 <= j < k ==> rest[j] != sep);
                lemma_find_char_is(rest, sep, k);
                assert(part@ =~= rest.take(k));
            }
            r.push(part);
            pos = i + 1;
            proof {
                assert(r.deep_view() =~~= olddv.push(part@));
                assert(spec_split(rest, sep) == seq![rest.take(k)] + spec_split(
                    rest.skip(k + 1),
                    sep,
                ));
                assert(rest.skip(k + 1) =~= v@.skip(pos as int));
                assert(olddv + (seq![part@] + spec_split(v@.skip(pos as int), sep)) =~= (
                olddv.push(part@)) + spec_split(v@.skip(pos as int), sep));
                assert(spec_split(v@, sep) == r.deep_view() + spec_split(
                    v@.skip(pos as int),
                    sep,
                ));
            }
        }
    }
}

// --- decimal digit sequences -------------------------------------------

/// Value of a sequence of ASCII digits read as a decimal number.
pub open spec fn digits_val(s: Seq<char>) -> nat
    decreases s.len(),
{
    if s.len() == 0 {
        0
    } else {
        digits_val(s.drop_last()) * 10 + digit_of(s.last())
    }
}

pub open spec fn all_digits(s: Seq<char>) -> bool {
    forall|i: int| 0 <= i < s.len() ==> is_digit_char(s[i])
}

pub proof fn lemma_digits_val_prefix(s: Seq<char>, k: int)
    requires
        0 <= k <= s.len(),
    ensures
        digits_val(s.take(k)) <= digits_val(s),
    decreases s.len() - k,
{
    if k < s.len() {
        lemma_digits_val_prefix(s.drop_last(), k);
        assert(s.drop_last().take(k) =~= s.take(k));
    } else {
        assert(s.take(k) =~= s);
    }
}

} // verus!
