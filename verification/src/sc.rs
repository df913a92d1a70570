//! SuttaCentral codes: parsing, formatting, ranges, and how they are derived
//! from CST codes.

use vstd::prelude::*;
use vstd::string::*;
use regex::Regex;
use crate::cst::after_last;
use crate::text::{
    all_digits, chars_vec, int_decimal, is_digit, opt_view, parse_i32_chars,
    parse_i32_spec, parse_u32_chars, parse_u32_spec, push_char, push_i32_decimal,
    push_nat_decimal, nat_decimal, starts_with, str_eq,
};
use crate::types::{ScCodeComponents, StringMap};
use crate::text::{digits_value, parse_int_spec};
use crate::fragment_edit::lemma_nat_decimal_digits;

verus! {

// ---------------------------------------------------------------------------
// Splitting
// ---------------------------------------------------------------------------

/// Index of the first `c` in `s`.
pub open spec fn first_index_of(s: Seq<char>, c: char) -> Option<int>
    decreases s.len(),
{
    if s.len() == 0 {
        None
    } else if s[0] == c {
        Some(0)
    } else {
        match first_index_of(s.drop_first(), c) {
            Some(k) => Some(k + 1),
            None => None,
        }
    }
}

/// Index of the last `c` in `s` (`str::rfind`).
pub open spec fn last_index_of(s: Seq<char>, c: char) -> Option<int>
    decreases s.len(),
{
    if s.len() == 0 {
        None
    } else if s.last() == c {
        Some(s.len() - 1)
    } else {
        last_index_of(s.drop_last(), c)
    }
}

/// `str::split(c)`: the parts between the occurrences of `c`.
pub open spec fn split_on(s: Seq<char>, c: char) -> Seq<Seq<char>>
    decreases s.len(),
{
    match first_index_of(s, c) {
        None => seq![s],
        Some(k) => if 0 <= k < s.len() {
            seq![s.take(k)] + split_on(s.subrange(k + 1, s.len() as int), c)
        } else {
            seq![s]
        },
    }
}

proof fn lemma_first_index_of(s: Seq<char>, c: char, k: int)
    requires
        0 <= k <= s.len(),
        forall|j: int| 0 <= j < k ==> s[j] != c,
    ensures
        k < s.len() && s[k] == c ==> first_index_of(s, c) == Some(k),
        k == s.len() ==> first_index_of(s, c) is None,
    decreases k,
{
    if k > 0 && s.len() > 0 {
        lemma_first_index_of(s.drop_first(), c, k - 1);
    }
}

proof fn lemma_first_index_of_bounds(s: Seq<char>, c: char)
    ensures
        first_index_of(s, c) matches Some(k) ==> 0 <= k < s.len() && s[k] == c,
    decreases s.len(),
{
    if s.len() > 0 && s[0] != c {
        lemma_first_index_of_bounds(s.drop_first(), c);
    }
}

proof fn lemma_last_index_of(s: Seq<char>, c: char)
    ensures
        last_index_of(s, c) matches Some(k) ==> 0 <= k < s.len() && s[k] == c && forall|j: int|
            k < j < s.len() ==> s[j] != c,
        last_index_of(s, c) is None ==> forall|j: int| 0 <= j < s.len() ==> s[j] != c,
    decreases s.len(),
{
    if s.len() > 0 && s.last() != c {
        let t = s.drop_last();
        lemma_last_index_of(t, c);
        assert forall|j: int| 0 <= j < t.len() implies t[j] == s[j] by {}
        if let Some(k) = last_index_of(t, c) {
            assert forall|j: int| k < j < s.len() implies s[j] != c by {
                if j < t.len() {
                    assert(t[j] == s[j]);
                }
            }
        } else {
            assert forall|j: int| 0 <= j < s.len() implies s[j] != c by {
                if j < t.len() {
                    assert(t[j] == s[j]);
                }
            }
        }
    }
}

/// The index of the last `c` in `v`.
pub fn rfind_char(v: &Vec<char>, c: char) -> (r: Option<usize>)
    ensures
        match r {
            Some(k) => last_index_of(v@, c) == Some(k as int) && k < v@.len(),
            None => last_index_of(v@, c) is None,
        },
{
    let mut i = v.len();
    assert(v@.take(i as int) =~= v@);
    while i > 0
        invariant
            i <= v@.len(),
            last_index_of(v@, c) == last_index_of(v@.take(i as int), c),
        decreases i,
    {
        let ghost pre = v@.take(i as int);
        assert(pre.drop_last() =~= v@.take(i - 1));
        if v[i - 1] == c {
            return Some(i - 1);
        }
        i = i - 1;
    }
    None
}

/// The parts of `v` between the occurrences of `c`, as `(start, end)` positions.
pub fn split_ranges(v: &Vec<char>, c: char) -> (r: Vec<(usize, usize)>)
    ensures
        r@.len() == split_on(v@, c).len(),
        forall|i: int|
            0 <= i < r@.len() ==> r@[i].0 <= r@[i].1 <= v@.len() && #[trigger] split_on(
                v@,
                c,
            )[i] == v@.subrange(r@[i].0 as int, r@[i].1 as int),
{
    let n = v.len();
    let mut out: Vec<(usize, usize)> = Vec::new();
    let mut seg: usize = 0;
    let mut i: usize = 0;
    assert(v@.subrange(0, n as int) =~= v@);
    assert(out@.map_values(|p: (usize, usize)| v@.subrange(p.0 as int, p.1 as int)) + split_on(
        v@,
        c,
    ) =~= split_on(v@, c));
    while i < n
        invariant
            seg <= i <= n == v@.len(),
            forall|j: int| seg <= j < i ==> v@[j] != c,
            split_on(v@, c) == out@.map_values(
                |p: (usize, usize)| v@.subrange(p.0 as int, p.1 as int),
            ) + split_on(v@.subrange(seg as int, n as int), c),
            forall|k: int| 0 <= k < out@.len() ==> #[trigger] out@[k].0 <= out@[k].1 <= seg,
        decreases n - i,
    {
        if v[i] == c {
            let ghost rest = v@.subrange(seg as int, n as int);
            proof {
                lemma_first_index_of(rest, c, i - seg);
                assert(rest.take(i - seg) =~= v@.subrange(seg as int, i as int));
                assert(rest.subrange(i - seg + 1, rest.len() as int) =~= v@.subrange(
                    i + 1,
                    n as int,
                ));
            }
            let ghost before = out@;
            out.push((seg, i));
            assert(out@.map_values(|p: (usize, usize)| v@.subrange(p.0 as int, p.1 as int))
                =~= before.map_values(|p: (usize, usize)| v@.subrange(p.0 as int, p.1 as int))
                + seq![v@.subrange(seg as int, i as int)]);
            assert forall|k: int| 0 <= k < out@.len() implies #[trigger] out@[k].0 <= out@[k].1
                <= i + 1 by {
                if k < before.len() {
                    assert(out@[k] == before[k]);
                }
            }
            seg = i + 1;
        }
        i = i + 1;
    }
    let ghost rest = v@.subrange(seg as int, n as int);
    proof {
        lemma_first_index_of(rest, c, n - seg);
    }
    let ghost before = out@;
    out.push((seg, n));
    assert(out@.map_values(|p: (usize, usize)| v@.subrange(p.0 as int, p.1 as int)) =~= before.map_values(
        |p: (usize, usize)| v@.subrange(p.0 as int, p.1 as int),
    ) + seq![rest]);
    let ghost m = out@.map_values(|p: (usize, usize)| v@.subrange(p.0 as int, p.1 as int));
    assert(split_on(rest, c) == seq![rest]);
    assert(split_on(v@, c) =~= m);
    assert forall|i: int| 0 <= i < out@.len() implies out@[i].0 <= out@[i].1 <= v@.len()
        && #[trigger] split_on(v@, c)[i] == v@.subrange(out@[i].0 as int, out@[i].1 as int) by {
        assert(m[i] == v@.subrange(out@[i].0 as int, out@[i].1 as int));
    }
    out
}

fn string_of(v: &Vec<char>, a: usize, b: usize) -> (r: String)
    requires
        a <= b <= v@.len(),
    ensures
        r@ == v@.subrange(a as int, b as int),
{
    let mut s = String::new();
    let mut i = a;
    while i < b
        invariant
            a <= i <= b <= v@.len(),
            s@ == v@.subrange(a as int, i as int),
        decreases b - i,
    {
        push_char(&mut s, v[i]);
        assert(v@.subrange(a as int, i + 1) =~= v@.subrange(a as int, i as int).push(v@[i as int]));
        i = i + 1;
    }
    s
}

fn all_digits_range(v: &Vec<char>, a: usize, b: usize) -> (r: bool)
    requires
        a <= b <= v@.len(),
    ensures
        r == all_digits(v@.subrange(a as int, b as int)),
{
    let ghost s = v@.subrange(a as int, b as int);
    let mut i = a;
    while i < b
        invariant
            a <= i <= b <= v@.len(),
            s == v@.subrange(a as int, b as int),
            forall|k: int| 0 <= k < i - a ==> is_digit(s[k]),
        decreases b - i,
    {
        assert(s[i - a] == v@[i as int]);
        let u = v[i] as u32;
        if !(48 <= u && u <= 57) {
            return false;
        }
        i = i + 1;
    }
    true
}

// ---------------------------------------------------------------------------
// Ranges
// ---------------------------------------------------------------------------

/// A code whose last part is a range: the part before its last dash ends, after
/// its own last dot, with ASCII digits only ("sn3.2.3.1-11").
pub open spec fn is_range_code(code: Seq<char>) -> bool {
    match last_index_of(code, '-') {
        Some(d) => all_digits(after_last(code.take(d), '.')),
        None => false,
    }
}

proof fn lemma_after_last_is_suffix(s: Seq<char>, c: char)
    ensures
        after_last(s, c) == s.subrange(
            match last_index_of(s, c) {
                Some(k) => k + 1,
                None => 0,
            },
            s.len() as int,
        ),
    decreases s.len(),
{
    if s.len() > 0 && s.last() != c {
        lemma_after_last_is_suffix(s.drop_last(), c);
        lemma_last_index_of(s.drop_last(), c);
        let k = match last_index_of(s, c) {
            Some(k) => k + 1,
            None => 0,
        };
        assert(s.drop_last().subrange(k, s.len() - 1).push(s.last()) =~= s.subrange(
            k,
            s.len() as int,
        ));
    } else if s.len() > 0 {
        assert(s.subrange(s.len() as int, s.len() as int) =~= Seq::<char>::empty());
    } else {
        assert(s.subrange(0, 0) =~= Seq::<char>::empty());
    }
}

/// Start of the part after the last `c` in `v[0..end]`.
fn after_last_start(v: &Vec<char>, end: usize, c: char) -> (r: usize)
    requires
        end <= v@.len(),
    ensures
        r <= end,
        after_last(v@.take(end as int), c) == v@.subrange(r as int, end as int),
        r > 0 ==> v@[r - 1] == c,
        r == 0 ==> forall|j: int| 0 <= j < end ==> v@[j] != c,
{
    let mut k = end;
    while k > 0 && v[k - 1] != c
        invariant
            k <= end <= v@.len(),
            forall|j: int| k <= j < end ==> v@[j] != c,
        decreases k,
    {
        k = k - 1;
    }
    proof {
        let t = v@.take(end as int);
        lemma_after_last_is_suffix(t, c);
        lemma_last_index_of(t, c);
        if k > 0 {
            assert(t[k - 1] == c);
            match last_index_of(t, c) {
                Some(m) => {
                    if m > k - 1 {
                        assert(t[m] == v@[m]);
                    }
                    if m < k - 1 {
                        assert(t[k - 1] == c);
                    }
                },
                None => {
                    assert(t[k - 1] == c);
                },
            }
        } else {
            match last_index_of(t, c) {
                Some(m) => {
                    assert(t[m] == v@[m]);
                },
                None => {},
            }
        }
        assert(t.subrange(k as int, end as int) =~= v@.subrange(k as int, end as int));
    }
    k
}

/// Whether a CST code ends with a range (see `is_range_code`).
pub fn is_cst_code_range(cst_code: &str) -> (r: bool)
    ensures
        r == is_range_code(cst_code@),
{
    let v = chars_vec(cst_code);
    match rfind_char(&v, '-') {
        Some(d) => {
            let a = after_last_start(&v, d, '.');
            all_digits_range(&v, a, d)
        },
        None => false,
    }
}

/// The base of a range SC code: the part before its last dash, when that part
/// ends (after its last dot) with ASCII digits ("sn30.3-12" gives "sn30.3").
pub open spec fn non_range_base(code: Seq<char>) -> Option<Seq<char>> {
    match last_index_of(code, '-') {
        Some(d) => if all_digits(after_last(code.take(d), '.')) {
            Some(code.take(d))
        } else {
            None
        },
        None => None,
    }
}

/// The base of a range SC code (see `non_range_base`).
pub fn extract_non_range_base(sc_code: &str) -> (r: Option<String>)
    ensures
        opt_view(r) == non_range_base(sc_code@),
{
    let v = chars_vec(sc_code);
    match rfind_char(&v, '-') {
        Some(d) => {
            let a = after_last_start(&v, d, '.');
            if all_digits_range(&v, a, d) {
                assert(v@.take(d as int) =~= v@.subrange(0, d as int));
                Some(string_of(&v, 0, d))
            } else {
                None
            }
        },
        None => None,
    }
}

// ---------------------------------------------------------------------------
// Parsing and formatting SC codes
// ---------------------------------------------------------------------------

/// What the regex crate captures: for a pattern and a text, `None` when the
/// pattern does not compile or does not match, and otherwise the groups
/// (group 0 is the whole match; a group that did not take part is `None`).
pub uninterp spec fn regex_captures_spec(pattern: Seq<char>, text: Seq<char>) -> Option<
    Seq<Option<Seq<char>>>,
>;

/// The views of captured groups.
pub open spec fn groups_view(g: Vec<Option<String>>) -> Seq<Option<Seq<char>>> {
    g@.map_values(|o: Option<String>| opt_view(o))
}

/// `Regex::new(pattern)` followed by `captures(text)`.
#[verifier::external_body]
fn regex_captures(pattern: &str, text: &str) -> (r: Option<Vec<Option<String>>>)
    ensures
        match r {
            Some(g) => regex_captures_spec(pattern@, text@) == Some(groups_view(g)),
            None => regex_captures_spec(pattern@, text@) is None,
        },
{
    let re = Regex::new(pattern).ok()?;
    let caps = re.captures(text)?;
    Some(caps.iter().map(|m| m.map(|m| m.as_str().to_string())).collect())
}

/// The pattern of an SC code: two lower-case letters, a number, and
/// optionally a dot and a second number.
pub open spec fn sc_code_pattern() -> Seq<char> {
    "^([a-z]{2})(\\d+)(?:\\.(\\d+))?$"@
}

/// Group `i` of the captures (none past the last group).
pub open spec fn group(g: Seq<Option<Seq<char>>>, i: int) -> Option<Seq<char>> {
    if 0 <= i < g.len() {
        g[i]
    } else {
        None
    }
}

/// The view of SC code components: `(prefix, samyutta, nipata, sutta)`.
pub open spec fn components_view(c: ScCodeComponents) -> (Seq<char>, Option<i32>, Option<i32>, Option<
    i32,
>) {
    (c.prefix@, c.samyutta, c.nipata, c.sutta)
}

/// The components of an SC code from the groups of its match: the prefix, the
/// first number (which must parse as `i32`) and the optional second number.
/// For `sn` they are the samyutta and sutta, for `an` the nipata and sutta;
/// for any other prefix the first number is the sutta.
pub open spec fn components_from_groups(caps: Option<Seq<Option<Seq<char>>>>) -> Option<
    (Seq<char>, Option<i32>, Option<i32>, Option<i32>),
> {
    match caps {
        None => None,
        Some(g) => match (group(g, 1), group(g, 2)) {
            (Some(prefix), Some(first)) => match parse_i32_spec(first) {
                Some(n1) => {
                    let n2 = match group(g, 3) {
                        Some(s) => parse_i32_spec(s),
                        None => None,
                    };
                    if prefix == "sn"@ {
                        Some((prefix, Some(n1), None, n2))
                    } else if prefix == "an"@ {
                        Some((prefix, None, Some(n1), n2))
                    } else {
                        Some((prefix, None, None, Some(n1)))
                    }
                },
                None => None,
            },
            _ => None,
        },
    }
}

fn parse_i32_str(s: &str) -> (r: Option<i32>)
    ensures
        r == parse_i32_spec(s@),
{
    let v = chars_vec(s);
    assert(v@.subrange(0, v@.len() as int) =~= v@);
    parse_i32_chars(v.as_slice(), 0, v.len())
}

fn get_group(g: &Vec<Option<String>>, i: usize) -> (r: Option<&String>)
    ensures
        match r {
            Some(s) => group(groups_view(*g), i as int) == Some(s@),
            None => group(groups_view(*g), i as int) is None,
        },
{
    if i < g.len() {
        match &g[i] {
            Some(s) => Some(s),
            None => None,
        }
    } else {
        None
    }
}

/// The components of an SC code from the groups of its match (see `components_from_groups`).
pub fn sc_components_from_captures(caps: Option<Vec<Option<String>>>) -> (r: Option<ScCodeComponents>)
    ensures
        match r {
            Some(c) => components_from_groups(
                match caps {
                    Some(g) => Some(groups_view(g)),
                    None => None,
                },
            ) == Some(components_view(c)),
            None => components_from_groups(
                match caps {
                    Some(g) => Some(groups_view(g)),
                    None => None,
                },
            ) is None,
        },
{
    let g = match caps {
        Some(g) => g,
        None => return None,
    };
    let prefix = match get_group(&g, 1) {
        Some(p) => p.clone(),
        None => return None,
    };
    let first = match get_group(&g, 2) {
        Some(f) => f,
        None => return None,
    };
    let n1 = match parse_i32_str(first.as_str()) {
        Some(n) => n,
        None => return None,
    };
    let n2 = match get_group(&g, 3) {
        Some(s) => parse_i32_str(s.as_str()),
        None => None,
    };
    if str_eq(prefix.as_str(), "sn") {
        Some(ScCodeComponents { prefix, samyutta: Some(n1), nipata: None, sutta: n2 })
    } else if str_eq(prefix.as_str(), "an") {
        Some(ScCodeComponents { prefix, samyutta: None, nipata: Some(n1), sutta: n2 })
    } else {
        Some(ScCodeComponents { prefix, samyutta: None, nipata: None, sutta: Some(n1) })
    }
}

/// Parses an SC code ("sn5.1", "an3.1", "dn1", "mn41") into its components.
pub fn parse_sc_code(sc_code: &str) -> (r: Option<ScCodeComponents>)
    ensures
        match r {
            Some(c) => components_from_groups(regex_captures_spec(sc_code_pattern(), sc_code@))
                == Some(components_view(c)),
            None => components_from_groups(regex_captures_spec(sc_code_pattern(), sc_code@)) is None,
        },
{
    let caps = regex_captures("^([a-z]{2})(\\d+)(?:\\.(\\d+))?$", sc_code);
    proof {
        reveal_strlit("^([a-z]{2})(\\d+)(?:\\.(\\d+))?$");
    }
    sc_components_from_captures(caps)
}

/// An SC code formatted from its components.
pub open spec fn format_sc_spec(c: (Seq<char>, Option<i32>, Option<i32>, Option<i32>)) -> Seq<char> {
    let (prefix, samyutta, nipata, sutta) = c;
    if prefix == "sn"@ {
        match (samyutta, sutta) {
            (Some(m), Some(s)) => "sn"@ + int_decimal(m as int) + "."@ + int_decimal(s as int),
            (Some(m), None) => "sn"@ + int_decimal(m as int),
            _ => prefix,
        }
    } else if prefix == "an"@ {
        match (nipata, sutta) {
            (Some(m), Some(s)) => "an"@ + int_decimal(m as int) + "."@ + int_decimal(s as int),
            (Some(m), None) => "an"@ + int_decimal(m as int),
            _ => prefix,
        }
    } else {
        match sutta {
            Some(s) => prefix + int_decimal(s as int),
            None => prefix,
        }
    }
}

/// Formats SC code components back into a code.
pub fn format_sc_code(components: &ScCodeComponents) -> (r: String)
    ensures
        r@ == format_sc_spec(components_view(*components)),
{
    let p = components.prefix.as_str();
    let mut out = String::new();
    if str_eq(p, "sn") || str_eq(p, "an") {
        let first = if str_eq(p, "sn") {
            components.samyutta
        } else {
            components.nipata
        };
        match first {
            Some(m) => {
                out.append(p);
                push_i32_decimal(&mut out, m);
                if let Some(s) = components.sutta {
                    out.append(".");
                    push_i32_decimal(&mut out, s);
                }
                out
            },
            None => components.prefix.clone(),
        }
    } else {
        out.append(p);
        if let Some(s) = components.sutta {
            push_i32_decimal(&mut out, s);
        }
        out
    }
}


// ---------------------------------------------------------------------------
// Deriving SC codes from CST codes
// ---------------------------------------------------------------------------

/// `format!("{}", n)` for a number.
pub open spec fn dec(n: int) -> Seq<char> {
    int_decimal(n)
}

/// The base of a CST code and whether it ends with a range, as the context
/// derivation reads it: the part before the last dash when, after a dot, it
/// ends with ASCII digits.
pub open spec fn context_range_split(cst: Seq<char>) -> (Seq<char>, bool) {
    match last_index_of(cst, '-') {
        Some(d) => {
            let bp = cst.take(d);
            if last_index_of(bp, '.') is Some && all_digits(after_last(bp, '.')) {
                (bp, true)
            } else {
                (cst, false)
            }
        },
        None => (cst, false),
    }
}

/// The SC code derived from a CST code with the samyutta or nipata of a
/// context: `sn{samyutta}.{sutta}` from the fourth part of the CST code (with
/// the range end when it has one), the same for `an` with the nipata, and
/// `{prefix}{sutta}` from the second part for `dn` and `mn`.
pub open spec fn derive_from_context_spec(
    cst: Seq<char>,
    ctx: (Seq<char>, Option<i32>, Option<i32>, Option<i32>),
) -> Option<Seq<char>> {
    let (base, is_range) = context_range_split(cst);
    let parts = split_on(base, '.');
    let (prefix, samyutta, nipata, _) = ctx;
    let group = if prefix == "sn"@ {
        samyutta
    } else if prefix == "an"@ {
        nipata
    } else {
        None
    };
    if prefix == "sn"@ || prefix == "an"@ {
        match group {
            Some(m) => if parts.len() >= 4 {
                match parse_i32_spec(parts[3]) {
                    Some(sutta) => match (is_range, parse_i32_spec(after_last(cst, '-'))) {
                        (true, Some(e)) => Some(
                            prefix + dec(m as int) + "."@ + dec(sutta as int) + "-"@ + dec(
                                e as int,
                            ),
                        ),
                        _ => Some(prefix + dec(m as int) + "."@ + dec(sutta as int)),
                    },
                    None => None,
                }
            } else {
                None
            },
            None => None,
        }
    } else if prefix == "dn"@ || prefix == "mn"@ {
        if parts.len() >= 2 {
            match parse_i32_spec(parts[1]) {
                Some(sutta) => Some(prefix + dec(sutta as int)),
                None => None,
            }
        } else {
            None
        }
    } else {
        None
    }
}

fn push_int(out: &mut String, n: i64)
    requires
        -0x7fff_ffff_ffff_ffff <= n,
    ensures
        final(out)@ == old(out)@ + dec(n as int),
{
    if n < 0 {
        push_char(out, '-');
        push_nat_decimal(out, (0 - n) as u64);
        assert(final(out)@ =~= old(out)@ + dec(n as int));
    } else {
        push_nat_decimal(out, n as u64);
    }
}

fn part_str(v: &Vec<char>, parts: &Vec<(usize, usize)>, i: usize) -> (r: String)
    requires
        i < parts@.len(),
        parts@[i as int].0 <= parts@[i as int].1 <= v@.len(),
    ensures
        r@ == v@.subrange(parts@[i as int].0 as int, parts@[i as int].1 as int),
{
    string_of(v, parts[i].0, parts[i].1)
}

/// Base and range flag of a CST code (see `context_range_split`), as positions.
fn context_split(v: &Vec<char>) -> (r: (usize, bool))
    ensures
        r.0 <= v@.len(),
        context_range_split(v@) == (v@.take(r.0 as int), r.1),
{
    match rfind_char(v, '-') {
        Some(d) => {
            let a = after_last_start(v, d, '.');
            let has_dot = a > 0;
            proof {
                let bp = v@.take(d as int);
                lemma_after_last_is_suffix(bp, '.');
                lemma_last_index_of(bp, '.');
                if a > 0 {
                    assert(bp[a - 1] == '.');
                } else {
                    if let Some(k) = last_index_of(bp, '.') {
                        assert(bp[k] == v@[k]);
                    }
                }
            }
            if has_dot && all_digits_range(v, a, d) {
                (d, true)
            } else {
                assert(v@.take(v@.len() as int) =~= v@);
                (v.len(), false)
            }
        },
        None => {
            assert(v@.take(v@.len() as int) =~= v@);
            (v.len(), false)
        },
    }
}

/// The SC code derived from a CST code and a context (see `derive_from_context_spec`).
pub fn derive_sc_code_from_context(cst_code: &str, context: &ScCodeComponents) -> (r: Option<String>)
    ensures
        opt_view(r) == derive_from_context_spec(cst_code@, components_view(*context)),
{
    let v = chars_vec(cst_code);
    let (b, is_range) = context_split(&v);
    let base: Vec<char> = {
        let mut w: Vec<char> = Vec::new();
        let mut i: usize = 0;
        while i < b
            invariant
                i <= b <= v@.len(),
                w@ == v@.take(i as int),
            decreases b - i,
        {
            w.push(v[i]);
            assert(v@.take(i + 1) =~= v@.take(i as int).push(v@[i as int]));
            i = i + 1;
        }
        w
    };
    let parts = split_ranges(&base, '.');
    let p = context.prefix.as_str();
    let is_sn = str_eq(p, "sn");
    let is_an = str_eq(p, "an");
    if is_sn || is_an {
        let g = if is_sn {
            context.samyutta
        } else {
            context.nipata
        };
        let m = match g {
            Some(m) => m,
            None => return None,
        };
        if parts.len() < 4 {
            return None;
        }
        proof {
            assert(split_on(base@, '.')[3] == base@.subrange(parts@[3].0 as int, parts@[3].1 as int));
        }
        let sutta = match parse_i32_chars(base.as_slice(), parts[3].0, parts[3].1) {
            Some(s) => s,
            None => return None,
        };
        let mut out = String::new();
        out.append(p);
        push_int(&mut out, m as i64);
        out.append(".");
        push_int(&mut out, sutta as i64);
        if is_range {
            let d = match rfind_char(&v, '-') {
                Some(d) => d,
                None => {
                    return Some(out);
                },
            };
            proof {
                lemma_after_last_is_suffix(v@, '-');
            }
            let n = v.len();
            assert(d < n);
            if let Some(e) = parse_i32_chars(v.as_slice(), d + 1, n) {
                out.append("-");
                push_int(&mut out, e as i64);
            }
        }
        Some(out)
    } else if str_eq(p, "dn") || str_eq(p, "mn") {
        if parts.len() < 2 {
            return None;
        }
        proof {
            assert(split_on(base@, '.')[1] == base@.subrange(parts@[1].0 as int, parts@[1].1 as int));
        }
        match parse_i32_chars(base.as_slice(), parts[1].0, parts[1].1) {
            Some(s) => {
                let mut out = String::new();
                out.append(p);
                push_int(&mut out, s as i64);
                Some(out)
            },
            None => None,
        }
    } else {
        None
    }
}


/// The components of a range SC code ("sn12.93-103"): those of the part before
/// the dash, with the number after the dash as the sutta.
pub open spec fn range_components_spec(sc: Seq<char>) -> Option<
    (Seq<char>, Option<i32>, Option<i32>, Option<i32>),
> {
    let parts = split_on(sc, '-');
    if parts.len() != 2 {
        None
    } else {
        match components_from_groups(regex_captures_spec(sc_code_pattern(), parts[0])) {
            Some(c) => match parse_i32_spec(parts[1]) {
                Some(e) => Some((c.0, c.1, c.2, Some(e))),
                None => None,
            },
            None => None,
        }
    }
}

/// Parses a range SC code (see `range_components_spec`).
pub fn parse_range_sc_code(sc_code: &str) -> (r: Option<ScCodeComponents>)
    ensures
        match r {
            Some(c) => range_components_spec(sc_code@) == Some(components_view(c)),
            None => range_components_spec(sc_code@) is None,
        },
{
    let v = chars_vec(sc_code);
    let parts = split_ranges(&v, '-');
    if parts.len() != 2 {
        return None;
    }
    proof {
        assert(split_on(v@, '-')[0] == v@.subrange(parts@[0].0 as int, parts@[0].1 as int));
        assert(split_on(v@, '-')[1] == v@.subrange(parts@[1].0 as int, parts@[1].1 as int));
    }
    let first = part_str(&v, &parts, 0);
    let first_components = match parse_sc_code(first.as_str()) {
        Some(c) => c,
        None => return None,
    };
    let end_sutta = match parse_i32_chars(v.as_slice(), parts[1].0, parts[1].1) {
        Some(e) => e,
        None => return None,
    };
    Some(
        ScCodeComponents {
            prefix: first_components.prefix,
            samyutta: first_components.samyutta,
            nipata: first_components.nipata,
            sutta: Some(end_sutta),
        },
    )
}

/// `-{end}` when there is a range end.
pub open spec fn range_suffix(range_end: Option<i32>) -> Seq<char> {
    match range_end {
        Some(e) => "-"@ + dec(e as int),
        None => Seq::empty(),
    }
}

/// The SC code of a CST sutta number that follows a previous SC code: in
/// `sn` or `an`, sutta 1 (after any sutta) starts the next group, the next
/// sutta number stays in the group, and a lower number starts the next group
/// at sutta 1; in `dn` and `mn` only the next sutta number is derived.
pub open spec fn with_components_spec(
    cst_sutta: i32,
    prev: (Seq<char>, Option<i32>, Option<i32>, Option<i32>),
    range_end: Option<i32>,
) -> Option<Seq<char>> {
    let (prefix, samyutta, nipata, sutta) = prev;
    if prefix == "sn"@ || prefix == "an"@ {
        let group = if prefix == "sn"@ {
            samyutta
        } else {
            nipata
        };
        match (group, sutta) {
            (Some(g), Some(ps)) => if cst_sutta == 1 && (ps > 1 || ps > 0) {
                Some(prefix + dec(g + 1) + "."@ + dec(cst_sutta as int) + range_suffix(range_end))
            } else if cst_sutta == ps + 1 {
                Some(prefix + dec(g as int) + "."@ + dec(cst_sutta as int) + range_suffix(range_end))
            } else if cst_sutta == 1 || cst_sutta < ps {
                Some(prefix + dec(g + 1) + "."@ + dec(1) + range_suffix(range_end))
            } else {
                None
            },
            _ => None,
        }
    } else if prefix == "dn"@ || prefix == "mn"@ {
        match sutta {
            Some(ps) => if cst_sutta == ps + 1 {
                Some(prefix + dec(cst_sutta as int))
            } else {
                None
            },
            None => None,
        }
    } else {
        None
    }
}

fn push_range_suffix(out: &mut String, range_end: Option<i32>)
    ensures
        final(out)@ == old(out)@ + range_suffix(range_end),
{
    if let Some(e) = range_end {
        out.append("-");
        push_int(out, e as i64);
    } else {
        assert(old(out)@ + Seq::<char>::empty() =~= old(out)@);
    }
}

/// The SC code derived from the components of the previous one (see `with_components_spec`).
pub fn derive_sc_code_with_components(
    cst_sutta: i32,
    prev_components: &ScCodeComponents,
    range_end: Option<i32>,
) -> (r: Option<String>)
    ensures
        opt_view(r) == with_components_spec(cst_sutta, components_view(*prev_components), range_end),
{
    let p = prev_components.prefix.as_str();
    let is_sn = str_eq(p, "sn");
    if is_sn || str_eq(p, "an") {
        let g = if is_sn {
            prev_components.samyutta
        } else {
            prev_components.nipata
        };
        let (g, ps) = match (g, prev_components.sutta) {
            (Some(g), Some(ps)) => (g, ps),
            _ => return None,
        };
        let mut out = String::new();
        out.append(p);
        if cst_sutta == 1 && (ps > 1 || ps > 0) {
            push_int(&mut out, g as i64 + 1);
            out.append(".");
            push_int(&mut out, cst_sutta as i64);
        } else if cst_sutta as i64 == ps as i64 + 1 {
            push_int(&mut out, g as i64);
            out.append(".");
            push_int(&mut out, cst_sutta as i64);
        } else if cst_sutta == 1 || cst_sutta < ps {
            push_int(&mut out, g as i64 + 1);
            out.append(".");
            push_int(&mut out, 1);
        } else {
            return None;
        }
        push_range_suffix(&mut out, range_end);
        Some(out)
    } else if str_eq(p, "dn") || str_eq(p, "mn") {
        match prev_components.sutta {
            Some(ps) => if cst_sutta as i64 == ps as i64 + 1 {
                let mut out = String::new();
                out.append(p);
                push_int(&mut out, cst_sutta as i64);
                Some(out)
            } else {
                None
            },
            None => None,
        }
    } else {
        None
    }
}

/// The SC code of a CST code that follows a fragment with a previous SC code:
/// the samyutta and sutta numbers of the CST code (a range keeps its end) are
/// set against the previous code, read as a plain code or else as a range code
/// (see `with_components_spec`). CST codes with fewer than four parts give none.
pub open spec fn derive_from_previous_spec(cst: Seq<char>, prev: Seq<char>) -> Option<Seq<char>> {
    let (base, range_end) = match last_index_of(cst, '-') {
        Some(d) => {
            let bp = cst.take(d);
            if all_digits(after_last(bp, '.')) {
                (bp, parse_i32_spec(cst.subrange(d + 1, cst.len() as int)))
            } else {
                (cst, None)
            }
        },
        None => (cst, None),
    };
    let parts = split_on(base, '.');
    if parts.len() < 4 {
        None
    } else {
        match (parse_i32_spec(parts[1]), parse_i32_spec(parts[3])) {
            (Some(_), Some(sutta)) => match components_from_groups(
                regex_captures_spec(sc_code_pattern(), prev),
            ) {
                Some(c) => with_components_spec(sutta, c, range_end),
                None => match range_components_spec(prev) {
                    Some(c) => with_components_spec(sutta, c, range_end),
                    None => None,
                },
            },
            _ => None,
        }
    }
}

fn take_chars(v: &Vec<char>, b: usize) -> (r: Vec<char>)
    requires
        b <= v@.len(),
    ensures
        r@ == v@.take(b as int),
{
    let mut w: Vec<char> = Vec::new();
    let mut i: usize = 0;
    while i < b
        invariant
            i <= b <= v@.len(),
            w@ == v@.take(i as int),
        decreases b - i,
    {
        w.push(v[i]);
        assert(v@.take(i + 1) =~= v@.take(i as int).push(v@[i as int]));
        i = i + 1;
    }
    w
}

/// The SC code derived from a previous one (see `derive_from_previous_spec`).
pub fn derive_sc_code_from_previous(cst_code: &str, previous_sc_code: &str) -> (r: Option<String>)
    ensures
        opt_view(r) == derive_from_previous_spec(cst_code@, previous_sc_code@),
{
    let v = chars_vec(cst_code);
    let n = v.len();
    let (b, range_end) = match rfind_char(&v, '-') {
        Some(d) => {
            let a = after_last_start(&v, d, '.');
            if all_digits_range(&v, a, d) {
                (d, parse_i32_chars(v.as_slice(), d + 1, n))
            } else {
                assert(v@.take(n as int) =~= v@);
                (n, None)
            }
        },
        None => {
            assert(v@.take(n as int) =~= v@);
            (n, None)
        },
    };
    let base = take_chars(&v, b);
    let parts = split_ranges(&base, '.');
    if parts.len() < 4 {
        return None;
    }
    proof {
        assert(split_on(base@, '.')[1] == base@.subrange(parts@[1].0 as int, parts@[1].1 as int));
        assert(split_on(base@, '.')[3] == base@.subrange(parts@[3].0 as int, parts@[3].1 as int));
    }
    let samyutta = parse_i32_chars(base.as_slice(), parts[1].0, parts[1].1);
    let sutta = parse_i32_chars(base.as_slice(), parts[3].0, parts[3].1);
    let sutta = match (samyutta, sutta) {
        (Some(_), Some(s)) => s,
        _ => return None,
    };
    match parse_sc_code(previous_sc_code) {
        Some(c) => derive_sc_code_with_components(sutta, &c, range_end),
        None => match parse_range_sc_code(previous_sc_code) {
            Some(c) => derive_sc_code_with_components(sutta, &c, range_end),
            None => None,
        },
    }
}


/// A CST range applied to an SC code: the SC code's last number starts a range
/// as long as the CST range ("sn3.2.3.1-11" with "sn23.23" gives
/// "sn23.23-33"). A start that does not parse counts as 1; the code is kept
/// when the CST code has no range end, no dot before it, or no positive range.
pub open spec fn convert_to_range_spec(sc: Seq<char>, cst: Seq<char>) -> Seq<char> {
    match last_index_of(cst, '-') {
        Some(d) => match parse_i32_spec(cst.subrange(d + 1, cst.len() as int)) {
            Some(end) => {
                let base_sc = split_on(sc, '-')[0];
                let start_str = cst.take(d);
                match last_index_of(start_str, '.') {
                    Some(sp) => {
                        let start: int = match parse_i32_spec(
                            start_str.subrange(sp + 1, start_str.len() as int),
                        ) {
                            Some(x) => x as int,
                            None => 1,
                        };
                        let range_size = end - start;
                        if range_size > 0 {
                            match last_index_of(base_sc, '.') {
                                Some(dp) => {
                                    let start_num: int = match parse_i32_spec(
                                        base_sc.subrange(dp + 1, base_sc.len() as int),
                                    ) {
                                        Some(x) => x as int,
                                        None => 1,
                                    };
                                    base_sc.take(dp + 1) + dec(start_num) + "-"@ + dec(
                                        start_num + range_size,
                                    )
                                },
                                None => sc,
                            }
                        } else {
                            sc
                        }
                    },
                    None => sc,
                }
            },
            None => sc,
        },
        None => sc,
    }
}

/// Applies the range of a CST code to an SC code (see `convert_to_range_spec`).
pub fn convert_sc_code_to_range(sc_code: &str, cst_code: &str) -> (r: String)
    ensures
        r@ == convert_to_range_spec(sc_code@, cst_code@),
{
    let c = chars_vec(cst_code);
    let n = c.len();
    let d = match rfind_char(&c, '-') {
        Some(d) => d,
        None => return sc_code.to_string(),
    };
    assert(d < n);
    let end = match parse_i32_chars(c.as_slice(), d + 1, n) {
        Some(e) => e,
        None => return sc_code.to_string(),
    };
    let sv = chars_vec(sc_code);
    let sparts = split_ranges(&sv, '-');
    proof {
        assert(split_on(sv@, '-').len() >= 1) by {
            lemma_split_nonempty(sv@, '-');
        }
        assert(split_on(sv@, '-')[0] == sv@.subrange(sparts@[0].0 as int, sparts@[0].1 as int));
    }
    let base_sc = take_range(&sv, sparts[0].0, sparts[0].1);
    let start_chars = take_chars(&c, d);
    let sp = match rfind_char(&start_chars, '.') {
        Some(k) => k,
        None => return sc_code.to_string(),
    };
    let start: i64 = match parse_i32_chars(start_chars.as_slice(), sp + 1, d) {
        Some(x) => x as i64,
        None => 1,
    };
    let range_size: i64 = end as i64 - start;
    if range_size <= 0 {
        return sc_code.to_string();
    }
    let dp = match rfind_char(&base_sc, '.') {
        Some(k) => k,
        None => return sc_code.to_string(),
    };
    let bn = base_sc.len();
    let start_num: i64 = match parse_i32_chars(base_sc.as_slice(), dp + 1, bn) {
        Some(x) => x as i64,
        None => 1,
    };
    let mut out = string_of(&base_sc, 0, dp + 1);
    assert(base_sc@.subrange(0, dp + 1) =~= base_sc@.take(dp + 1));
    push_int(&mut out, start_num);
    out.append("-");
    push_int(&mut out, start_num + range_size);
    out
}

pub proof fn lemma_split_nonempty(s: Seq<char>, c: char)
    ensures
        split_on(s, c).len() >= 1,
    decreases s.len(),
{
    lemma_first_index_of_bounds(s, c);
    if let Some(k) = first_index_of(s, c) {
        lemma_split_nonempty(s.subrange(k + 1, s.len() as int), c);
    }
}

pub(crate) fn take_range(v: &Vec<char>, a: usize, b: usize) -> (r: Vec<char>)
    requires
        a <= b <= v@.len(),
    ensures
        r@ == v@.subrange(a as int, b as int),
{
    let mut w: Vec<char> = Vec::new();
    let mut i = a;
    while i < b
        invariant
            a <= i <= b <= v@.len(),
            w@ == v@.subrange(a as int, i as int),
        decreases b - i,
    {
        w.push(v[i]);
        assert(v@.subrange(a as int, i + 1) =~= v@.subrange(a as int, i as int).push(v@[i as int]));
        i = i + 1;
    }
    w
}

/// The mapping of a CST range code ("sn1.1.7.2-3"): the SC codes of the start
/// and end codes (numbers re-formatted) are joined into a range ("sn1.62-63")
/// with the start's title; the start's SC code alone when either SC code has
/// no dot.
pub open spec fn lookup_range_spec(cst: Seq<char>, map: StringMap<(String, String)>) -> Option<
    (Seq<char>, Seq<char>),
> {
    match last_index_of(cst, '.') {
        None => None,
        Some(k) => {
            let prefix = cst.take(k);
            let rp = split_on(cst.subrange(k + 1, cst.len() as int), '-');
            if rp.len() != 2 {
                None
            } else {
                match (parse_u32_spec(rp[0]), parse_u32_spec(rp[1])) {
                    (Some(sn), Some(en)) => {
                        let start_cst = prefix + "."@ + nat_decimal(sn as nat);
                        let end_cst = prefix + "."@ + nat_decimal(en as nat);
                        match (map.spec_get(start_cst), map.spec_get(end_cst)) {
                            (Some(s), Some(e)) => {
                                let ssc = s.0@;
                                let esc = e.0@;
                                match (last_index_of(ssc, '.'), last_index_of(esc, '.')) {
                                    (Some(a), Some(b)) => match (
                                        parse_u32_spec(ssc.subrange(a + 1, ssc.len() as int)),
                                        parse_u32_spec(esc.subrange(b + 1, esc.len() as int)),
                                    ) {
                                        (Some(x), Some(y)) => Some(
                                            (
                                                ssc.take(a) + "."@ + nat_decimal(x as nat) + "-"@
                                                    + nat_decimal(y as nat),
                                                s.1@,
                                            ),
                                        ),
                                        _ => None,
                                    },
                                    _ => Some((ssc, s.1@)),
                                }
                            },
                            _ => None,
                        }
                    },
                    _ => None,
                }
            }
        },
    }
}

/// The view of an optional pair of strings.
pub open spec fn pair_view(o: Option<(String, String)>) -> Option<(Seq<char>, Seq<char>)> {
    match o {
        Some(p) => Some((p.0@, p.1@)),
        None => None,
    }
}

/// Looks up a CST range code (see `lookup_range_spec`).
pub fn lookup_range_cst_code(cst_code: &str, tsv_map: &StringMap<(String, String)>) -> (r: Option<
    (String, String),
>)
    ensures
        pair_view(r) == lookup_range_spec(cst_code@, *tsv_map),
{
    let v = chars_vec(cst_code);
    let n = v.len();
    let k = match rfind_char(&v, '.') {
        Some(k) => k,
        None => return None,
    };
    let last = take_range(&v, k + 1, n);
    let rp = split_ranges(&last, '-');
    if rp.len() != 2 {
        return None;
    }
    proof {
        assert(split_on(last@, '-')[0] == last@.subrange(rp@[0].0 as int, rp@[0].1 as int));
        assert(split_on(last@, '-')[1] == last@.subrange(rp@[1].0 as int, rp@[1].1 as int));
    }
    let sn = match parse_u32_chars(last.as_slice(), rp[0].0, rp[0].1) {
        Some(x) => x,
        None => return None,
    };
    let en = match parse_u32_chars(last.as_slice(), rp[1].0, rp[1].1) {
        Some(x) => x,
        None => return None,
    };
    let mut start_cst = string_of(&v, 0, k);
    assert(v@.subrange(0, k as int) =~= v@.take(k as int));
    let mut end_cst = string_of(&v, 0, k);
    start_cst.append(".");
    push_nat_decimal(&mut start_cst, sn as u64);
    end_cst.append(".");
    push_nat_decimal(&mut end_cst, en as u64);
    let (ssc, title) = match tsv_map.get(start_cst.as_str()) {
        Some(p) => (&p.0, &p.1),
        None => return None,
    };
    let esc = match tsv_map.get(end_cst.as_str()) {
        Some(p) => &p.0,
        None => return None,
    };
    let sv = chars_vec(ssc.as_str());
    let ev = chars_vec(esc.as_str());
    match (rfind_char(&sv, '.'), rfind_char(&ev, '.')) {
        (Some(a), Some(b)) => {
            let sl = sv.len();
            let el = ev.len();
            let x = match parse_u32_chars(sv.as_slice(), a + 1, sl) {
                Some(x) => x,
                None => return None,
            };
            let y = match parse_u32_chars(ev.as_slice(), b + 1, el) {
                Some(y) => y,
                None => return None,
            };
            let mut code = string_of(&sv, 0, a);
            assert(sv@.subrange(0, a as int) =~= sv@.take(a as int));
            code.append(".");
            push_nat_decimal(&mut code, x as u64);
            code.append("-");
            push_nat_decimal(&mut code, y as u64);
            Some((code, title.clone()))
        },
        _ => Some((ssc.clone(), title.clone())),
    }
}

/// Index of the first key that starts with `prefix`.
pub open spec fn first_key_with_prefix(keys: Seq<Seq<char>>, prefix: Seq<char>) -> Option<int>
    decreases keys.len(),
{
    if keys.len() == 0 {
        None
    } else if starts_with(keys[0], prefix) {
        Some(0)
    } else {
        match first_key_with_prefix(keys.drop_first(), prefix) {
            Some(i) => Some(i + 1),
            None => None,
        }
    }
}

/// The title entry of the first key that starts with `prefix`.
pub open spec fn prefixed_entry(titles: StringMap<String>, prefix: Seq<char>) -> Option<
    (Seq<char>, Seq<char>),
> {
    match first_key_with_prefix(titles.spec_keys(), prefix) {
        Some(i) => match titles.spec_get(titles.spec_keys()[i]) {
            Some(t) => Some((titles.spec_keys()[i], t@)),
            None => None,
        },
        None => None,
    }
}

/// The SC code and title found for a derived SC code: an exact match, else
/// the first key that extends it with a range, else its non-range base
/// exactly or extended with a range.
pub open spec fn find_in_titles_spec(derived: Seq<char>, titles: StringMap<String>) -> Option<
    (Seq<char>, Seq<char>),
> {
    match titles.spec_get(derived) {
        Some(t) => Some((derived, t@)),
        None => match prefixed_entry(titles, derived + "-"@) {
            Some(e) => Some(e),
            None => match non_range_base(derived) {
                Some(base) => match titles.spec_get(base) {
                    Some(t) => Some((base, t@)),
                    None => prefixed_entry(titles, base + "-"@),
                },
                None => None,
            },
        },
    }
}

fn find_prefixed(titles: &StringMap<String>, prefix: &str) -> (r: Option<(String, String)>)
    ensures
        pair_view(r) == prefixed_entry(*titles, prefix@),
{
    let n = titles.len();
    let mut i: usize = 0;
    let ghost keys = titles.spec_keys();
    assert(keys.subrange(0, n as int) =~= keys);
    while i < n
        invariant
            n == keys.len(),
            keys == titles.spec_keys(),
            i <= n,
            first_key_with_prefix(keys, prefix@) == match first_key_with_prefix(
                keys.subrange(i as int, n as int),
                prefix@,
            ) {
                Some(j) => Some(j + i),
                None => None,
            },
        decreases n - i,
    {
        let ghost rest = keys.subrange(i as int, n as int);
        assert(rest.drop_first() =~= keys.subrange(i + 1, n as int));
        assert(rest[0] == keys[i as int]);
        let k = titles.key_at(i);
        if crate::text::str_starts_with(k.as_str(), prefix) {
            return match titles.get(k.as_str()) {
                Some(t) => Some((k.clone(), t.clone())),
                None => None,
            };
        }
        i = i + 1;
    }
    None
}

/// Finds a derived SC code in the titles (see `find_in_titles_spec`).
pub fn find_sc_code_in_pali_titles(derived_sc: &str, titles_cache: &StringMap<String>) -> (r: Option<
    (String, String),
>)
    ensures
        pair_view(r) == find_in_titles_spec(derived_sc@, *titles_cache),
{
    if let Some(t) = titles_cache.get(derived_sc) {
        return Some((derived_sc.to_string(), t.clone()));
    }
    let mut p = derived_sc.to_string();
    p.append("-");
    if let Some(e) = find_prefixed(titles_cache, p.as_str()) {
        return Some(e);
    }
    match extract_non_range_base(derived_sc) {
        Some(base) => {
            if let Some(t) = titles_cache.get(base.as_str()) {
                return Some((base.clone(), t.clone()));
            }
            let mut bp = base.clone();
            bp.append("-");
            find_prefixed(titles_cache, bp.as_str())
        },
        None => None,
    }
}

/// The decimal digits of a number that is not negative: digits, neither a
/// dash nor a dot, read back as the number.
proof fn lemma_dec_digits(n: int)
    requires
        0 <= n <= i32::MAX,
    ensures
        dec(n).len() > 0,
        all_digits(dec(n)),
        forall|i: int| 0 <= i < dec(n).len() ==> #[trigger] dec(n)[i] != '-' && dec(n)[i] != '.',
        parse_i32_spec(dec(n)) == Some(n as i32),
{
    lemma_nat_decimal_digits(n as nat);
    assert(dec(n) == nat_decimal(n as nat));
    assert forall|i: int| 0 <= i < dec(n).len() implies #[trigger] dec(n)[i] != '-' && dec(n)[i]
        != '.' by {
        assert(is_digit(dec(n)[i]));
    }
    assert(is_digit(dec(n)[0]));
    assert(parse_int_spec(dec(n)) == Some(n));
}

/// The last `c` of a text is at `k` when `c` is there and not after it.
proof fn lemma_last_index_is(s: Seq<char>, c: char, k: int)
    requires
        0 <= k < s.len(),
        s[k] == c,
        forall|j: int| k < j < s.len() ==> s[j] != c,
    ensures
        last_index_of(s, c) == Some(k),
{
    lemma_last_index_of(s, c);
}

/// A text without `c` is one part when split on it.
proof fn lemma_split_without(s: Seq<char>, c: char)
    requires
        forall|j: int| 0 <= j < s.len() ==> s[j] != c,
    ensures
        split_on(s, c) == seq![s],
{
    lemma_first_index_of(s, c, s.len() as int);
}

/// A CST range gives an SC range of the same length: for a CST code
/// `{h}.{s}-{e}` with `s < e` and an SC code `{p}.{n}` without a dash, the
/// converted code is `{p}.{n}-{n + e - s}`.
pub proof fn law_range_keeps_length(p: Seq<char>, n: i32, h: Seq<char>, s: i32, e: i32)
    requires
        0 <= n,
        0 <= s < e,
        forall|j: int| 0 <= j < p.len() ==> p[j] != '-',
    ensures
        convert_to_range_spec(
            p + "."@ + dec(n as int),
            h + "."@ + dec(s as int) + "-"@ + dec(e as int),
        ) == p + "."@ + dec(n as int) + "-"@ + dec(n + e - s),
{
    reveal_strlit(".");
    reveal_strlit("-");
    lemma_dec_digits(n as int);
    lemma_dec_digits(s as int);
    lemma_dec_digits(e as int);
    let dn = dec(n as int);
    let ds = dec(s as int);
    let de = dec(e as int);
    let sc = p + "."@ + dn;
    let head = h + "."@ + ds;
    let cst = head + "-"@ + de;
    // the dash before the end
    let d = head.len() as int;
    assert(cst[d] == '-');
    assert forall|j: int| d < j < cst.len() implies cst[j] != '-' by {
        assert(cst[j] == de[j - d - 1]);
    }
    lemma_last_index_is(cst, '-', d);
    assert(cst.subrange(d + 1, cst.len() as int) =~= de);
    // the SC code has no dash
    assert forall|j: int| 0 <= j < sc.len() implies sc[j] != '-' by {
        if j < p.len() {
            assert(sc[j] == p[j]);
        } else if j > p.len() {
            assert(sc[j] == dn[j - p.len() - 1]);
        }
    }
    lemma_split_without(sc, '-');
    assert(split_on(sc, '-')[0] == sc);
    // the dot before the start
    assert(cst.take(d) =~= head);
    let sp = h.len() as int;
    assert(head[sp] == '.');
    assert forall|j: int| sp < j < head.len() implies head[j] != '.' by {
        assert(head[j] == ds[j - sp - 1]);
    }
    lemma_last_index_is(head, '.', sp);
    assert(head.subrange(sp + 1, head.len() as int) =~= ds);
    // the dot before the SC number
    let dp = p.len() as int;
    assert(sc[dp] == '.');
    assert forall|j: int| dp < j < sc.len() implies sc[j] != '.' by {
        assert(sc[j] == dn[j - dp - 1]);
    }
    lemma_last_index_is(sc, '.', dp);
    assert(sc.subrange(dp + 1, sc.len() as int) =~= dn);
    assert(sc.take(dp + 1) =~= p + "."@);
    assert(convert_to_range_spec(sc, cst) == sc.take(dp + 1) + dn + "-"@ + dec(n + (e - s)));
    assert(sc.take(dp + 1) + dn =~= sc);
}

/// A CST range code keeps its end when an `sn` or `an` code is derived from
/// a previous one: for `{h}.{s}-{e}`, a derived code that starts with "sn"
/// or "an" ends with `-{e}`.
pub proof fn law_derived_code_keeps_range_end(h: Seq<char>, s: i32, e: i32, prev: Seq<char>)
    requires
        0 <= s,
        0 <= e,
    ensures
        match derive_from_previous_spec(h + "."@ + dec(s as int) + "-"@ + dec(e as int), prev) {
            Some(r) => sn_or_an(r) ==> ends_with_range_end(r, e),
            None => true,
        },
{
    reveal_strlit(".");
    reveal_strlit("-");
    lemma_dec_digits(s as int);
    lemma_dec_digits(e as int);
    let ds = dec(s as int);
    let de = dec(e as int);
    let head = h + "."@ + ds;
    let cst = head + "-"@ + de;
    let d = head.len() as int;
    assert(cst[d] == '-');
    assert forall|j: int| d < j < cst.len() implies cst[j] != '-' by {
        assert(cst[j] == de[j - d - 1]);
    }
    lemma_last_index_is(cst, '-', d);
    assert(cst.subrange(d + 1, cst.len() as int) =~= de);
    assert(cst.take(d) =~= head);
    let sp = h.len() as int;
    assert(head[sp] == '.');
    assert forall|j: int| sp < j < head.len() implies head[j] != '.' by {
        assert(head[j] == ds[j - sp - 1]);
    }
    lemma_last_index_is(head, '.', sp);
    lemma_after_last_is_suffix(head, '.');
    assert(after_last(head, '.') =~= ds);
    // the derivation uses the range end `e`
    assert forall|sutta: i32, c: (Seq<char>, Option<i32>, Option<i32>, Option<i32>)|
        match #[trigger] with_components_spec(sutta, c, Some(e)) {
            Some(r) => sn_or_an(r) ==> ends_with_range_end(r, e),
            None => true,
        } by {
        lemma_with_components_range_end(sutta, c, e);
    }
}

/// A code that starts with "sn" or "an".
pub open spec fn sn_or_an(r: Seq<char>) -> bool {
    r.len() >= 2 && (r.take(2) == "sn"@ || r.take(2) == "an"@)
}

/// A code that ends with `-{e}`.
pub open spec fn ends_with_range_end(r: Seq<char>, e: i32) -> bool {
    exists|x: Seq<char>| r == x + "-"@ + dec(e as int)
}

/// In `sn` and `an`, a code derived with a range end ends with it.
proof fn lemma_with_components_range_end(
    sutta: i32,
    c: (Seq<char>, Option<i32>, Option<i32>, Option<i32>),
    e: i32,
)
    ensures
        match with_components_spec(sutta, c, Some(e)) {
            Some(r) => sn_or_an(r) ==> ends_with_range_end(r, e),
            None => true,
        },
{
    reveal_strlit("sn");
    reveal_strlit("an");
    reveal_strlit("dn");
    reveal_strlit("mn");
    reveal_strlit("-");
    let (prefix, samyutta, nipata, ps) = c;
    if let Some(r) = with_components_spec(sutta, c, Some(e)) {
        if prefix == "sn"@ || prefix == "an"@ {
            let x = r.take(r.len() - 1 - dec(e as int).len());
            assert(r == x + "-"@ + dec(e as int)) by {
                let group = if prefix == "sn"@ {
                    samyutta
                } else {
                    nipata
                };
                let g = group->0;
                let p = ps->0;
                let y = if sutta == 1 && (p > 1 || p > 0) {
                    prefix + dec(g + 1) + "."@ + dec(sutta as int)
                } else if sutta == p + 1 {
                    prefix + dec(g as int) + "."@ + dec(sutta as int)
                } else {
                    prefix + dec(g + 1) + "."@ + dec(1)
                };
                assert(r == y + ("-"@ + dec(e as int)));
                assert(x =~= y);
                assert(r =~= x + "-"@ + dec(e as int));
            }
        } else {
            assert(prefix == "dn"@ || prefix == "mn"@);
            assert(r.take(2) =~= prefix);
        }
    }
}

} // verus!
