//! Editing stored fragments: moving a fragment's content into a neighbour,
//! checking that boundaries form a chain, recomputing boundaries from the
//! contents, and checking that no content was lost or duplicated.

use vstd::prelude::*;
use vstd::string::*;
use vstd::utf8::*;
use crate::sc::first_index_of;
use crate::text::{
    all_digits, chars_vec, digits_upto, digits_value, is_digit, lemma_digits_value_push, nat_decimal,
    opt_view, push_nat_decimal, str_eq,
};
use crate::tsv::strings_view;

verus! {

/// Which neighbour a fragment's content goes to.
#[derive(Debug, Clone, Copy, PartialEq, Eq, Structural)]
pub enum Direction {
    Prev,
    Next,
}

/// A stored fragment, as the editing operations read it.
#[derive(Debug, Clone)]
pub struct StoredFragment {
    pub frag_idx_code: String,
    pub frag_review: Option<String>,
    pub content_xml: String,
    pub start_line: i32,
    pub start_char: i32,
    pub end_line: i32,
    pub end_char: i32,
}

/// The major and minor index of a fragment code `major.minor`: two
/// non-empty runs of decimal digits around the first `.`, each at most
/// `u32::MAX` (e.g. `21.0` is a fragment of the parse, `21.1` a fragment
/// inserted after it).
pub open spec fn code_indices(code: Seq<char>) -> Option<(u32, u32)> {
    match first_index_of(code, '.') {
        Some(i) => {
            let major = code.take(i);
            let minor = code.skip(i + 1);
            if major.len() > 0 && all_digits(major) && minor.len() > 0 && all_digits(minor)
                && digits_value(major) <= u32::MAX && digits_value(minor) <= u32::MAX {
                Some((digits_value(major) as u32, digits_value(minor) as u32))
            } else {
                None
            }
        },
        None => None,
    }
}

/// The code of a fragment: its major and minor index joined by a dot.
pub open spec fn frag_code(major: nat, minor: nat) -> Seq<char> {
    nat_decimal(major) + seq!['.'] + nat_decimal(minor)
}

proof fn lemma_first_index_of(s: Seq<char>, c: char, i: int)
    requires
        0 <= i <= s.len(),
        forall|j: int| 0 <= j < i ==> s[j] != c,
        i < s.len() ==> s[i] == c,
    ensures
        first_index_of(s, c) == if i < s.len() {
            Some(i)
        } else {
            None::<int>
        },
    decreases i,
{
    if s.len() > 0 && i > 0 {
        lemma_first_index_of(s.drop_first(), c, i - 1);
    }
}

/// The decimal digits of a number are digits that read back as the number.
pub(crate) proof fn lemma_nat_decimal_digits(n: nat)
    ensures
        nat_decimal(n).len() > 0,
        all_digits(nat_decimal(n)),
        digits_value(nat_decimal(n)) == n,
    decreases n,
{
    if n < 10 {
        let c = ((n + 48) as u32) as char;
        assert(c as u32 == n + 48);
        assert(nat_decimal(n) =~= seq![c]);
        assert(Seq::<char>::empty().push(c) =~= seq![c]);
        lemma_digits_value_push(Seq::<char>::empty(), c);
    } else {
        lemma_nat_decimal_digits(n / 10);
        let c = (((n % 10) + 48) as u32) as char;
        assert(c as u32 == (n % 10) + 48);
        let d = nat_decimal(n / 10);
        assert(nat_decimal(n) == d.push(c));
        lemma_digits_value_push(d, c);
        assert((n / 10) * 10 + n % 10 == n);
        assert forall|i: int| 0 <= i < d.push(c).len() implies is_digit(#[trigger] d.push(c)[i]) by {
            if i < d.len() {
                assert(d.push(c)[i] == d[i]);
            }
        }
    }
}

/// The code written for two indices reads back as them.
pub proof fn law_frag_code_round_trip(major: u32, minor: u32)
    ensures
        code_indices(frag_code(major as nat, minor as nat)) == Some((major, minor)),
{
    let a = nat_decimal(major as nat);
    let b = nat_decimal(minor as nat);
    let code = frag_code(major as nat, minor as nat);
    lemma_nat_decimal_digits(major as nat);
    lemma_nat_decimal_digits(minor as nat);
    assert(code =~= a + seq!['.'] + b);
    assert forall|j: int| 0 <= j < a.len() implies code[j] != '.' by {
        assert(code[j] == a[j]);
        assert(is_digit(a[j]));
    }
    assert(code[a.len() as int] == '.');
    lemma_first_index_of(code, '.', a.len() as int);
    assert(code.take(a.len() as int) =~= a);
    assert(code.skip(a.len() as int + 1) =~= b);
}

/// The major and minor index of a fragment code (see `code_indices`).
pub fn parse_frag_idx_code(code: &str) -> (r: Option<(u32, u32)>)
    ensures
        r == code_indices(code@),
{
    let v = chars_vec(code);
    let n = v.len();
    let mut i: usize = 0;
    while i < n && v[i] != '.'
        invariant
            i <= n == v@.len(),
            v@ == code@,
            forall|j: int| 0 <= j < i ==> v@[j] != '.',
        decreases n - i,
    {
        i = i + 1;
    }
    proof {
        lemma_first_index_of(code@, '.', i as int);
    }
    if i == n || i == 0 || i + 1 == n {
        return None;
    }
    assert(code@.take(i as int) =~= v@.subrange(0, i as int));
    assert(code@.skip(i + 1) =~= v@.subrange(i + 1, n as int));
    let major = match digits_upto(v.as_slice(), 0, i, 0xFFFF_FFFF) {
        Some(x) => x,
        None => return None,
    };
    let minor = match digits_upto(v.as_slice(), i + 1, n, 0xFFFF_FFFF) {
        Some(x) => x,
        None => return None,
    };
    Some((major as u32, minor as u32))
}

/// The code with the given indices.
pub fn frag_code_string(major: u64, minor: u64) -> (r: String)
    ensures
        r@ == frag_code(major as nat, minor as nat),
{
    let mut s = String::new();
    push_nat_decimal(&mut s, major);
    proof {
        reveal_strlit(".");
    }
    s.append(".");
    push_nat_decimal(&mut s, minor);
    assert(s@ =~= frag_code(major as nat, minor as nat));
    s
}

/// The code that follows a code's major index: `major + 1` with minor index 0.
pub fn increment_frag_idx_code(s: &str) -> (r: Option<String>)
    ensures
        opt_view(r) == match code_indices(s@) {
            Some((major, _)) => Some(frag_code((major + 1) as nat, 0)),
            None => None,
        },
{
    match parse_frag_idx_code(s) {
        Some((major, _)) => Some(frag_code_string(major as u64 + 1, 0)),
        None => None,
    }
}

/// The highest minor index among the codes with the given major index (0 when there is none).
pub open spec fn max_minor(codes: Seq<Seq<char>>, major: u32) -> nat
    decreases codes.len(),
{
    if codes.len() == 0 {
        0
    } else {
        let rest = max_minor(codes.drop_last(), major);
        match code_indices(codes.last()) {
            Some((a, b)) => if a == major && b > rest {
                b as nat
            } else {
                rest
            },
            None => rest,
        }
    }
}

proof fn lemma_max_minor_bound(codes: Seq<Seq<char>>, major: u32, i: int)
    requires
        0 <= i < codes.len(),
    ensures
        code_indices(codes[i]) matches Some((a, b)) ==> (a == major ==> b <= max_minor(codes, major)),
    decreases codes.len(),
{
    if i < codes.len() - 1 {
        lemma_max_minor_bound(codes.drop_last(), major, i);
        assert(codes.drop_last()[i] == codes[i]);
    }
}

/// The code that `next_sub_index` gives is not one of the codes it was given
/// (while the minor indices in use stay below `u32::MAX`).
pub proof fn law_inserted_code_is_new(codes: Seq<Seq<char>>, major: u32)
    requires
        max_minor(codes, major) < u32::MAX,
    ensures
        !codes.contains(frag_code(major as nat, max_minor(codes, major) + 1)),
{
    let m = max_minor(codes, major);
    let code = frag_code(major as nat, m + 1);
    law_frag_code_round_trip(major, (m + 1) as u32);
    if codes.contains(code) {
        let i = choose|i: int| 0 <= i < codes.len() && codes[i] == code;
        lemma_max_minor_bound(codes, major, i);
    }
}

/// The code of a fragment inserted after the fragments with the major index:
/// the major index and one more than the highest minor index in use with it.
pub fn next_sub_index(existing_codes: &Vec<String>, major: u32) -> (r: String)
    ensures
        r@ == frag_code(major as nat, max_minor(strings_view(existing_codes@), major) + 1),
{
    let mut best: u32 = 0;
    let mut i: usize = 0;
    while i < existing_codes.len()
        invariant
            i <= existing_codes@.len(),
            best == max_minor(strings_view(existing_codes@.take(i as int)), major),
        decreases existing_codes@.len() - i,
    {
        assert(strings_view(existing_codes@.take(i + 1)).drop_last() =~= strings_view(
            existing_codes@.take(i as int),
        ));
        assert(strings_view(existing_codes@.take(i + 1)).last() == existing_codes@[i as int]@);
        match parse_frag_idx_code(existing_codes[i].as_str()) {
            Some((a, b)) => {
                if a == major && b > best {
                    best = b;
                }
            },
            None => {},
        }
        i = i + 1;
    }
    assert(existing_codes@.take(i as int) =~= existing_codes@);
    frag_code_string(major as u64, best as u64 + 1)
}

/// A fragment whose content was moved away.
pub open spec fn moved(f: StoredFragment) -> bool {
    f.frag_review matches Some(s) && s@ == "moved"@
}

fn is_moved(f: &StoredFragment) -> (r: bool)
    ensures
        r == moved(*f),
{
    match &f.frag_review {
        Some(s) => str_eq(s.as_str(), "moved"),
        None => false,
    }
}

/// The first position of the fragment with the code.
pub open spec fn position_of(frags: Seq<StoredFragment>, code: Seq<char>) -> Option<int>
    decreases frags.len(),
{
    if frags.len() == 0 {
        None
    } else {
        match position_of(frags.drop_last(), code) {
            Some(i) => Some(i),
            None => if frags.last().frag_idx_code@ == code {
                Some(frags.len() - 1)
            } else {
                None
            },
        }
    }
}

/// The last fragment before position `p` that was not moved.
pub open spec fn unmoved_before(frags: Seq<StoredFragment>, p: int) -> Option<int>
    decreases p,
{
    if p <= 0 {
        None
    } else if !moved(frags[p - 1]) {
        Some(p - 1)
    } else {
        unmoved_before(frags, p - 1)
    }
}

/// The first fragment after position `p` that was not moved.
pub open spec fn unmoved_after(frags: Seq<StoredFragment>, p: int) -> Option<int>
    decreases frags.len() - p,
{
    if p + 1 >= frags.len() {
        None
    } else if !moved(frags[p + 1]) {
        Some(p + 1)
    } else {
        unmoved_after(frags, p + 1)
    }
}

/// The neighbour in the direction that was not moved, of the fragment with the code.
pub open spec fn target_of(frags: Seq<StoredFragment>, code: Seq<char>, d: Direction) -> Option<int> {
    match position_of(frags, code) {
        Some(p) => match d {
            Direction::Prev => unmoved_before(frags, p),
            Direction::Next => unmoved_after(frags, p),
        },
        None => None,
    }
}

/// Finds the position of the fragment with the code.
pub fn find_position(fragments: &Vec<StoredFragment>, code: &str) -> (r: Option<usize>)
    ensures
        match r {
            Some(i) => position_of(fragments@, code@) == Some(i as int) && i < fragments@.len(),
            None => position_of(fragments@, code@) is None,
        },
{
    let mut i: usize = 0;
    while i < fragments.len()
        invariant
            i <= fragments@.len(),
            position_of(fragments@.take(i as int), code@) is None,
        decreases fragments@.len() - i,
    {
        assert(fragments@.take(i + 1).drop_last() =~= fragments@.take(i as int));
        if str_eq(fragments[i].frag_idx_code.as_str(), code) {
            proof {
                lemma_position_prefix(fragments@, i + 1, code@);
            }
            return Some(i);
        }
        i = i + 1;
    }
    assert(fragments@.take(i as int) =~= fragments@);
    None
}

proof fn lemma_position_prefix(frags: Seq<StoredFragment>, k: int, code: Seq<char>)
    requires
        0 <= k <= frags.len(),
        position_of(frags.take(k), code) is Some,
    ensures
        position_of(frags, code) == position_of(frags.take(k), code),
    decreases frags.len(),
{
    if k == frags.len() {
        assert(frags.take(k) =~= frags);
    } else {
        assert(frags.drop_last().take(k) =~= frags.take(k));
        lemma_position_prefix(frags.drop_last(), k, code);
    }
}

/// Finds the neighbour of a fragment in a direction, skipping moved
/// fragments (see `target_of`); the fragments are in their order.
pub fn find_target_fragment(fragments: &Vec<StoredFragment>, current_frag_idx_code: &str, direction: Direction) -> (r:
    Option<usize>)
    ensures
        match r {
            Some(i) => target_of(fragments@, current_frag_idx_code@, direction) == Some(i as int)
                && i < fragments@.len(),
            None => target_of(fragments@, current_frag_idx_code@, direction) is None,
        },
{
    let p = match find_position(fragments, current_frag_idx_code) {
        Some(p) => p,
        None => return None,
    };
    match direction {
        Direction::Prev => {
            let mut j = p;
            while j > 0
                invariant
                    j <= p < fragments@.len(),
                    position_of(fragments@, current_frag_idx_code@) == Some(p as int),
                    direction == Direction::Prev,
                    unmoved_before(fragments@, p as int) == unmoved_before(fragments@, j as int),
                decreases j,
            {
                if !is_moved(&fragments[j - 1]) {
                    return Some(j - 1);
                }
                j = j - 1;
            }
            None
        },
        Direction::Next => {
            let mut j = p;
            while j < fragments.len() - 1
                invariant
                    p <= j < fragments@.len(),
                    position_of(fragments@, current_frag_idx_code@) == Some(p as int),
                    direction == Direction::Next,
                    unmoved_after(fragments@, p as int) == unmoved_after(fragments@, j as int),
                decreases fragments@.len() - j,
            {
                if !is_moved(&fragments[j + 1]) {
                    return Some(j + 1);
                }
                j = j + 1;
            }
            None
        },
    }
}

/// The content and boundaries a neighbour gets when a fragment's content
/// moves into it: the contents joined by a newline in file order, from the
/// earlier start to the later end.
#[derive(Debug)]
pub struct MergedFragment {
    pub content_xml: String,
    pub start_line: i32,
    pub start_char: i32,
    pub end_line: i32,
    pub end_char: i32,
}

pub open spec fn merged_of(current: StoredFragment, target: StoredFragment, d: Direction) -> (Seq<char>, i32, i32, i32, i32) {
    match d {
        Direction::Prev => (
            target.content_xml@ + "\n"@ + current.content_xml@,
            target.start_line,
            target.start_char,
            current.end_line,
            current.end_char,
        ),
        Direction::Next => (
            current.content_xml@ + "\n"@ + target.content_xml@,
            current.start_line,
            current.start_char,
            target.end_line,
            target.end_char,
        ),
    }
}

/// Joins a fragment into its neighbour (see `merged_of`).
pub fn merge_into(current: &StoredFragment, target: &StoredFragment, direction: Direction) -> (r: MergedFragment)
    ensures
        (r.content_xml@, r.start_line, r.start_char, r.end_line, r.end_char) == merged_of(
            *current,
            *target,
            direction,
        ),
{
    let (first, second) = match direction {
        Direction::Prev => (target, current),
        Direction::Next => (current, target),
    };
    let mut content = first.content_xml.clone();
    content.append("\n");
    content.append(second.content_xml.as_str());
    MergedFragment {
        content_xml: content,
        start_line: first.start_line,
        start_char: first.start_char,
        end_line: second.end_line,
        end_char: second.end_char,
    }
}

/// The plan of a move: the positions of the fragment and of its neighbour,
/// and what the neighbour becomes. The fragment itself becomes empty, with
/// zero boundaries and no CST or SC data, and is marked "moved".
#[derive(Debug)]
pub struct MovePlan {
    pub current: usize,
    pub target: usize,
    pub merged: MergedFragment,
}

/// The message when a move has no neighbour to go to.
pub open spec fn no_target_message(d: Direction) -> Seq<char> {
    "Cannot move to "@ + match d {
        Direction::Prev => "previous"@,
        Direction::Next => "next"@,
    } + ": no valid target fragment found (boundary reached or all adjacent fragments are moved)"@
}

/// Plans moving the content of the fragment with the code into its neighbour
/// in the direction that was not moved.
pub fn plan_move(fragments: &Vec<StoredFragment>, frag_idx_code: &str, direction: Direction) -> (r:
    Result<MovePlan, String>)
    ensures
        match r {
            Ok(plan) => {
                &&& position_of(fragments@, frag_idx_code@) == Some(plan.current as int)
                &&& target_of(fragments@, frag_idx_code@, direction) == Some(plan.target as int)
                &&& plan.current < fragments@.len() && plan.target < fragments@.len()
                &&& (plan.merged.content_xml@, plan.merged.start_line, plan.merged.start_char,
                    plan.merged.end_line, plan.merged.end_char) == merged_of(
                    fragments@[plan.current as int],
                    fragments@[plan.target as int],
                    direction,
                )
            },
            Err(m) => match position_of(fragments@, frag_idx_code@) {
                None => m@ == "Failed to load current fragment"@,
                Some(_) => target_of(fragments@, frag_idx_code@, direction) is None && m@
                    == no_target_message(direction),
            },
        },
{
    let current = match find_position(fragments, frag_idx_code) {
        Some(p) => p,
        None => return Err(String::from_str("Failed to load current fragment")),
    };
    let target = match find_target_fragment(fragments, frag_idx_code, direction) {
        Some(t) => t,
        None => {
            let mut m = String::from_str("Cannot move to ");
            match direction {
                Direction::Prev => m.append("previous"),
                Direction::Next => m.append("next"),
            }
            m.append(": no valid target fragment found (boundary reached or all adjacent fragments are moved)");
            assert(m@ =~= no_target_message(direction));
            return Err(m);
        },
    };
    let merged = merge_into(&fragments[current], &fragments[target], direction);
    Ok(MovePlan { current, target, merged })
}

/// The codes of the fragments, in order.
pub open spec fn codes_of(frags: Seq<StoredFragment>) -> Seq<Seq<char>> {
    frags.map_values(|f: StoredFragment| f.frag_idx_code@)
}

fn frag_codes(fragments: &Vec<StoredFragment>) -> (r: Vec<String>)
    ensures
        strings_view(r@) == codes_of(fragments@),
{
    let mut out: Vec<String> = Vec::new();
    let mut i: usize = 0;
    while i < fragments.len()
        invariant
            i <= fragments@.len(),
            out@.len() == i,
            forall|k: int| 0 <= k < i ==> (#[trigger] out@[k])@ == fragments@[k].frag_idx_code@,
        decreases fragments@.len() - i,
    {
        let c = fragments[i].frag_idx_code.clone();
        out.push(c);
        i = i + 1;
    }
    assert(strings_view(out@) =~= codes_of(fragments@)) by {
        assert forall|k: int| 0 <= k < out@.len() implies strings_view(out@)[k] == codes_of(
            fragments@,
        )[k] by {
            assert(out@[k]@ == fragments@[k].frag_idx_code@);
        }
    }
    out
}

/// The message for a code that is not `major.minor`.
pub open spec fn invalid_code_message(code: Seq<char>) -> Seq<char> {
    "Invalid fragment index code: "@ + code
}

fn invalid_code(code: &str) -> (r: String)
    ensures
        r@ == invalid_code_message(code@),
{
    let mut m = String::from_str("Invalid fragment index code: ");
    m.append(code);
    m
}

/// A review status, or "checked" when there is none.
pub open spec fn review_or_checked(f: StoredFragment) -> Seq<char> {
    match f.frag_review {
        Some(s) => s@,
        None => "checked"@,
    }
}

/// Where a new empty fragment goes: its code, the fragment whose metadata it
/// copies, its zero-width boundary, and, when it goes after a fragment that
/// has a following neighbour, that neighbour and the review status it gets
/// (it then starts at the boundary).
#[derive(Debug)]
pub struct InsertPlan {
    pub frag_idx_code: String,
    pub source: usize,
    pub boundary_line: i32,
    pub boundary_char: i32,
    pub next_update: Option<(usize, String)>,
}

pub type InsertPlanView = (Seq<char>, int, i32, i32, Option<(int, Seq<char>)>);

pub open spec fn insert_plan_view(r: Result<InsertPlan, String>) -> Result<InsertPlanView, Seq<char>> {
    match r {
        Ok(p) => Ok(
            (
                p.frag_idx_code@,
                p.source as int,
                p.boundary_line,
                p.boundary_char,
                match p.next_update {
                    Some((q, s)) => Some((q as int, s@)),
                    None => None,
                },
            ),
        ),
        Err(m) => Err(m@),
    }
}

/// The code after the fragments with a major index: that index with the next
/// free minor index.
pub open spec fn sub_code(frags: Seq<StoredFragment>, major: u32) -> Seq<char> {
    frag_code(major as nat, max_minor(codes_of(frags), major) + 1)
}

/// Inserting an empty fragment next to the fragment with the code: before it
/// (`Prev`), the new fragment takes the next minor index after the previous
/// fragment that was not moved, copies that fragment's metadata and sits at
/// the start of the current one; with no such fragment it takes the next
/// minor index after the major index below the current one, which must not
/// be 0. After it (`Next`), it takes the next minor index after the current
/// fragment, copies its metadata and sits at its end; the following fragment
/// that was not moved then starts there and gets "checked" when it had no
/// review status. A moved fragment gets no neighbour.
pub open spec fn insert_plan_spec(frags: Seq<StoredFragment>, code: Seq<char>, d: Direction) -> Result<
    InsertPlanView,
    Seq<char>,
> {
    match position_of(frags, code) {
        None => Err("Failed to load current fragment"@),
        Some(p) => {
            let cur = frags[p];
            if moved(cur) {
                Err("Cannot insert adjacent to a moved fragment"@)
            } else {
                match d {
                    Direction::Prev => match target_of(frags, code, d) {
                        Some(q) => match code_indices(frags[q].frag_idx_code@) {
                            Some((m, _)) => Ok(
                                (sub_code(frags, m), q, cur.start_line, cur.start_char, None),
                            ),
                            None => Err(invalid_code_message(frags[q].frag_idx_code@)),
                        },
                        None => match code_indices(code) {
                            Some((m, _)) => if m > 0 {
                                Ok(
                                    (
                                        sub_code(frags, (m - 1) as u32),
                                        p,
                                        cur.start_line,
                                        cur.start_char,
                                        None,
                                    ),
                                )
                            } else {
                                Err("Cannot insert before the first fragment"@)
                            },
                            None => Err(invalid_code_message(code)),
                        },
                    },
                    Direction::Next => match code_indices(code) {
                        Some((m, _)) => Ok(
                            (
                                sub_code(frags, m),
                                p,
                                cur.end_line,
                                cur.end_char,
                                match target_of(frags, code, d) {
                                    Some(q) => Some((q, review_or_checked(frags[q]))),
                                    None => None,
                                },
                            ),
                        ),
                        None => Err(invalid_code_message(code)),
                    },
                }
            }
        },
    }
}

/// Plans inserting an empty fragment next to the fragment with the code (see
/// `insert_plan_spec`); the fragments are in their order.
pub fn plan_insert(fragments: &Vec<StoredFragment>, frag_idx_code: &str, direction: Direction) -> (r:
    Result<InsertPlan, String>)
    ensures
        insert_plan_view(r) == insert_plan_spec(fragments@, frag_idx_code@, direction),
{
    let p = match find_position(fragments, frag_idx_code) {
        Some(p) => p,
        None => return Err(String::from_str("Failed to load current fragment")),
    };
    let cur = &fragments[p];
    if is_moved(cur) {
        return Err(String::from_str("Cannot insert adjacent to a moved fragment"));
    }
    let neighbour = find_target_fragment(fragments, frag_idx_code, direction);
    let codes = frag_codes(fragments);
    match direction {
        Direction::Prev => match neighbour {
            Some(q) => match parse_frag_idx_code(fragments[q].frag_idx_code.as_str()) {
                Some((m, _)) => Ok(
                    InsertPlan {
                        frag_idx_code: next_sub_index(&codes, m),
                        source: q,
                        boundary_line: cur.start_line,
                        boundary_char: cur.start_char,
                        next_update: None,
                    },
                ),
                None => Err(invalid_code(fragments[q].frag_idx_code.as_str())),
            },
            None => match parse_frag_idx_code(frag_idx_code) {
                Some((m, _)) => {
                    if m > 0 {
                        Ok(
                            InsertPlan {
                                frag_idx_code: next_sub_index(&codes, m - 1),
                                source: p,
                                boundary_line: cur.start_line,
                                boundary_char: cur.start_char,
                                next_update: None,
                            },
                        )
                    } else {
                        Err(String::from_str("Cannot insert before the first fragment"))
                    }
                },
                None => Err(invalid_code(frag_idx_code)),
            },
        },
        Direction::Next => match parse_frag_idx_code(frag_idx_code) {
            Some((m, _)) => {
                let next_update = match neighbour {
                    Some(q) => {
                        let review = match &fragments[q].frag_review {
                            Some(s) => s.clone(),
                            None => String::from_str("checked"),
                        };
                        Some((q, review))
                    },
                    None => None,
                };
                Ok(
                    InsertPlan {
                        frag_idx_code: next_sub_index(&codes, m),
                        source: p,
                        boundary_line: cur.end_line,
                        boundary_char: cur.end_char,
                        next_update,
                    },
                )
            },
            None => Err(invalid_code(frag_idx_code)),
        },
    }
}

/// The message when a merge has no neighbour to go to.
pub open spec fn no_merge_target_message(d: Direction) -> Seq<char> {
    "Cannot merge to "@ + match d {
        Direction::Prev => "previous"@,
        Direction::Next => "next"@,
    } + ": no valid target fragment found"@
}

/// The message for a merge-delete of a fragment of the parse.
pub open spec fn primary_merge_message() -> Seq<char> {
    "Cannot merge-delete a primary fragment (minor index is 0). Only sub-fragments (e.g. 12.1, 12.2) can be merge-deleted."@
}

/// The view of a move or merge plan: the two positions and what the
/// neighbour becomes.
pub open spec fn move_plan_view(r: Result<MovePlan, String>) -> Result<
    (int, int, (Seq<char>, i32, i32, i32, i32)),
    Seq<char>,
> {
    match r {
        Ok(p) => Ok(
            (
                p.current as int,
                p.target as int,
                (p.merged.content_xml@, p.merged.start_line, p.merged.start_char, p.merged.end_line,
                p.merged.end_char),
            ),
        ),
        Err(m) => Err(m@),
    }
}

/// Deleting an inserted fragment (minor index above 0) by joining it into
/// its neighbour in the direction that was not moved (see `merged_of`).
pub open spec fn merge_delete_spec(frags: Seq<StoredFragment>, code: Seq<char>, d: Direction) -> Result<
    (int, int, (Seq<char>, i32, i32, i32, i32)),
    Seq<char>,
> {
    match code_indices(code) {
        None => Err(invalid_code_message(code)),
        Some((_, minor)) => if minor == 0 {
            Err(primary_merge_message())
        } else {
            match position_of(frags, code) {
                None => Err("Failed to load current fragment"@),
                Some(p) => match target_of(frags, code, d) {
                    None => Err(no_merge_target_message(d)),
                    Some(q) => Ok((p, q, merged_of(frags[p], frags[q], d))),
                },
            }
        },
    }
}

/// Plans deleting an inserted fragment by joining it into its neighbour (see
/// `merge_delete_spec`); the fragments are in their order.
pub fn plan_merge_delete(fragments: &Vec<StoredFragment>, frag_idx_code: &str, direction: Direction) -> (r:
    Result<MovePlan, String>)
    ensures
        move_plan_view(r) == merge_delete_spec(fragments@, frag_idx_code@, direction),
{
    match parse_frag_idx_code(frag_idx_code) {
        None => return Err(invalid_code(frag_idx_code)),
        Some((_, minor)) => {
            if minor == 0 {
                return Err(String::from_str(
                    "Cannot merge-delete a primary fragment (minor index is 0). Only sub-fragments (e.g. 12.1, 12.2) can be merge-deleted.",
                ));
            }
        },
    }
    let current = match find_position(fragments, frag_idx_code) {
        Some(p) => p,
        None => return Err(String::from_str("Failed to load current fragment")),
    };
    let target = match find_target_fragment(fragments, frag_idx_code, direction) {
        Some(t) => t,
        None => {
            let mut m = String::from_str("Cannot merge to ");
            match direction {
                Direction::Prev => m.append("previous"),
                Direction::Next => m.append("next"),
            }
            m.append(": no valid target fragment found");
            assert(m@ =~= no_merge_target_message(direction));
            return Err(m);
        },
    };
    let merged = merge_into(&fragments[current], &fragments[target], direction);
    Ok(MovePlan { current, target, merged })
}

/// A fragment whose start is not where the previous kept fragment ended.
#[derive(Debug, Clone)]
pub struct BoundaryDiscontinuity {
    pub frag_idx_code: String,
    pub expected_start_line: i32,
    pub expected_start_char: i32,
    pub actual_start_line: i32,
    pub actual_start_char: i32,
}

pub type DiscontinuityView = (Seq<char>, i32, i32, i32, i32);

pub open spec fn discontinuity_view(d: BoundaryDiscontinuity) -> DiscontinuityView {
    (d.frag_idx_code@, d.expected_start_line, d.expected_start_char, d.actual_start_line, d.actual_start_char)
}

/// The end of the last fragment that was not moved.
pub open spec fn last_kept_end(frags: Seq<StoredFragment>) -> Option<(i32, i32)>
    decreases frags.len(),
{
    if frags.len() == 0 {
        None
    } else if !moved(frags.last()) {
        Some((frags.last().end_line, frags.last().end_char))
    } else {
        last_kept_end(frags.drop_last())
    }
}

/// The breaks in the chain of boundaries: each fragment not moved whose
/// start differs from the end of the last earlier fragment not moved.
pub open spec fn discontinuities(frags: Seq<StoredFragment>) -> Seq<DiscontinuityView>
    decreases frags.len(),
{
    if frags.len() == 0 {
        Seq::empty()
    } else {
        let before = discontinuities(frags.drop_last());
        let f = frags.last();
        if moved(f) {
            before
        } else {
            match last_kept_end(frags.drop_last()) {
                Some(e) => if f.start_line != e.0 || f.start_char != e.1 {
                    before.push((f.frag_idx_code@, e.0, e.1, f.start_line, f.start_char))
                } else {
                    before
                },
                None => before,
            }
        }
    }
}

/// Checks that the boundaries of the fragments (in their order) form a
/// chain, moved fragments left out (see `discontinuities`).
pub fn validate_boundary_chain(fragments: &Vec<StoredFragment>) -> (r: Vec<BoundaryDiscontinuity>)
    ensures
        r@.map_values(|d: BoundaryDiscontinuity| discontinuity_view(d)) == discontinuities(fragments@),
{
    let mut out: Vec<BoundaryDiscontinuity> = Vec::new();
    let mut prev: Option<(i32, i32)> = None;
    let mut i: usize = 0;
    while i < fragments.len()
        invariant
            i <= fragments@.len(),
            prev == last_kept_end(fragments@.take(i as int)),
            out@.map_values(|d: BoundaryDiscontinuity| discontinuity_view(d)) == discontinuities(
                fragments@.take(i as int),
            ),
        decreases fragments@.len() - i,
    {
        let f = &fragments[i];
        assert(fragments@.take(i + 1).drop_last() =~= fragments@.take(i as int));
        assert(fragments@.take(i + 1).last() == *f);
        if !is_moved(f) {
            match prev {
                Some((line, ch)) => {
                    if f.start_line != line || f.start_char != ch {
                        let ghost before = out@;
                        out.push(
                            BoundaryDiscontinuity {
                                frag_idx_code: f.frag_idx_code.clone(),
                                expected_start_line: line,
                                expected_start_char: ch,
                                actual_start_line: f.start_line,
                                actual_start_char: f.start_char,
                            },
                        );
                        assert(out@.map_values(|d: BoundaryDiscontinuity| discontinuity_view(d))
                            =~= before.map_values(|d: BoundaryDiscontinuity| discontinuity_view(d)).push(
                            discontinuity_view(out@.last()),
                        ));
                    }
                },
                None => {},
            }
            prev = Some((f.end_line, f.end_char));
        }
        i = i + 1;
    }
    assert(fragments@.take(fragments@.len() as int) =~= fragments@);
    out
}

/// Where a text ends when it starts at `(line, col)`: each newline starts a
/// new line at column zero, any other character moves one column on.
pub open spec fn end_position(s: Seq<char>, line: int, col: int) -> (int, int)
    decreases s.len(),
{
    if s.len() == 0 {
        (line, col)
    } else if s[0] == '\n' {
        end_position(s.skip(1), line + 1, 0)
    } else {
        end_position(s.skip(1), line, col + 1)
    }
}

proof fn lemma_end_position_bounds(s: Seq<char>, line: int, col: int)
    ensures
        line <= end_position(s, line, col).0 <= line + s.len(),
        0 <= col ==> 0 <= end_position(s, line, col).1 <= col + s.len(),
    decreases s.len(),
{
    if s.len() > 0 {
        if s[0] == '\n' {
            lemma_end_position_bounds(s.skip(1), line + 1, 0);
        } else {
            lemma_end_position_bounds(s.skip(1), line, col + 1);
        }
    }
}

/// Where a fragment's content ends, from its start (see `end_position`).
pub fn calculate_end_position(content: &str, start_line: i32, start_char: i32) -> (r: (i32, i32))
    requires
        0 <= start_char,
        start_line + content@.len() <= i32::MAX,
        start_char + content@.len() <= i32::MAX,
    ensures
        (r.0 as int, r.1 as int) == end_position(content@, start_line as int, start_char as int),
{
    let v = chars_vec(content);
    let mut line = start_line;
    let mut col = start_char;
    let mut i: usize = 0;
    assert(v@.skip(0) =~= v@);
    while i < v.len()
        invariant
            i <= v@.len() == content@.len(),
            v@ == content@,
            0 <= col,
            start_line <= line <= start_line + i,
            col <= start_char + i,
            start_line + content@.len() <= i32::MAX,
            start_char + content@.len() <= i32::MAX,
            end_position(content@, start_line as int, start_char as int) == end_position(
                v@.skip(i as int),
                line as int,
                col as int,
            ),
        decreases v@.len() - i,
    {
        assert(v@.skip(i as int).skip(1) =~= v@.skip(i + 1));
        if v[i] == '\n' {
            line = line + 1;
            col = 0;
        } else {
            col = col + 1;
        }
        i = i + 1;
    }
    (line, col)
}

/// The number of characters of the contents of the fragments not moved.
pub open spec fn kept_chars(frags: Seq<StoredFragment>) -> int
    decreases frags.len(),
{
    if frags.len() == 0 {
        0
    } else {
        kept_chars(frags.drop_last()) + if moved(frags.last()) {
            0
        } else {
            frags.last().content_xml@.len() as int
        }
    }
}

/// The boundaries the fragments get when laid out one after the other from
/// line 1, column 0, each from its content; moved fragments get none.
pub open spec fn laid_out(frags: Seq<StoredFragment>) -> (Seq<Option<(int, int, int, int)>>, (int, int))
    decreases frags.len(),
{
    if frags.len() == 0 {
        (Seq::empty(), (1, 0))
    } else {
        let (before, cur) = laid_out(frags.drop_last());
        let f = frags.last();
        if moved(f) {
            (before.push(None), cur)
        } else {
            let e = end_position(f.content_xml@, cur.0, cur.1);
            (before.push(Some((cur.0, cur.1, e.0, e.1))), e)
        }
    }
}

proof fn lemma_laid_out_bounds(frags: Seq<StoredFragment>)
    ensures
        laid_out(frags).0.len() == frags.len(),
        1 <= laid_out(frags).1.0 <= 1 + kept_chars(frags),
        0 <= laid_out(frags).1.1 <= kept_chars(frags),
    decreases frags.len(),
{
    if frags.len() > 0 {
        lemma_laid_out_bounds(frags.drop_last());
        let cur = laid_out(frags.drop_last()).1;
        if !moved(frags.last()) {
            lemma_end_position_bounds(frags.last().content_xml@, cur.0, cur.1);
        }
    }
}

proof fn lemma_kept_chars_prefix(frags: Seq<StoredFragment>, k: int)
    requires
        0 <= k <= frags.len(),
    ensures
        0 <= kept_chars(frags.take(k)) <= kept_chars(frags),
    decreases frags.len(),
{
    if k == frags.len() {
        assert(frags.take(k) =~= frags);
        lemma_kept_chars_nonneg(frags);
    } else {
        assert(frags.drop_last().take(k) =~= frags.take(k));
        lemma_kept_chars_prefix(frags.drop_last(), k);
    }
}

proof fn lemma_kept_chars_nonneg(frags: Seq<StoredFragment>)
    ensures
        0 <= kept_chars(frags),
    decreases frags.len(),
{
    if frags.len() > 0 {
        lemma_kept_chars_nonneg(frags.drop_last());
    }
}

/// New boundaries of a fragment: start line and column, end line and column.
pub type Bounds = (i32, i32, i32, i32);

/// Recomputes the boundaries of the fragments (in their order) from their
/// contents, laid out one after the other from line 1, column 0 (see
/// `laid_out`); moved fragments keep theirs (`None`).
pub fn recalculate_boundaries(fragments: &Vec<StoredFragment>) -> (r: Vec<Option<Bounds>>)
    requires
        kept_chars(fragments@) < i32::MAX,
    ensures
        r@.len() == fragments@.len(),
        forall|i: int|
            0 <= i < r@.len() ==> match #[trigger] r@[i] {
                Some(b) => laid_out(fragments@).0[i] == Some(
                    (b.0 as int, b.1 as int, b.2 as int, b.3 as int),
                ),
                None => laid_out(fragments@).0[i] is None,
            },
{
    let mut out: Vec<Option<Bounds>> = Vec::new();
    let mut line: i32 = 1;
    let mut col: i32 = 0;
    let mut i: usize = 0;
    while i < fragments.len()
        invariant
            i <= fragments@.len(),
            kept_chars(fragments@) < i32::MAX,
            (line as int, col as int) == laid_out(fragments@.take(i as int)).1,
            out@.len() == i,
            forall|k: int|
                0 <= k < i ==> match #[trigger] out@[k] {
                    Some(b) => laid_out(fragments@.take(i as int)).0[k] == Some(
                        (b.0 as int, b.1 as int, b.2 as int, b.3 as int),
                    ),
                    None => laid_out(fragments@.take(i as int)).0[k] is None,
                },
        decreases fragments@.len() - i,
    {
        let f = &fragments[i];
        let ghost pre = fragments@.take(i as int);
        assert(fragments@.take(i + 1).drop_last() =~= pre);
        assert(fragments@.take(i + 1).last() == *f);
        proof {
            lemma_laid_out_bounds(fragments@.take(i + 1));
            lemma_laid_out_bounds(pre);
            lemma_kept_chars_prefix(fragments@, i + 1);
        }
        if is_moved(f) {
            out.push(None);
        } else {
            assert(kept_chars(fragments@.take(i + 1)) == kept_chars(pre) + f.content_xml@.len());
            let (el, ec) = calculate_end_position(f.content_xml.as_str(), line, col);
            out.push(Some((line, col, el, ec)));
            line = el;
            col = ec;
        }
        i = i + 1;
    }
    assert(fragments@.take(fragments@.len() as int) =~= fragments@);
    out
}

/// A difference between the stored contents and the original file.
#[derive(Debug, Clone)]
pub struct ContentIntegrityError {
    pub expected_bytes: usize,
    pub actual_bytes: usize,
    pub difference: i64,
    pub message: String,
}

/// The bytes of the contents of the fragments not moved.
pub open spec fn kept_bytes(frags: Seq<StoredFragment>) -> int
    decreases frags.len(),
{
    if frags.len() == 0 {
        0
    } else {
        kept_bytes(frags.drop_last()) + if moved(frags.last()) {
            0
        } else {
            encode_utf8(frags.last().content_xml@).len() as int
        }
    }
}

/// The check of the stored contents against the size of the original file:
/// none when the kept fragments hold as many bytes as the file; otherwise
/// the sizes, their difference and a message saying whether content was
/// duplicated or lost.
pub open spec fn integrity_of(expected: int, actual: int) -> Option<(int, Seq<char>)> {
    let d = actual - expected;
    if d == 0 {
        None
    } else if d > 0 {
        Some(
            (
                d,
                "Content DUPLICATION detected: stored content is "@ + nat_decimal(d as nat)
                    + " bytes larger than original file. Expected "@ + nat_decimal(expected as nat)
                    + " bytes, found "@ + nat_decimal(actual as nat) + " bytes."@,
            ),
        )
    } else {
        Some(
            (
                d,
                "Content LOSS detected: stored content is "@ + nat_decimal((-d) as nat)
                    + " bytes smaller than original file. Expected "@ + nat_decimal(expected as nat)
                    + " bytes, found "@ + nat_decimal(actual as nat) + " bytes."@,
            ),
        )
    }
}

/// Checks that the fragments not moved hold as many bytes as the original
/// file (see `integrity_of`).
pub fn validate_content_integrity(expected_bytes: usize, fragments: &Vec<StoredFragment>) -> (r: Option<
    ContentIntegrityError,
>)
    requires
        expected_bytes <= i64::MAX,
        kept_bytes(fragments@) <= i64::MAX,
        kept_bytes(fragments@) <= usize::MAX,
    ensures
        match r {
            Some(e) => integrity_of(expected_bytes as int, kept_bytes(fragments@)) == Some(
                (e.difference as int, e.message@),
            ) && e.expected_bytes == expected_bytes && e.actual_bytes == kept_bytes(fragments@),
            None => integrity_of(expected_bytes as int, kept_bytes(fragments@)) is None,
        },
{
    let mut actual: usize = 0;
    let mut i: usize = 0;
    while i < fragments.len()
        invariant
            i <= fragments@.len(),
            kept_bytes(fragments@) <= i64::MAX,
            kept_bytes(fragments@) <= usize::MAX,
            actual == kept_bytes(fragments@.take(i as int)),
        decreases fragments@.len() - i,
    {
        let f = &fragments[i];
        assert(fragments@.take(i + 1).drop_last() =~= fragments@.take(i as int));
        assert(fragments@.take(i + 1).last() == *f);
        proof {
            lemma_kept_bytes_prefix(fragments@, i + 1);
        }
        if !is_moved(f) {
            let n = f.content_xml.as_str().as_bytes().len();
            assert(n == encode_utf8(f.content_xml@).len());
            assert(kept_bytes(fragments@.take(i + 1)) == actual + n);
            actual = actual + n;
        }
        i = i + 1;
    }
    assert(fragments@.take(fragments@.len() as int) =~= fragments@);
    let difference: i64 = actual as i64 - expected_bytes as i64;
    if difference == 0 {
        return None;
    }
    let mut m = String::new();
    if difference > 0 {
        m.append("Content DUPLICATION detected: stored content is ");
        push_nat_decimal(&mut m, difference as u64);
        m.append(" bytes larger than original file. Expected ");
    } else {
        m.append("Content LOSS detected: stored content is ");
        push_nat_decimal(&mut m, (expected_bytes - actual) as u64);
        m.append(" bytes smaller than original file. Expected ");
    }
    push_nat_decimal(&mut m, expected_bytes as u64);
    m.append(" bytes, found ");
    push_nat_decimal(&mut m, actual as u64);
    m.append(" bytes.");
    let ghost want = match integrity_of(expected_bytes as int, actual as int) {
        Some(p) => p.1,
        None => Seq::empty(),
    };
    assert(m@ =~= want);
    Some(ContentIntegrityError { expected_bytes, actual_bytes: actual, difference, message: m })
}

proof fn lemma_kept_bytes_prefix(frags: Seq<StoredFragment>, k: int)
    requires
        0 <= k <= frags.len(),
    ensures
        0 <= kept_bytes(frags.take(k)) <= kept_bytes(frags),
    decreases frags.len(),
{
    if k == frags.len() {
        assert(frags.take(k) =~= frags);
        lemma_kept_bytes_nonneg(frags);
    } else {
        assert(frags.drop_last().take(k) =~= frags.take(k));
        lemma_kept_bytes_prefix(frags.drop_last(), k);
    }
}

proof fn lemma_kept_bytes_nonneg(frags: Seq<StoredFragment>)
    ensures
        0 <= kept_bytes(frags),
    decreases frags.len(),
{
    if frags.len() > 0 {
        lemma_kept_bytes_nonneg(frags.drop_last());
    }
}

/// The fragments with the boundaries `recalculate_boundaries` gives them
/// (see `laid_out`); moved fragments keep theirs.
pub open spec fn rebounded(frags: Seq<StoredFragment>) -> Seq<StoredFragment>
    decreases frags.len(),
{
    if frags.len() == 0 {
        Seq::empty()
    } else {
        let f = frags.last();
        let cur = laid_out(frags.drop_last()).1;
        let g = if moved(f) {
            f
        } else {
            let e = end_position(f.content_xml@, cur.0, cur.1);
            StoredFragment {
                start_line: cur.0 as i32,
                start_char: cur.1 as i32,
                end_line: e.0 as i32,
                end_char: e.1 as i32,
                ..f
            }
        };
        rebounded(frags.drop_last()).push(g)
    }
}

proof fn lemma_rebounded_chain(frags: Seq<StoredFragment>)
    requires
        kept_chars(frags) < i32::MAX,
    ensures
        discontinuities(rebounded(frags)) == Seq::<DiscontinuityView>::empty(),
        rebounded(frags).len() == frags.len(),
        last_kept_end(rebounded(frags)) matches Some(e) ==> (e.0 as int, e.1 as int) == laid_out(
            frags,
        ).1,
    decreases frags.len(),
{
    if frags.len() > 0 {
        let d = frags.drop_last();
        lemma_kept_chars_nonneg(d);
        lemma_rebounded_chain(d);
        lemma_laid_out_bounds(d);
        lemma_laid_out_bounds(frags);
        let r = rebounded(frags);
        assert(r.drop_last() =~= rebounded(d));
        let cur = laid_out(d).1;
        if !moved(frags.last()) {
            lemma_end_position_bounds(frags.last().content_xml@, cur.0, cur.1);
            assert(kept_chars(frags) == kept_chars(d) + frags.last().content_xml@.len());
        }
    }
}

/// Boundaries recomputed from the contents form a chain: every fragment not
/// moved starts where the previous one not moved ends.
pub proof fn law_recalculated_boundaries_form_chain(frags: Seq<StoredFragment>)
    requires
        kept_chars(frags) < i32::MAX,
    ensures
        discontinuities(rebounded(frags)) == Seq::<DiscontinuityView>::empty(),
{
    lemma_rebounded_chain(frags);
}

/// Whether the sizes are small enough for `validate_content_integrity`.
pub fn kept_bytes_fit(expected_bytes: usize, fragments: &Vec<StoredFragment>) -> (r: bool)
    ensures
        r == (expected_bytes <= i64::MAX && kept_bytes(fragments@) <= i64::MAX && kept_bytes(
            fragments@,
        ) <= usize::MAX),
{
    if expected_bytes as u64 > i64::MAX as u64 {
        return false;
    }
    let mut total: u64 = 0;
    let mut i: usize = 0;
    while i < fragments.len()
        invariant
            i <= fragments@.len(),
            total == kept_bytes(fragments@.take(i as int)),
            total <= i64::MAX,
            total <= usize::MAX,
        decreases fragments@.len() - i,
    {
        let f = &fragments[i];
        assert(fragments@.take(i + 1).drop_last() =~= fragments@.take(i as int));
        assert(fragments@.take(i + 1).last() == *f);
        if !is_moved(f) {
            let n = f.content_xml.as_str().as_bytes().len();
            assert(n == encode_utf8(f.content_xml@).len());
            if n as u64 > i64::MAX as u64 - total || n > usize::MAX - total as usize {
                proof {
                    lemma_kept_bytes_prefix(fragments@, i + 1);
                }
                return false;
            }
            total = total + n as u64;
        }
        i = i + 1;
    }
    assert(fragments@.take(fragments@.len() as int) =~= fragments@);
    true
}

/// Whether the contents are small enough for `recalculate_boundaries`.
pub fn kept_chars_fit(fragments: &Vec<StoredFragment>) -> (r: bool)
    ensures
        r == (kept_chars(fragments@) < i32::MAX),
{
    let mut total: u64 = 0;
    let mut i: usize = 0;
    while i < fragments.len()
        invariant
            i <= fragments@.len(),
            total == kept_chars(fragments@.take(i as int)),
            total < i32::MAX,
        decreases fragments@.len() - i,
    {
        let f = &fragments[i];
        assert(fragments@.take(i + 1).drop_last() =~= fragments@.take(i as int));
        assert(fragments@.take(i + 1).last() == *f);
        if !is_moved(f) {
            let n = chars_vec(f.content_xml.as_str()).len();
            if n as u64 >= i32::MAX as u64 - total {
                proof {
                    lemma_kept_chars_prefix(fragments@, i + 1);
                }
                return false;
            }
            total = total + n as u64;
        }
        i = i + 1;
    }
    assert(fragments@.take(fragments@.len() as int) =~= fragments@);
    true
}

} // verus!
