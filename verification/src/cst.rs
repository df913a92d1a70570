//! Sutta numbers in titles and ids, and the CST code of a fragment.

use vstd::prelude::*;
use vstd::string::*;
use crate::nikaya::NikayaStructure;
use crate::text::{
    all_numeric, chars_vec, char_is_numeric, ends_with, first_word, first_word_bounds, is_digit,
    is_numeric_char, opt_view, push_char, str_ends_with, str_eq,
};
use crate::types::{GroupLevel, GroupType, XmlFragment};

verus! {

/// Dash-separated parts that are all non-empty and numeric ("1", "10", "5-7").
pub open spec fn number_or_range(s: Seq<char>) -> bool {
    &&& s.len() > 0
    &&& s[0] != '-'
    &&& s.last() != '-'
    &&& forall|i: int| 0 <= i < s.len() - 1 && #[trigger] s[i] == '-' ==> s[i + 1] != '-'
    &&& forall|i: int| 0 <= i < s.len() && s[i] != '-' ==> char_is_numeric(s[i])
}

fn number_or_range_chars(v: &[char], from: usize, to: usize) -> (r: bool)
    requires
        from <= to <= v@.len(),
    ensures
        r == number_or_range(v@.subrange(from as int, to as int)),
{
    let ghost s = v@.subrange(from as int, to as int);
    if from == to {
        return false;
    }
    if v[from] == '-' || v[to - 1] == '-' {
        assert(s[0] == v@[from as int] && s.last() == v@[to - 1]);
        return false;
    }
    let mut i: usize = from;
    while i < to
        invariant
            from <= i <= to <= v@.len(),
            s == v@.subrange(from as int, to as int),
            forall|k: int| 0 <= k < i - from && k < s.len() - 1 && #[trigger] s[k] == '-' ==> s[k + 1] != '-',
            forall|k: int| 0 <= k < i - from && s[k] != '-' ==> char_is_numeric(s[k]),
        decreases to - i,
    {
        let c = v[i];
        assert(s[i - from] == c);
        if c == '-' {
            if i + 1 < to && v[i + 1] == '-' {
                assert(s[i + 1 - from] == '-');
                return false;
            }
        } else if !is_numeric_char(c) {
            return false;
        }
        i = i + 1;
    }
    true
}

/// Whether a string is a sutta number or a range of them ("1", "10", "5-7").
pub fn is_sutta_number_or_range(s: &str) -> (r: bool)
    ensures
        r == number_or_range(s@),
{
    let v = chars_vec(s);
    assert(v@.subrange(0, v@.len() as int) =~= v@);
    number_or_range_chars(v.as_slice(), 0, v.len())
}

/// End of the run of ASCII digits and dashes that starts at `i`.
pub open spec fn digit_run_end(t: Seq<char>, i: int) -> int
    decreases t.len() - i,
{
    if 0 <= i < t.len() && (is_digit(t[i]) || t[i] == '-') {
        digit_run_end(t, i + 1)
    } else {
        i
    }
}

/// The number (or range) at the start of a title: the first word without its
/// final dot ("1. Title", "5-7. Title"), or else the digits and dashes right
/// before a first dot ("1.Title").
pub open spec fn extract_number_spec(t: Seq<char>) -> Option<Seq<char>> {
    let standard = match first_word(t) {
        Some(w) => if w.len() > 0 && w.last() == '.' && number_or_range(w.drop_last()) {
            Some(w.drop_last())
        } else {
            None
        },
        None => None,
    };
    if standard is Some {
        standard
    } else {
        let k = digit_run_end(t, 0);
        if 0 < k < t.len() && t[k] == '.' && number_or_range(t.take(k)) {
            Some(t.take(k))
        } else {
            None
        }
    }
}

proof fn lemma_digit_run_end_bounds(t: Seq<char>, i: int)
    requires
        0 <= i <= t.len(),
    ensures
        i <= digit_run_end(t, i) <= t.len(),
        digit_run_end(t, i) < t.len() ==> !(is_digit(t[digit_run_end(t, i)]) || t[digit_run_end(
            t,
            i,
        )] == '-'),
    decreases t.len() - i,
{
    if i < t.len() && (is_digit(t[i]) || t[i] == '-') {
        lemma_digit_run_end_bounds(t, i + 1);
    }
}

/// The character positions of the number at the start of a title.
fn number_bounds(v: &Vec<char>) -> (r: Option<(usize, usize)>)
    ensures
        match r {
            Some((a, b)) => a <= b <= v@.len() && extract_number_spec(v@) == Some(
                v@.subrange(a as int, b as int),
            ),
            None => extract_number_spec(v@) is None,
        },
{
    if let Some((a, b)) = first_word_bounds(v) {
        let ghost w = v@.subrange(a as int, b as int);
        if v[b - 1] == '.' && number_or_range_chars(v.as_slice(), a, b - 1) {
            assert(w.drop_last() =~= v@.subrange(a as int, b - 1));
            return Some((a, b - 1));
        }
        assert(w.last() == v@[b - 1]);
        assert(w.drop_last() =~= v@.subrange(a as int, b - 1));
    }
    let n = v.len();
    let mut k: usize = 0;
    proof {
        lemma_digit_run_end_bounds(v@, 0);
    }
    while k < n && ((v[k] as u32 >= 48 && v[k] as u32 <= 57) || v[k] == '-')
        invariant
            k <= n == v@.len(),
            digit_run_end(v@, 0) == digit_run_end(v@, k as int),
        decreases n - k,
    {
        k = k + 1;
    }
    assert(v@.take(k as int) =~= v@.subrange(0, k as int));
    if k > 0 && k < n && v[k] == '.' && number_or_range_chars(v.as_slice(), 0, k) {
        Some((0, k))
    } else {
        None
    }
}

/// The number (or range) at the start of a title (see `extract_number_spec`).
pub fn extract_number_from_title(title: &str) -> (r: Option<&str>)
    ensures
        match r {
            Some(n) => extract_number_spec(title@) == Some(n@),
            None => extract_number_spec(title@) is None,
        },
{
    let v = chars_vec(title);
    match number_bounds(&v) {
        Some((a, b)) => Some(title.substring_char(a, b)),
        None => None,
    }
}

/// Whether a subhead text starts with a sutta number ("1. ", "2-11. ", "9.Title").
pub fn is_numbered_sutta_subhead(text: &str) -> (r: bool)
    ensures
        r == (extract_number_spec(text@) is Some),
{
    let v = chars_vec(text);
    number_bounds(&v).is_some()
}

/// The number in front of a title: the first word without its final dot, when
/// all its other characters are numeric ("1. Devatāsaṃyuttaṃ").
pub open spec fn title_number(t: Seq<char>) -> Option<Seq<char>> {
    match first_word(t) {
        Some(w) => if w.len() > 0 && w.last() == '.' && all_numeric(w.drop_last()) {
            Some(w.drop_last())
        } else {
            None
        },
        None => None,
    }
}

fn all_numeric_chars(v: &[char], from: usize, to: usize) -> (r: bool)
    requires
        from <= to <= v@.len(),
    ensures
        r == all_numeric(v@.subrange(from as int, to as int)),
{
    let ghost s = v@.subrange(from as int, to as int);
    let mut i = from;
    while i < to
        invariant
            from <= i <= to <= v@.len(),
            s == v@.subrange(from as int, to as int),
            forall|k: int| 0 <= k < i - from ==> char_is_numeric(s[k]),
        decreases to - i,
    {
        assert(s[i - from] == v@[i as int]);
        if !is_numeric_char(v[i]) {
            return false;
        }
        i = i + 1;
    }
    true
}

fn string_of_range(v: &Vec<char>, a: usize, b: usize) -> (r: String)
    requires
        a <= b <= v@.len(),
    ensures
        r@ == v@.subrange(a as int, b as int),
{
    let mut s = String::new();
    let mut i = a;
    while i < b
        invariant
            a <= i <= b <= v@.len(),
            s@ == v@.subrange(a as int, i as int),
        decreases b - i,
    {
        push_char(&mut s, v[i]);
        assert(v@.subrange(a as int, i + 1) =~= v@.subrange(a as int, i as int).push(v@[i as int]));
        i = i + 1;
    }
    s
}

/// The number in front of a title (see `title_number`).
pub fn title_number_of(title: &str) -> (r: Option<String>)
    ensures
        match r {
            Some(n) => title_number(title@) == Some(n@),
            None => title_number(title@) is None,
        },
{
    let v = chars_vec(title);
    match first_word_bounds(&v) {
        Some((a, b)) => {
            let ghost w = v@.subrange(a as int, b as int);
            assert(w.last() == v@[b - 1]);
            assert(w.drop_last() =~= v@.subrange(a as int, b - 1));
            if v[b - 1] == '.' && all_numeric_chars(v.as_slice(), a, b - 1) {
                Some(string_of_range(&v, a, b - 1))
            } else {
                None
            }
        },
        None => None,
    }
}

/// The part of `s` after the last `c` (all of `s` when it has none).
pub open spec fn after_last(s: Seq<char>, c: char) -> Seq<char>
    decreases s.len(),
{
    if s.len() == 0 {
        Seq::empty()
    } else if s.last() == c {
        Seq::empty()
    } else {
        after_last(s.drop_last(), c).push(s.last())
    }
}

/// The number after the last underscore of an id ("sn1_1" gives "1"), when numeric.
pub open spec fn id_tail_number(id: Option<String>) -> Option<Seq<char>> {
    match id {
        Some(s) => if all_numeric(after_last(s@, '_')) {
            Some(after_last(s@, '_'))
        } else {
            None
        },
        None => None,
    }
}

/// The number after the last underscore of an id (see `id_tail_number`).
pub fn id_tail_number_of(id: &Option<String>) -> (r: Option<String>)
    ensures
        match r {
            Some(n) => id_tail_number(*id) == Some(n@),
            None => id_tail_number(*id) is None,
        },
{
    match id {
        Some(s) => {
            let v = chars_vec(s.as_str());
            let n = v.len();
            let mut k = n;
            assert(v@.take(n as int) =~= v@);
            assert(v@.subrange(n as int, n as int) =~= Seq::<char>::empty());
            assert(after_last(v@, '_') + Seq::<char>::empty() =~= after_last(v@, '_'));
            while k > 0 && v[k - 1] != '_'
                invariant
                    k <= n == v@.len(),
                    after_last(v@, '_') == after_last(v@.take(k as int), '_') + v@.subrange(
                        k as int,
                        n as int,
                    ),
                decreases k,
            {
                let ghost t = v@.take(k as int);
                assert(t.drop_last() =~= v@.take(k - 1));
                assert(v@.subrange(k - 1, n as int) =~= seq![t.last()] + v@.subrange(
                    k as int,
                    n as int,
                ));
                assert(after_last(t.drop_last(), '_').push(t.last()) + v@.subrange(k as int, n as int)
                    =~= after_last(t.drop_last(), '_') + v@.subrange(k - 1, n as int));
                k = k - 1;
            }
            proof {
                let t = v@.take(k as int);
                if k > 0 {
                    assert(t.last() == '_');
                }
                assert(after_last(t, '_') =~= Seq::<char>::empty());
                assert(after_last(v@, '_') =~= v@.subrange(k as int, n as int));
            }
            assert(v@.take(n as int) =~= v@);
            if all_numeric_chars(v.as_slice(), k, n) {
                Some(string_of_range(&v, k, n))
            } else {
                None
            }
        },
        None => None,
    }
}

/// Where the number of a level is read from.
#[derive(Debug, Clone, Copy, PartialEq, Eq, Structural)]
pub enum NumberSource {
    /// The level's id itself.
    Id,
    /// `title_number` of the title, or else the numeric tail of the id.
    TitleOrId,
    /// `extract_number_spec` of the title, or else the numeric tail of the id.
    ExtractedOrId,
    /// `extract_number_spec` of the title.
    Extracted,
    /// `title_number` of the title.
    Title,
}

/// The value read from a level of type `t` (nothing for another type).
pub open spec fn level_value(src: NumberSource, t: GroupType, l: GroupLevel) -> Option<Seq<char>> {
    if l.group_type != t {
        None
    } else {
        match src {
            NumberSource::Id => opt_view(l.id),
            NumberSource::TitleOrId => if title_number(l.title@) is Some {
                title_number(l.title@)
            } else {
                id_tail_number(l.id)
            },
            NumberSource::ExtractedOrId => if extract_number_spec(l.title@) is Some {
                extract_number_spec(l.title@)
            } else {
                id_tail_number(l.id)
            },
            NumberSource::Extracted => extract_number_spec(l.title@),
            NumberSource::Title => title_number(l.title@),
        }
    }
}

/// The first value found in the levels, outermost first.
pub open spec fn first_value(levels: Seq<GroupLevel>, src: NumberSource, t: GroupType) -> Option<
    Seq<char>,
>
    decreases levels.len(),
{
    if levels.len() == 0 {
        None
    } else if level_value(src, t, levels[0]) is Some {
        level_value(src, t, levels[0])
    } else {
        first_value(levels.drop_first(), src, t)
    }
}

/// The first value found in the levels, innermost first.
pub open spec fn last_value(levels: Seq<GroupLevel>, src: NumberSource, t: GroupType) -> Option<
    Seq<char>,
>
    decreases levels.len(),
{
    if levels.len() == 0 {
        None
    } else if level_value(src, t, levels.last()) is Some {
        level_value(src, t, levels.last())
    } else {
        last_value(levels.drop_last(), src, t)
    }
}

fn level_value_of(src: NumberSource, t: GroupType, l: &GroupLevel) -> (r: Option<String>)
    ensures
        opt_view(r) == level_value(src, t, *l),
{
    if l.group_type != t {
        return None;
    }
    match src {
        NumberSource::Id => match &l.id {
            Some(s) => Some(s.clone()),
            None => None,
        },
        NumberSource::TitleOrId => match title_number_of(l.title.as_str()) {
            Some(n) => Some(n),
            None => id_tail_number_of(&l.id),
        },
        NumberSource::ExtractedOrId => match extract_number_from_title(l.title.as_str()) {
            Some(n) => Some(n.to_string()),
            None => id_tail_number_of(&l.id),
        },
        NumberSource::Extracted => match extract_number_from_title(l.title.as_str()) {
            Some(n) => Some(n.to_string()),
            None => None,
        },
        NumberSource::Title => title_number_of(l.title.as_str()),
    }
}

/// The first value found in the levels, outermost first.
pub fn find_first_value(levels: &Vec<GroupLevel>, src: NumberSource, t: GroupType) -> (r: Option<
    String,
>)
    ensures
        opt_view(r) == first_value(levels@, src, t),
{
    let n = levels.len();
    let mut i: usize = 0;
    assert(levels@.subrange(0, n as int) =~= levels@);
    while i < n
        invariant
            i <= n == levels@.len(),
            first_value(levels@, src, t) == first_value(levels@.subrange(i as int, n as int), src, t),
        decreases n - i,
    {
        let ghost rest = levels@.subrange(i as int, n as int);
        assert(rest[0] == levels@[i as int]);
        assert(rest.drop_first() =~= levels@.subrange(i + 1, n as int));
        let v = level_value_of(src, t, &levels[i]);
        if v.is_some() {
            return v;
        }
        i = i + 1;
    }
    None
}

/// The first value found in the levels, innermost first.
pub fn find_last_value(levels: &Vec<GroupLevel>, src: NumberSource, t: GroupType) -> (r: Option<
    String,
>)
    ensures
        opt_view(r) == last_value(levels@, src, t),
{
    let n = levels.len();
    let mut i: usize = n;
    assert(levels@.take(n as int) =~= levels@);
    while i > 0
        invariant
            i <= n == levels@.len(),
            last_value(levels@, src, t) == last_value(levels@.take(i as int), src, t),
        decreases i,
    {
        let ghost pre = levels@.take(i as int);
        assert(pre.last() == levels@[i - 1]);
        assert(pre.drop_last() =~= levels@.take(i - 1));
        let v = level_value_of(src, t, &levels[i - 1]);
        if v.is_some() {
            return v;
        }
        i = i - 1;
    }
    None
}

/// `s` with each underscore replaced by a dot.
pub open spec fn underscores_to_dots(s: Seq<char>) -> Seq<char> {
    s.map_values(|c: char| if c == '_' { '.' } else { c })
}

fn replace_underscores(s: &str) -> (r: String)
    ensures
        r@ == underscores_to_dots(s@),
{
    let v = chars_vec(s);
    let mut out = String::new();
    let mut i: usize = 0;
    while i < v.len()
        invariant
            i <= v@.len(),
            v@ == s@,
            out@ == underscores_to_dots(v@.take(i as int)),
        decreases v@.len() - i,
    {
        let c = v[i];
        push_char(&mut out, if c == '_' { '.' } else { c });
        assert(underscores_to_dots(v@.take(i + 1)) =~= underscores_to_dots(v@.take(i as int)).push(
            if c == '_' { '.' } else { c },
        ));
        i = i + 1;
    }
    assert(v@.take(v@.len() as int) =~= v@);
    out
}

/// `a` and `b` joined by a dot.
pub open spec fn dot(a: Seq<char>, b: Seq<char>) -> Seq<char> {
    a + "."@ + b
}

/// The CST code built from its parts, by the code format of the nikaya.
pub open spec fn code_spec(
    nikaya: Seq<char>,
    book: Option<Seq<char>>,
    samyutta: Option<Seq<char>>,
    pannasaka: Option<Seq<char>>,
    vagga: Option<Seq<char>>,
    sutta: Option<Seq<char>>,
) -> Option<Seq<char>> {
    if nikaya == "majjhima"@ {
        match (book, vagga, sutta) {
            (Some(b), Some(v), Some(s)) => Some(dot(dot(b, v), s)),
            (Some(b), Some(v), None) => Some(dot(dot(b, v), "0"@)),
            _ => None,
        }
    } else if nikaya == "samyutta"@ {
        match (book, samyutta, vagga, sutta) {
            (Some(b), Some(m), Some(v), Some(s)) => Some(dot(dot(dot(b, m), v), s)),
            (Some(b), Some(m), Some(v), None) => Some(dot(dot(dot(b, m), v), "0"@)),
            (Some(b), Some(m), None, Some(s)) => Some(dot(dot(dot(b, m), "1"@), s)),
            _ => None,
        }
    } else if nikaya == "anguttara"@ {
        match (book, pannasaka, vagga, sutta) {
            (Some(b), Some(p), Some(v), Some(s)) => Some(dot(dot(dot(b, p), v), s)),
            (Some(b), Some(p), Some(v), None) => Some(dot(dot(dot(b, p), v), "0"@)),
            _ => None,
        }
    } else {
        match (book, sutta) {
            (Some(b), Some(s)) => Some(dot(b, s)),
            _ => None,
        }
    }
}

fn push_part(out: &mut String, part: &str)
    ensures
        final(out)@ == old(out)@ + "."@ + part@,
{
    out.append(".");
    out.append(part);
}

fn build_code(
    nikaya: &str,
    book: Option<String>,
    samyutta: Option<String>,
    pannasaka: Option<String>,
    vagga: Option<String>,
    sutta: Option<String>,
) -> (r: Option<String>)
    ensures
        opt_view(r) == code_spec(
            nikaya@,
            opt_view(book),
            opt_view(samyutta),
            opt_view(pannasaka),
            opt_view(vagga),
            opt_view(sutta),
        ),
{
    let b = match book {
        Some(b) => b,
        None => return None,
    };
    let mut out = b;
    let ghost b0 = out@;
    if str_eq(nikaya, "majjhima") {
        match (vagga, sutta) {
            (Some(v), Some(s)) => {
                push_part(&mut out, v.as_str());
                push_part(&mut out, s.as_str());
                assert(dot(dot(b0, v@), s@) =~= out@);
                Some(out)
            },
            (Some(v), None) => {
                push_part(&mut out, v.as_str());
                push_part(&mut out, "0");
                assert(dot(dot(b0, v@), "0"@) =~= out@);
                Some(out)
            },
            _ => None,
        }
    } else if str_eq(nikaya, "samyutta") {
        match (samyutta, vagga, sutta) {
            (Some(m), Some(v), Some(s)) => {
                push_part(&mut out, m.as_str());
                push_part(&mut out, v.as_str());
                push_part(&mut out, s.as_str());
                assert(dot(dot(dot(b0, m@), v@), s@) =~= out@);
                Some(out)
            },
            (Some(m), Some(v), None) => {
                push_part(&mut out, m.as_str());
                push_part(&mut out, v.as_str());
                push_part(&mut out, "0");
                assert(dot(dot(dot(b0, m@), v@), "0"@) =~= out@);
                Some(out)
            },
            (Some(m), None, Some(s)) => {
                push_part(&mut out, m.as_str());
                push_part(&mut out, "1");
                push_part(&mut out, s.as_str());
                assert(dot(dot(dot(b0, m@), "1"@), s@) =~= out@);
                Some(out)
            },
            _ => None,
        }
    } else if str_eq(nikaya, "anguttara") {
        match (pannasaka, vagga, sutta) {
            (Some(p), Some(v), Some(s)) => {
                push_part(&mut out, p.as_str());
                push_part(&mut out, v.as_str());
                push_part(&mut out, s.as_str());
                assert(dot(dot(dot(b0, p@), v@), s@) =~= out@);
                Some(out)
            },
            (Some(p), Some(v), None) => {
                push_part(&mut out, p.as_str());
                push_part(&mut out, v.as_str());
                push_part(&mut out, "0");
                assert(dot(dot(dot(b0, p@), v@), "0"@) =~= out@);
                Some(out)
            },
            _ => None,
        }
    } else {
        match sutta {
            Some(s) => {
                push_part(&mut out, s.as_str());
                assert(dot(b0, s@) =~= out@);
                Some(out)
            },
            None => None,
        }
    }
}

/// The view of an optional string slice.
pub open spec fn opt_str_view(o: Option<&str>) -> Option<Seq<char>> {
    match o {
        Some(s) => Some(s@),
        None => None,
    }
}

/// The CST code of a fragment from its levels: the sutta level's id with dots
/// for underscores, or else the code built from the book id and the numbers
/// of the levels (the innermost vagga and sutta in a Saṃyutta mūla file, the
/// outermost ones otherwise; the sutta number falls back on the given title).
pub open spec fn derive_cst_code_spec(
    levels: Seq<GroupLevel>,
    nikaya: Seq<char>,
    file: Seq<char>,
    title: Option<Seq<char>>,
) -> Option<Seq<char>> {
    match first_value(levels, NumberSource::Id, GroupType::Sutta) {
        Some(id) => Some(underscores_to_dots(id)),
        None => {
            let book = first_value(levels, NumberSource::Id, GroupType::Book);
            let samyutta = if nikaya == "samyutta"@ {
                first_value(levels, NumberSource::TitleOrId, GroupType::Samyutta)
            } else {
                None
            };
            let pannasaka = if nikaya == "anguttara"@ {
                first_value(levels, NumberSource::TitleOrId, GroupType::Pannasaka)
            } else {
                None
            };
            let rev = nikaya == "samyutta"@ && ends_with(file, ".mul.xml"@);
            let vagga = if rev {
                last_value(levels, NumberSource::ExtractedOrId, GroupType::Vagga)
            } else {
                first_value(levels, NumberSource::ExtractedOrId, GroupType::Vagga)
            };
            let sutta_from_levels = if rev {
                last_value(levels, NumberSource::Extracted, GroupType::Sutta)
            } else {
                first_value(levels, NumberSource::Extracted, GroupType::Sutta)
            };
            let sutta = if sutta_from_levels is Some {
                sutta_from_levels
            } else {
                match title {
                    Some(t) => extract_number_spec(t),
                    None => None,
                }
            };
            code_spec(nikaya, book, samyutta, pannasaka, vagga, sutta)
        },
    }
}

/// The CST code of a fragment (see `derive_cst_code_spec`).
pub fn derive_cst_code(
    fragment: &XmlFragment,
    nikaya_structure: &NikayaStructure,
    cst_sutta_title: Option<&str>,
) -> (r: Option<String>)
    ensures
        opt_view(r) == derive_cst_code_spec(
            fragment.group_levels@,
            nikaya_structure.nikaya@,
            fragment.cst_file@,
            opt_str_view(cst_sutta_title),
        ),
{
    let levels = &fragment.group_levels;
    if let Some(id) = find_first_value(levels, NumberSource::Id, GroupType::Sutta) {
        return Some(replace_underscores(id.as_str()));
    }
    let nikaya = nikaya_structure.nikaya.as_str();
    let book = find_first_value(levels, NumberSource::Id, GroupType::Book);
    let samyutta = if str_eq(nikaya, "samyutta") {
        find_first_value(levels, NumberSource::TitleOrId, GroupType::Samyutta)
    } else {
        None
    };
    let pannasaka = if str_eq(nikaya, "anguttara") {
        find_first_value(levels, NumberSource::TitleOrId, GroupType::Pannasaka)
    } else {
        None
    };
    let rev = str_eq(nikaya, "samyutta") && str_ends_with(fragment.cst_file.as_str(), ".mul.xml");
    let vagga = if rev {
        find_last_value(levels, NumberSource::ExtractedOrId, GroupType::Vagga)
    } else {
        find_first_value(levels, NumberSource::ExtractedOrId, GroupType::Vagga)
    };
    let from_levels = if rev {
        find_last_value(levels, NumberSource::Extracted, GroupType::Sutta)
    } else {
        find_first_value(levels, NumberSource::Extracted, GroupType::Sutta)
    };
    let sutta = match from_levels {
        Some(s) => Some(s),
        None => match cst_sutta_title {
            Some(t) => match extract_number_from_title(t) {
                Some(n) => Some(n.to_string()),
                None => None,
            },
            None => None,
        },
    };
    build_code(nikaya, book, samyutta, pannasaka, vagga, sutta)
}

/// The CST code of a fragment by the rules of the Saṃyutta mūla parser: like
/// `derive_cst_code_spec`, but the innermost vagga and sutta levels are always
/// used, and their numbers are read with `title_number` (no ranges, a space
/// after the dot).
pub open spec fn derive_cst_code_mula_spec(
    levels: Seq<GroupLevel>,
    nikaya: Seq<char>,
    title: Option<Seq<char>>,
) -> Option<Seq<char>> {
    match first_value(levels, NumberSource::Id, GroupType::Sutta) {
        Some(id) => Some(underscores_to_dots(id)),
        None => {
            let book = first_value(levels, NumberSource::Id, GroupType::Book);
            let samyutta = if nikaya == "samyutta"@ {
                first_value(levels, NumberSource::TitleOrId, GroupType::Samyutta)
            } else {
                None
            };
            let pannasaka = if nikaya == "anguttara"@ {
                first_value(levels, NumberSource::TitleOrId, GroupType::Pannasaka)
            } else {
                None
            };
            let vagga = last_value(levels, NumberSource::TitleOrId, GroupType::Vagga);
            let sutta_from_levels = last_value(levels, NumberSource::Title, GroupType::Sutta);
            let sutta = if sutta_from_levels is Some {
                sutta_from_levels
            } else {
                match title {
                    Some(t) => title_number(t),
                    None => None,
                }
            };
            code_spec(nikaya, book, samyutta, pannasaka, vagga, sutta)
        },
    }
}

/// The CST code of a fragment by the rules of the Saṃyutta mūla parser.
pub fn derive_cst_code_mula(
    fragment: &XmlFragment,
    nikaya_structure: &NikayaStructure,
    cst_sutta_title: Option<&str>,
) -> (r: Option<String>)
    ensures
        opt_view(r) == derive_cst_code_mula_spec(
            fragment.group_levels@,
            nikaya_structure.nikaya@,
            opt_str_view(cst_sutta_title),
        ),
{
    let levels = &fragment.group_levels;
    if let Some(id) = find_first_value(levels, NumberSource::Id, GroupType::Sutta) {
        return Some(replace_underscores(id.as_str()));
    }
    let nikaya = nikaya_structure.nikaya.as_str();
    let book = find_first_value(levels, NumberSource::Id, GroupType::Book);
    let samyutta = if str_eq(nikaya, "samyutta") {
        find_first_value(levels, NumberSource::TitleOrId, GroupType::Samyutta)
    } else {
        None
    };
    let pannasaka = if str_eq(nikaya, "anguttara") {
        find_first_value(levels, NumberSource::TitleOrId, GroupType::Pannasaka)
    } else {
        None
    };
    let vagga = find_last_value(levels, NumberSource::TitleOrId, GroupType::Vagga);
    let sutta = match find_last_value(levels, NumberSource::Title, GroupType::Sutta) {
        Some(s) => Some(s),
        None => match cst_sutta_title {
            Some(t) => title_number_of(t),
            None => None,
        },
    };
    build_code(nikaya, book, samyutta, pannasaka, vagga, sutta)
}

} // verus!
