//! Titles and paragraph numbers read from the XML of a fragment, and the CST
//! fields of a fragment.

use vstd::prelude::*;
use vstd::string::*;
use crate::cst::{
    derive_cst_code, derive_cst_code_mula, derive_cst_code_spec, derive_cst_code_mula_spec,
    };
use crate::hierarchy::find_type;
use crate::nikaya::NikayaStructure;
use crate::text::{
    chars_vec, char_is_numeric, ends_with, is_numeric_char, opt_view, str_ends_with, str_eq,
    trim_spec, trim_str,
};
use crate::types::{FragmentType, GroupLevel, GroupType, XmlFragment};
use crate::xml_events::{
    attr_view, attrs_view, event_view, events_of, events_view, lemma_attrs_view_same, lemma_events_of,
    lemma_events_view_same, read_events, xml_events_of, XmlAttribute, XmlEvent, XmlEventKind,
};

verus! {

/// The value of an attribute; one that could not be unescaped reads as empty.
pub open spec fn attr_val(a: XmlAttribute) -> Seq<char> {
    match a.value {
        Some(v) => v@,
        None => Seq::empty(),
    }
}

/// Some attribute has the key and the value.
pub open spec fn has_attr(attrs: Seq<XmlAttribute>, key: Seq<char>, value: Seq<char>) -> bool {
    exists|i: int| 0 <= i < attrs.len() && attrs[i].key@ == key && attr_val(attrs[i]) == value
}

/// The value of the last attribute with the key.
pub open spec fn last_attr(attrs: Seq<XmlAttribute>, key: Seq<char>) -> Option<Seq<char>>
    decreases attrs.len(),
{
    if attrs.len() == 0 {
        None
    } else if attrs.last().key@ == key {
        Some(attr_val(attrs.last()))
    } else {
        last_attr(attrs.drop_last(), key)
    }
}

/// The value of the first `rend` attribute that is `chapter` or `subhead`.
pub open spec fn chapter_or_subhead_rend(attrs: Seq<XmlAttribute>) -> Option<Seq<char>>
    decreases attrs.len(),
{
    if attrs.len() == 0 {
        None
    } else if attrs[0].key@ == "rend"@ && (attr_val(attrs[0]) == "chapter"@ || attr_val(attrs[0])
        == "subhead"@) {
        Some(attr_val(attrs[0]))
    } else {
        chapter_or_subhead_rend(attrs.drop_first())
    }
}

/// The text of a text event; one that could not be unescaped reads as empty.
pub open spec fn event_text(e: XmlEvent) -> Seq<char> {
    match e.text {
        Some(t) => t@,
        None => Seq::empty(),
    }
}

/// A non-empty text that starts with a numeric character.
pub open spec fn starts_numbered(t: Seq<char>) -> bool {
    t.len() > 0 && char_is_numeric(t[0])
}

fn has_attr_exec(attrs: &Vec<XmlAttribute>, key: &str, value: &str) -> (r: bool)
    ensures
        r == has_attr(attrs@, key@, value@),
{
    let mut i: usize = 0;
    while i < attrs.len()
        invariant
            i <= attrs@.len(),
            forall|j: int|
                0 <= j < i ==> !(attrs@[j].key@ == key@ && attr_val(attrs@[j]) == value@),
        decreases attrs@.len() - i,
    {
        let a = &attrs[i];
        let av = attr_value_string(a);
        let v_ok = str_eq(av.as_str(), value);
        if str_eq(a.key.as_str(), key) && v_ok {
            return true;
        }
        i = i + 1;
    }
    false
}

pub(crate) fn attr_value_string(a: &XmlAttribute) -> (r: String)
    ensures
        r@ == attr_val(*a),
{
    match &a.value {
        Some(v) => v.clone(),
        None => String::new(),
    }
}

pub(crate) fn last_attr_exec(attrs: &Vec<XmlAttribute>, key: &str) -> (r: Option<String>)
    ensures
        opt_view(r) == last_attr(attrs@, key@),
{
    let mut i = attrs.len();
    assert(attrs@.take(i as int) =~= attrs@);
    while i > 0
        invariant
            i <= attrs@.len(),
            last_attr(attrs@, key@) == last_attr(attrs@.take(i as int), key@),
        decreases i,
    {
        let ghost pre = attrs@.take(i as int);
        assert(pre.last() == attrs@[i - 1]);
        assert(pre.drop_last() =~= attrs@.take(i - 1));
        if str_eq(attrs[i - 1].key.as_str(), key) {
            return Some(attr_value_string(&attrs[i - 1]));
        }
        i = i - 1;
    }
    None
}

fn chapter_or_subhead_rend_exec(attrs: &Vec<XmlAttribute>) -> (r: Option<String>)
    ensures
        opt_view(r) == chapter_or_subhead_rend(attrs@),
{
    let n = attrs.len();
    let mut i: usize = 0;
    assert(attrs@.subrange(0, n as int) =~= attrs@);
    while i < n
        invariant
            i <= n == attrs@.len(),
            chapter_or_subhead_rend(attrs@) == chapter_or_subhead_rend(
                attrs@.subrange(i as int, n as int),
            ),
        decreases n - i,
    {
        let ghost rest = attrs@.subrange(i as int, n as int);
        assert(rest[0] == attrs@[i as int]);
        assert(rest.drop_first() =~= attrs@.subrange(i + 1, n as int));
        let v = attr_value_string(&attrs[i]);
        if str_eq(attrs[i].key.as_str(), "rend") && (str_eq(v.as_str(), "chapter") || str_eq(
            v.as_str(),
            "subhead",
        )) {
            return Some(v);
        }
        i = i + 1;
    }
    None
}

/// The trimmed text of a text event.
fn trimmed_event_text(e: &XmlEvent) -> (r: String)
    ensures
        r@ == trim_spec(event_text(*e)),
{
    match &e.text {
        Some(t) => trim_str(t.as_str()).to_string(),
        None => {
            assert(trim_spec(Seq::<char>::empty()) =~= Seq::<char>::empty());
            String::new()
        },
    }
}

/// Whether a string is non-empty and starts with a numeric character.
fn starts_numbered_exec(t: &str) -> (r: bool)
    ensures
        r == starts_numbered(t@),
{
    let v = chars_vec(t);
    v.len() > 0 && is_numeric_char(v[0])
}

/// The vagga title after event `i`: the trimmed text that directly follows a
/// `<head rend="chapter">`, when it starts with a number.
pub open spec fn vagga_title_spec(evs: Seq<XmlEvent>, i: int) -> Option<Seq<char>>
    decreases evs.len() + 1 - i,
{
    if i < 0 || i >= evs.len() {
        None
    } else {
        let e = evs[i];
        if e.kind is Start && e.name@ == "head"@ && has_attr(e.attributes@, "rend"@, "chapter"@) {
            if i + 1 < evs.len() && evs[i + 1].kind is Text && starts_numbered(
                trim_spec(event_text(evs[i + 1])),
            ) {
                Some(trim_spec(event_text(evs[i + 1])))
            } else {
                vagga_title_spec(evs, i + 2)
            }
        } else {
            vagga_title_spec(evs, i + 1)
        }
    }
}

/// The vagga title of a list of events (see `vagga_title_spec`).
pub fn vagga_title_from_events(evs: &Vec<XmlEvent>) -> (r: Option<String>)
    ensures
        opt_view(r) == vagga_title_spec(evs@, 0),
{
    let n = evs.len();
    let mut i: usize = 0;
    while i < n
        invariant
            n == evs@.len(),
            i <= n,
            vagga_title_spec(evs@, 0) == vagga_title_spec(evs@, i as int),
        decreases n + 2 - i,
    {
        let e = &evs[i];
        if e.kind == XmlEventKind::Start && str_eq(e.name.as_str(), "head") && has_attr_exec(
            &e.attributes,
            "rend",
            "chapter",
        ) {
            if i + 1 < n && evs[i + 1].kind == XmlEventKind::Text {
                let t = trimmed_event_text(&evs[i + 1]);
                if starts_numbered_exec(t.as_str()) {
                    return Some(t);
                }
            }
            if n - i <= 2 {
                assert(vagga_title_spec(evs@, i + 2) is None);
                return None;
            }
            i = i + 2;
        } else {
            i = i + 1;
        }
    }
    None
}

/// The number of the first bodytext paragraph from event `i` on: the last `n`
/// attribute of the first `<p>` that has `rend="bodytext"` and an `n`.
pub open spec fn first_paranum_spec(evs: Seq<XmlEvent>, i: int) -> Option<Seq<char>>
    decreases evs.len() - i,
{
    if i < 0 || i >= evs.len() {
        None
    } else {
        let e = evs[i];
        if (e.kind is Start || e.kind is Empty) && e.name@ == "p"@ && has_attr(
            e.attributes@,
            "rend"@,
            "bodytext"@,
        ) && last_attr(e.attributes@, "n"@) is Some {
            last_attr(e.attributes@, "n"@)
        } else {
            first_paranum_spec(evs, i + 1)
        }
    }
}

/// The first paragraph number of a list of events (see `first_paranum_spec`).
pub fn first_paranum_from_events(evs: &Vec<XmlEvent>) -> (r: Option<String>)
    ensures
        opt_view(r) == first_paranum_spec(evs@, 0),
{
    let n = evs.len();
    let mut i: usize = 0;
    while i < n
        invariant
            n == evs@.len(),
            i <= n,
            first_paranum_spec(evs@, 0) == first_paranum_spec(evs@, i as int),
        decreases n - i,
    {
        let e = &evs[i];
        if (e.kind == XmlEventKind::Start || e.kind == XmlEventKind::Empty) && str_eq(
            e.name.as_str(),
            "p",
        ) && has_attr_exec(&e.attributes, "rend", "bodytext") {
            let num = last_attr_exec(&e.attributes, "n");
            if num.is_some() {
                return num;
            }
        }
        i = i + 1;
    }
    None
}

/// The sutta title from event `i` on: the trimmed text right after a `<head>`
/// or `<p>` whose `rend` is `subhead` or `chapter`, when it starts with a
/// number; the first subhead title wins, else the first title of a
/// `<head rend="chapter">` (`chapter` holds the one found so far).
pub open spec fn sutta_title_spec(evs: Seq<XmlEvent>, i: int, chapter: Option<Seq<char>>) -> Option<
    Seq<char>,
>
    decreases evs.len() + 1 - i,
{
    if i < 0 || i >= evs.len() {
        chapter
    } else {
        let e = evs[i];
        if e.kind is Start && (e.name@ == "head"@ || e.name@ == "p"@)
            && chapter_or_subhead_rend(e.attributes@) is Some {
            let rend = chapter_or_subhead_rend(e.attributes@)->0;
            if i + 1 < evs.len() && evs[i + 1].kind is Text && starts_numbered(
                trim_spec(event_text(evs[i + 1])),
            ) {
                let title = trim_spec(event_text(evs[i + 1]));
                if rend == "subhead"@ {
                    Some(title)
                } else if chapter is None && e.name@ == "head"@ {
                    sutta_title_spec(evs, i + 2, Some(title))
                } else {
                    sutta_title_spec(evs, i + 2, chapter)
                }
            } else {
                sutta_title_spec(evs, i + 2, chapter)
            }
        } else {
            sutta_title_spec(evs, i + 1, chapter)
        }
    }
}

/// The sutta title of a list of events (see `sutta_title_spec`).
pub fn sutta_title_from_events(evs: &Vec<XmlEvent>) -> (r: Option<String>)
    ensures
        opt_view(r) == sutta_title_spec(evs@, 0, None),
{
    let n = evs.len();
    let mut i: usize = 0;
    let mut chapter: Option<String> = None;
    while i < n
        invariant
            n == evs@.len(),
            i <= n,
            sutta_title_spec(evs@, 0, None) == sutta_title_spec(evs@, i as int, opt_view(chapter)),
        decreases n + 2 - i,
    {
        let e = &evs[i];
        let is_head = str_eq(e.name.as_str(), "head");
        if e.kind == XmlEventKind::Start && (is_head || str_eq(e.name.as_str(), "p")) {
            if let Some(rend) = chapter_or_subhead_rend_exec(&e.attributes) {
                if i + 1 < n && evs[i + 1].kind == XmlEventKind::Text {
                    let title = trimmed_event_text(&evs[i + 1]);
                    if starts_numbered_exec(title.as_str()) {
                        if str_eq(rend.as_str(), "subhead") {
                            return Some(title);
                        } else if chapter.is_none() && is_head {
                            chapter = Some(title);
                        }
                    }
                }
                if n - i <= 2 {
                    assert(sutta_title_spec(evs@, i + 2, opt_view(chapter)) == opt_view(chapter));
                    return chapter;
                }
                i = i + 2;
                continue;
            }
        }
        i = i + 1;
    }
    chapter
}

/// Attributes with equal views have the same last value for each key.
proof fn lemma_last_attr_congr(a: Seq<XmlAttribute>, b: Seq<XmlAttribute>, key: Seq<char>)
    requires
        attrs_view(a) == attrs_view(b),
    ensures
        last_attr(a, key) == last_attr(b, key),
    decreases a.len(),
{
    lemma_attrs_view_same(a, b);
    if a.len() > 0 {
        assert(attr_view(a[a.len() - 1]) == attr_view(b[b.len() - 1]));
        assert(attrs_view(a.drop_last()) =~= attrs_view(b.drop_last())) by {
            assert forall|i: int| 0 <= i < a.len() - 1 implies attrs_view(a.drop_last())[i]
                == attrs_view(b.drop_last())[i] by {
                assert(attr_view(a[i]) == attr_view(b[i]));
            }
        }
        lemma_last_attr_congr(a.drop_last(), b.drop_last(), key);
    }
}

/// Attributes with equal views have the same `chapter` or `subhead` rend.
proof fn lemma_rend_congr(a: Seq<XmlAttribute>, b: Seq<XmlAttribute>)
    requires
        attrs_view(a) == attrs_view(b),
    ensures
        chapter_or_subhead_rend(a) == chapter_or_subhead_rend(b),
    decreases a.len(),
{
    lemma_attrs_view_same(a, b);
    if a.len() > 0 {
        assert(attr_view(a[0]) == attr_view(b[0]));
        assert(attrs_view(a.drop_first()) =~= attrs_view(b.drop_first())) by {
            assert forall|i: int| 0 <= i < a.len() - 1 implies attrs_view(a.drop_first())[i]
                == attrs_view(b.drop_first())[i] by {
                assert(attr_view(a[i + 1]) == attr_view(b[i + 1]));
            }
        }
        lemma_rend_congr(a.drop_first(), b.drop_first());
    }
}

/// Attributes with equal views answer every question about them alike.
pub(crate) proof fn lemma_attrs_congr(a: Seq<XmlAttribute>, b: Seq<XmlAttribute>)
    requires
        attrs_view(a) == attrs_view(b),
    ensures
        forall|key: Seq<char>, value: Seq<char>| has_attr(a, key, value) == has_attr(b, key, value),
        forall|key: Seq<char>| #[trigger] last_attr(a, key) == last_attr(b, key),
        chapter_or_subhead_rend(a) == chapter_or_subhead_rend(b),
{
    lemma_attrs_view_same(a, b);
    assert forall|key: Seq<char>, value: Seq<char>| has_attr(a, key, value) == has_attr(
        b,
        key,
        value,
    ) by {
        if has_attr(a, key, value) {
            let i = choose|i: int| 0 <= i < a.len() && a[i].key@ == key && attr_val(a[i]) == value;
            assert(attr_view(a[i]) == attr_view(b[i]));
        }
        if has_attr(b, key, value) {
            let i = choose|i: int| 0 <= i < b.len() && b[i].key@ == key && attr_val(b[i]) == value;
            assert(attr_view(a[i]) == attr_view(b[i]));
        }
    }
    assert forall|key: Seq<char>| #[trigger] last_attr(a, key) == last_attr(b, key) by {
        lemma_last_attr_congr(a, b, key);
    }
    lemma_rend_congr(a, b);
}

/// Events with equal views are alike in all that the title and number rules read.
pub(crate) proof fn lemma_event_congr(x: XmlEvent, y: XmlEvent)
    requires
        event_view(x) == event_view(y),
    ensures
        x.kind == y.kind,
        x.name@ == y.name@,
        event_text(x) == event_text(y),
        x.text matches Some(t) ==> y.text matches Some(u) && t@ == u@,
        x.text is None ==> y.text is None,
        forall|key: Seq<char>, value: Seq<char>|
            has_attr(x.attributes@, key, value) == has_attr(y.attributes@, key, value),
        forall|key: Seq<char>| #[trigger]
            last_attr(x.attributes@, key) == last_attr(y.attributes@, key),
        chapter_or_subhead_rend(x.attributes@) == chapter_or_subhead_rend(y.attributes@),
{
    lemma_attrs_congr(x.attributes@, y.attributes@);
}

/// Events with equal views give the same vagga title.
proof fn lemma_vagga_title_congr(a: Seq<XmlEvent>, b: Seq<XmlEvent>, i: int)
    requires
        events_view(a) == events_view(b),
    ensures
        vagga_title_spec(a, i) == vagga_title_spec(b, i),
    decreases a.len() + 1 - i,
{
    lemma_events_view_same(a, b);
    if 0 <= i < a.len() {
        lemma_event_congr(a[i], b[i]);
        if i + 1 < a.len() {
            lemma_event_congr(a[i + 1], b[i + 1]);
        }
        lemma_vagga_title_congr(a, b, i + 1);
        lemma_vagga_title_congr(a, b, i + 2);
    }
}

/// Events with equal views give the same first paragraph number.
proof fn lemma_first_paranum_congr(a: Seq<XmlEvent>, b: Seq<XmlEvent>, i: int)
    requires
        events_view(a) == events_view(b),
    ensures
        first_paranum_spec(a, i) == first_paranum_spec(b, i),
    decreases a.len() - i,
{
    lemma_events_view_same(a, b);
    if 0 <= i < a.len() {
        lemma_event_congr(a[i], b[i]);
        lemma_first_paranum_congr(a, b, i + 1);
    }
}

/// Events with equal views give the same sutta title.
proof fn lemma_sutta_title_congr(
    a: Seq<XmlEvent>,
    b: Seq<XmlEvent>,
    i: int,
    chapter: Option<Seq<char>>,
)
    requires
        events_view(a) == events_view(b),
    ensures
        sutta_title_spec(a, i, chapter) == sutta_title_spec(b, i, chapter),
    decreases a.len() + 1 - i,
{
    lemma_events_view_same(a, b);
    if 0 <= i < a.len() {
        lemma_event_congr(a[i], b[i]);
        if i + 1 < a.len() {
            lemma_event_congr(a[i + 1], b[i + 1]);
            lemma_sutta_title_congr(a, b, i + 2, Some(trim_spec(event_text(a[i + 1]))));
        }
        lemma_sutta_title_congr(a, b, i + 1, chapter);
        lemma_sutta_title_congr(a, b, i + 2, chapter);
    }
}

/// What the XML of a text yields for the CST fields: the vagga title, the
/// sutta title and the first paragraph number of its events (end names checked).
pub open spec fn xml_titles(content: Seq<char>) -> (
    Option<Seq<char>>,
    Option<Seq<char>>,
    Option<Seq<char>>,
) {
    let evs = events_of(content, true);
    (vagga_title_spec(evs, 0), sutta_title_spec(evs, 0, None), first_paranum_spec(evs, 0))
}

/// Events read from a text give what `xml_titles` says.
proof fn lemma_xml_titles(content: Seq<char>, evs: Seq<XmlEvent>)
    requires
        events_view(evs) == xml_events_of(content, true),
    ensures
        xml_titles(content) == (
            vagga_title_spec(evs, 0),
            sutta_title_spec(evs, 0, None),
            first_paranum_spec(evs, 0),
        ),
{
    lemma_events_of(content, true, evs);
    let e = events_of(content, true);
    lemma_vagga_title_congr(e, evs, 0);
    lemma_sutta_title_congr(e, evs, 0, None);
    lemma_first_paranum_congr(e, evs, 0);
}

/// The vagga title in the XML of a fragment (see `xml_titles`).
pub fn extract_vagga_title_from_content(content: &str) -> (r: Option<String>)
    ensures
        opt_view(r) == xml_titles(content@).0,
{
    let evs = read_events(content);
    proof {
        lemma_xml_titles(content@, evs@);
    }
    vagga_title_from_events(&evs)
}

/// The first paragraph number in the XML of a fragment: `first_paranum_spec`
/// of the events that the XML reader gives, up to its end or its first error.
pub fn extract_first_paranum(content: &str) -> (r: Option<String>)
    ensures
        opt_view(r) == xml_titles(content@).2,
{
    let evs = read_events(content);
    proof {
        lemma_xml_titles(content@, evs@);
    }
    first_paranum_from_events(&evs)
}

/// The sutta title in the XML of a fragment: `sutta_title_spec` of the events
/// that the XML reader gives, up to its end or its first error.
pub fn extract_sutta_title_from_content(content: &str) -> (r: Option<String>)
    ensures
        opt_view(r) == xml_titles(content@).1,
{
    let evs = read_events(content);
    proof {
        lemma_xml_titles(content@, evs@);
    }
    sutta_title_from_events(&evs)
}

/// The outermost level of type `t`.
pub open spec fn first_level_of(levels: Seq<GroupLevel>, t: GroupType) -> Option<GroupLevel>
    decreases levels.len(),
{
    if levels.len() == 0 {
        None
    } else if levels[0].group_type == t {
        Some(levels[0])
    } else {
        first_level_of(levels.drop_first(), t)
    }
}

/// The innermost level of type `t`.
pub open spec fn last_level_of(levels: Seq<GroupLevel>, t: GroupType) -> Option<GroupLevel>
    decreases levels.len(),
{
    if levels.len() == 0 {
        None
    } else if levels.last().group_type == t {
        Some(levels.last())
    } else {
        last_level_of(levels.drop_last(), t)
    }
}

fn first_level_index(levels: &Vec<GroupLevel>, t: GroupType) -> (r: Option<usize>)
    ensures
        match r {
            Some(i) => i < levels@.len() && first_level_of(levels@, t) == Some(levels@[i as int]),
            None => first_level_of(levels@, t) is None,
        },
{
    let n = levels.len();
    let mut i: usize = 0;
    assert(levels@.subrange(0, n as int) =~= levels@);
    while i < n
        invariant
            i <= n == levels@.len(),
            first_level_of(levels@, t) == first_level_of(levels@.subrange(i as int, n as int), t),
        decreases n - i,
    {
        let ghost rest = levels@.subrange(i as int, n as int);
        assert(rest[0] == levels@[i as int]);
        assert(rest.drop_first() =~= levels@.subrange(i + 1, n as int));
        if levels[i].group_type == t {
            return Some(i);
        }
        i = i + 1;
    }
    None
}

fn last_level_index(levels: &Vec<GroupLevel>, t: GroupType) -> (r: Option<usize>)
    ensures
        match r {
            Some(i) => i < levels@.len() && last_level_of(levels@, t) == Some(levels@[i as int]),
            None => last_level_of(levels@, t) is None,
        },
{
    let mut i = levels.len();
    assert(levels@.take(i as int) =~= levels@);
    while i > 0
        invariant
            i <= levels@.len(),
            last_level_of(levels@, t) == last_level_of(levels@.take(i as int), t),
        decreases i,
    {
        let ghost pre = levels@.take(i as int);
        assert(pre.last() == levels@[i - 1]);
        assert(pre.drop_last() =~= levels@.take(i - 1));
        if levels[i - 1].group_type == t {
            return Some(i - 1);
        }
        i = i - 1;
    }
    None
}

/// The title of a level, unless it is blank.
pub open spec fn nonblank_title(l: Option<GroupLevel>) -> Option<Seq<char>> {
    match l {
        Some(l) => if trim_spec(l.title@).len() == 0 {
            None
        } else {
            Some(l.title@)
        },
        None => None,
    }
}

fn nonblank_title_at(levels: &Vec<GroupLevel>, i: Option<usize>) -> (r: Option<String>)
    requires
        i matches Some(k) ==> k < levels@.len(),
    ensures
        opt_view(r) == nonblank_title(
            match i {
                Some(k) => Some(levels@[k as int]),
                None => None,
            },
        ),
{
    match i {
        Some(k) => {
            let t = trim_str(levels[k].title.as_str());
            if t.is_empty() {
                None
            } else {
                Some(levels[k].title.clone())
            }
        },
        None => None,
    }
}

/// The CST fields `(cst_file, cst_code, cst_vagga, cst_sutta, cst_paranum)` of a
/// fragment, given what its XML yields: a vagga title, a sutta title and a
/// paragraph number. Only sutta fragments have any but the file. The titles
/// of the levels come first (the innermost levels in a Saṃyutta mūla file,
/// the outermost ones otherwise); the XML fills in where they are missing or
/// blank (for the vagga: in Majjhima for a Saṃyutta mūla file, which never
/// happens, and in any nikaya whose structure has vaggas otherwise).
pub open spec fn cst_fields_spec(
    frag: XmlFragment,
    nikaya: Seq<char>,
    structure: Seq<GroupType>,
    vagga_in_xml: Option<Seq<char>>,
    sutta_in_xml: Option<Seq<char>>,
    paranum_in_xml: Option<Seq<char>>,
) -> (Seq<char>, Option<Seq<char>>, Option<Seq<char>>, Option<Seq<char>>, Option<Seq<char>>) {
    if frag.frag_type != FragmentType::Sutta {
        (frag.cst_file@, None, None, None, None)
    } else {
        let levels = frag.group_levels@;
        let rev = nikaya == "samyutta"@ && ends_with(frag.cst_file@, ".mul.xml"@);
        let vagga = if rev {
            let v = nonblank_title(last_level_of(levels, GroupType::Vagga));
            if v is Some {
                v
            } else if nikaya == "majjhima"@ {
                vagga_in_xml
            } else {
                None
            }
        } else if structure.contains(GroupType::Vagga) {
            let v = nonblank_title(first_level_of(levels, GroupType::Vagga));
            if v is Some {
                v
            } else {
                vagga_in_xml
            }
        } else {
            None
        };
        let from_levels = if rev {
            nonblank_title(last_level_of(levels, GroupType::Sutta))
        } else {
            nonblank_title(first_level_of(levels, GroupType::Sutta))
        };
        let sutta = if from_levels is Some {
            from_levels
        } else {
            sutta_in_xml
        };
        (
            frag.cst_file@,
            derive_cst_code_spec(levels, nikaya, frag.cst_file@, sutta),
            vagga,
            sutta,
            paranum_in_xml,
        )
    }
}

/// The views of a tuple of CST fields.
pub open spec fn fields_view(
    r: (String, Option<String>, Option<String>, Option<String>, Option<String>),
) -> (Seq<char>, Option<Seq<char>>, Option<Seq<char>>, Option<Seq<char>>, Option<Seq<char>>) {
    (r.0@, opt_view(r.1), opt_view(r.2), opt_view(r.3), opt_view(r.4))
}

/// The CST fields of a fragment, given the events of its XML (see `cst_fields_spec`).
pub fn derive_cst_fields_from_events(
    fragment: &XmlFragment,
    nikaya_structure: &NikayaStructure,
    evs: &Vec<XmlEvent>,
) -> (r: (String, Option<String>, Option<String>, Option<String>, Option<String>))
    ensures
        fields_view(r) == cst_fields_spec(
            *fragment,
            nikaya_structure.nikaya@,
            nikaya_structure.levels@,
            vagga_title_spec(evs@, 0),
            sutta_title_spec(evs@, 0, None),
            first_paranum_spec(evs@, 0),
        ),
{
    let cst_file = fragment.cst_file.clone();
    if fragment.frag_type != FragmentType::Sutta {
        return (cst_file, None, None, None, None);
    }
    let nikaya = nikaya_structure.nikaya.as_str();
    let levels = &fragment.group_levels;
    let rev = str_eq(nikaya, "samyutta") && str_ends_with(fragment.cst_file.as_str(), ".mul.xml");
    let cst_vagga = if rev {
        let v = nonblank_title_at(levels, last_level_index(levels, GroupType::Vagga));
        if v.is_some() {
            v
        } else if str_eq(nikaya, "majjhima") {
            vagga_title_from_events(evs)
        } else {
            None
        }
    } else {
        let has_vagga = find_type(&nikaya_structure.levels, GroupType::Vagga).is_some();
        proof {
            if nikaya_structure.levels@.contains(GroupType::Vagga) {
                let k = choose|k: int|
                    0 <= k < nikaya_structure.levels@.len() && nikaya_structure.levels@[k]
                        == GroupType::Vagga;
                crate::hierarchy::lemma_first_index_facts(nikaya_structure.levels@, GroupType::Vagga);
            }
        }
        if has_vagga {
            let v = nonblank_title_at(levels, first_level_index(levels, GroupType::Vagga));
            if v.is_some() {
                v
            } else {
                vagga_title_from_events(evs)
            }
        } else {
            None
        }
    };
    let from_levels = if rev {
        nonblank_title_at(levels, last_level_index(levels, GroupType::Sutta))
    } else {
        nonblank_title_at(levels, first_level_index(levels, GroupType::Sutta))
    };
    let cst_sutta = if from_levels.is_some() {
        from_levels
    } else {
        sutta_title_from_events(evs)
    };
    let cst_paranum = first_paranum_from_events(evs);
    let title: Option<&str> = match &cst_sutta {
        Some(t) => Some(t.as_str()),
        None => None,
    };
    let cst_code = derive_cst_code(fragment, nikaya_structure, title);
    (cst_file, cst_code, cst_vagga, cst_sutta, cst_paranum)
}

/// The CST fields of a fragment: `cst_fields_spec` with what the events that
/// the XML reader gives for its XML yield.
pub fn derive_cst_fields(fragment: &XmlFragment, nikaya_structure: &NikayaStructure) -> (r: (
    String,
    Option<String>,
    Option<String>,
    Option<String>,
    Option<String>,
))
    ensures
        fields_view(r) == cst_fields_spec(
            *fragment,
            nikaya_structure.nikaya@,
            nikaya_structure.levels@,
            xml_titles(fragment.content_xml@).0,
            xml_titles(fragment.content_xml@).1,
            xml_titles(fragment.content_xml@).2,
        ),
{
    let evs = read_events(fragment.content_xml.as_str());
    proof {
        lemma_xml_titles(fragment.content_xml@, evs@);
    }
    derive_cst_fields_from_events(fragment, nikaya_structure, &evs)
}

/// The CST fields of a fragment by the rules of the Saṃyutta mūla parser:
/// always the innermost levels, the vagga title in the XML only for Majjhima,
/// and `derive_cst_code_mula_spec` for the code.
pub open spec fn cst_fields_mula_spec(
    frag: XmlFragment,
    nikaya: Seq<char>,
    vagga_in_xml: Option<Seq<char>>,
    sutta_in_xml: Option<Seq<char>>,
    paranum_in_xml: Option<Seq<char>>,
) -> (Seq<char>, Option<Seq<char>>, Option<Seq<char>>, Option<Seq<char>>, Option<Seq<char>>) {
    if frag.frag_type != FragmentType::Sutta {
        (frag.cst_file@, None, None, None, None)
    } else {
        let levels = frag.group_levels@;
        let v = nonblank_title(last_level_of(levels, GroupType::Vagga));
        let vagga = if v is Some {
            v
        } else if nikaya == "majjhima"@ {
            vagga_in_xml
        } else {
            None
        };
        let from_levels = nonblank_title(last_level_of(levels, GroupType::Sutta));
        let sutta = if from_levels is Some {
            from_levels
        } else {
            sutta_in_xml
        };
        (
            frag.cst_file@,
            derive_cst_code_mula_spec(levels, nikaya, sutta),
            vagga,
            sutta,
            paranum_in_xml,
        )
    }
}

/// The CST fields of a fragment by the Saṃyutta mūla rules, given the events of its XML.
pub fn derive_cst_fields_mula_from_events(
    fragment: &XmlFragment,
    nikaya_structure: &NikayaStructure,
    evs: &Vec<XmlEvent>,
) -> (r: (String, Option<String>, Option<String>, Option<String>, Option<String>))
    ensures
        fields_view(r) == cst_fields_mula_spec(
            *fragment,
            nikaya_structure.nikaya@,
            vagga_title_spec(evs@, 0),
            sutta_title_spec(evs@, 0, None),
            first_paranum_spec(evs@, 0),
        ),
{
    let cst_file = fragment.cst_file.clone();
    if fragment.frag_type != FragmentType::Sutta {
        return (cst_file, None, None, None, None);
    }
    let nikaya = nikaya_structure.nikaya.as_str();
    let levels = &fragment.group_levels;
    let v = nonblank_title_at(levels, last_level_index(levels, GroupType::Vagga));
    let cst_vagga = if v.is_some() {
        v
    } else if str_eq(nikaya, "majjhima") {
        vagga_title_from_events(evs)
    } else {
        None
    };
    let from_levels = nonblank_title_at(levels, last_level_index(levels, GroupType::Sutta));
    let cst_sutta = if from_levels.is_some() {
        from_levels
    } else {
        sutta_title_from_events(evs)
    };
    let cst_paranum = first_paranum_from_events(evs);
    let title: Option<&str> = match &cst_sutta {
        Some(t) => Some(t.as_str()),
        None => None,
    };
    let cst_code = derive_cst_code_mula(fragment, nikaya_structure, title);
    (cst_file, cst_code, cst_vagga, cst_sutta, cst_paranum)
}

/// The CST fields of a fragment by the Saṃyutta mūla rules:
/// `cst_fields_mula_spec` with what the events of its XML yield.
pub fn derive_cst_fields_mula(fragment: &XmlFragment, nikaya_structure: &NikayaStructure) -> (r: (
    String,
    Option<String>,
    Option<String>,
    Option<String>,
    Option<String>,
))
    ensures
        fields_view(r) == cst_fields_mula_spec(
            *fragment,
            nikaya_structure.nikaya@,
            xml_titles(fragment.content_xml@).0,
            xml_titles(fragment.content_xml@).1,
            xml_titles(fragment.content_xml@).2,
        ),
{
    let evs = read_events(fragment.content_xml.as_str());
    proof {
        lemma_xml_titles(fragment.content_xml@, evs@);
    }
    derive_cst_fields_mula_from_events(fragment, nikaya_structure, &evs)
}

} // verus!
