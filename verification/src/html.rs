//! The HTML form of a fragment's XML: paragraphs, highlights, notes, page
//! breaks, headings, divisions and trailers become HTML elements with CSS
//! classes; text is escaped.

use vstd::prelude::*;
use vstd::string::*;
use crate::content::{last_attr, last_attr_exec, lemma_event_congr};
use crate::text::{opt_view, str_eq};
use crate::tsv::strings_view;
use crate::types::ParserError;
use crate::xml_events::{
    event_view, events_view, lemma_events_view_same, lemma_lenient_events_of, lenient_events_of, read_events_lenient,
    XmlAttribute, XmlEvent, XmlEventKind,
};
use regex::Regex;

verus! {

/// The value of the last attribute with the key, or `default`.
pub open spec fn attr_or(attrs: Seq<XmlAttribute>, key: Seq<char>, default: Seq<char>) -> Seq<char> {
    match last_attr(attrs, key) {
        Some(v) => v,
        None => default,
    }
}

/// The CSS class of a paragraph with the given `rend`.
pub open spec fn paragraph_class(rend: Seq<char>) -> Seq<char> {
    if rend == "centre"@ || rend == "center"@ {
        "centered"@
    } else {
        rend
    }
}

/// The empty span that marks a page break (`ed` and `n` attributes).
pub open spec fn pagebreak_span(attrs: Seq<XmlAttribute>) -> Seq<char> {
    "<span class=\"pagebreak\" data-ed=\""@ + attr_or(attrs, "ed"@, Seq::empty())
        + "\" data-n=\""@ + attr_or(attrs, "n"@, Seq::empty()) + "\"></span>"@
}

/// The HTML heading element of a `head` with the given `rend`.
pub open spec fn heading_tag(rend: Seq<char>) -> Seq<char> {
    if rend == "chapter"@ || rend == "book"@ {
        "h2"@
    } else if rend == "subsubhead"@ {
        "h4"@
    } else {
        "h3"@
    }
}

/// The opening tag of a `div` (its `type` as class and its `id`, when given).
pub open spec fn div_open(attrs: Seq<XmlAttribute>) -> Seq<char> {
    let t = attr_or(attrs, "type"@, Seq::empty());
    let id = attr_or(attrs, "id"@, Seq::empty());
    if t.len() == 0 {
        "<div>"@
    } else if id.len() == 0 {
        "<div class=\""@ + t + "\">"@
    } else {
        "<div class=\""@ + t + "\" id=\""@ + id + "\">"@
    }
}

/// `html_escape::encode_text` of one character.
pub open spec fn escaped_char(c: char) -> Seq<char> {
    if c == '&' {
        "&amp;"@
    } else if c == '<' {
        "&lt;"@
    } else if c == '>' {
        "&gt;"@
    } else {
        seq![c]
    }
}

/// `html_escape::encode_text`: `&`, `<` and `>` escaped.
pub open spec fn escaped_text(s: Seq<char>) -> Seq<char>
    decreases s.len(),
{
    if s.len() == 0 {
        s
    } else {
        escaped_text(s.drop_last()) + escaped_char(s.last())
    }
}

/// The state of the conversion: the HTML so far, the paragraph number to put
/// before the next text, and the closing tags of open headings, divisions and
/// trailers.
pub type HtmlState = (Seq<char>, Option<Seq<char>>, Seq<Seq<char>>);

/// What a start tag does.
pub open spec fn start_step(st: HtmlState, e: XmlEvent) -> HtmlState {
    let (html, pending, stack) = st;
    let attrs = e.attributes@;
    let name = e.name@;
    if name == "p"@ {
        let rend = attr_or(attrs, "rend"@, "bodytext"@);
        (html + "<p class=\""@ + paragraph_class(rend) + "\">"@, last_attr(attrs, "n"@), stack)
    } else if name == "hi"@ {
        (html + "<span class=\""@ + attr_or(attrs, "rend"@, "bold"@) + "\">"@, pending, stack)
    } else if name == "note"@ {
        (html + "<span class=\"note\">["@, pending, stack)
    } else if name == "pb"@ {
        (html + pagebreak_span(attrs), pending, stack)
    } else if name == "head"@ {
        let rend = attr_or(attrs, "rend"@, Seq::empty());
        let tag = heading_tag(rend);
        (html + "<"@ + tag + " class=\""@ + rend + "\">"@, pending, stack.push(tag))
    } else if name == "div"@ {
        (html + div_open(attrs), pending, stack.push("div"@))
    } else if name == "trailer"@ {
        (html + "<p class=\""@ + attr_or(attrs, "rend"@, "trailer"@) + "\">"@, pending, stack.push(
            "p"@,
        ))
    } else {
        st
    }
}

/// What an end tag does: a heading, division or trailer closes the last open
/// one (or, when none is open, the element its own name gives).
pub open spec fn end_step(st: HtmlState, e: XmlEvent) -> HtmlState {
    let (html, pending, stack) = st;
    let name = e.name@;
    if name == "p"@ {
        (html + "</p>\n"@, None, stack)
    } else if name == "hi"@ {
        (html + "</span>"@, pending, stack)
    } else if name == "note"@ {
        (html + "]</span>"@, pending, stack)
    } else if name == "head"@ || name == "div"@ || name == "trailer"@ {
        if stack.len() > 0 {
            (html + "</"@ + stack.last() + ">\n"@, pending, stack.drop_last())
        } else if name == "head"@ {
            (html + "</h3>\n"@, pending, stack)
        } else if name == "div"@ {
            (html + "</div>\n"@, pending, stack)
        } else {
            (html + "</p>\n"@, pending, stack)
        }
    } else {
        st
    }
}

/// What a text does: the pending paragraph number first, then the escaped text.
pub open spec fn text_step(st: HtmlState, e: XmlEvent) -> HtmlState {
    let (html, pending, stack) = st;
    let text = match e.text {
        Some(t) => t@,
        None => Seq::empty(),
    };
    let num = match pending {
        Some(n) => "<span class=\"paranum\">"@ + n + "</span> "@,
        None => Seq::empty(),
    };
    (html + num + escaped_text(text), None, stack)
}

/// What one event does.
pub open spec fn html_step(st: HtmlState, e: XmlEvent) -> HtmlState {
    match e.kind {
        XmlEventKind::Start => start_step(st, e),
        XmlEventKind::End => end_step(st, e),
        XmlEventKind::Text => text_step(st, e),
        XmlEventKind::Empty => if e.name@ == "pb"@ {
            (st.0 + pagebreak_span(e.attributes@), st.1, st.2)
        } else {
            st
        },
        _ => st,
    }
}

/// The state after a sequence of events, from an empty one.
pub open spec fn html_run(events: Seq<XmlEvent>) -> HtmlState
    decreases events.len(),
{
    if events.len() == 0 {
        (Seq::empty(), None, Seq::empty())
    } else {
        html_step(html_run(events.drop_last()), events.last())
    }
}

/// A `head` whose `rend` is "book" or "chapter" becomes an `h2` element: its
/// start tag, text and end tag, from any state with no paragraph number
/// waiting, add `<h2 class="{rend}">`, the escaped text and `</h2>` with a
/// newline, and leave the open elements as they were.
pub proof fn law_book_and_chapter_heads_are_h2(st: HtmlState, s: XmlEvent, t: XmlEvent, e: XmlEvent)
    requires
        s.kind is Start,
        s.name@ == "head"@,
        last_attr(s.attributes@, "rend"@) == Some("book"@) || last_attr(s.attributes@, "rend"@)
            == Some("chapter"@),
        t.kind is Text,
        t.text is Some,
        e.kind is End,
        e.name@ == "head"@,
        st.1 is None,
    ensures
        ({
            let rend = last_attr(s.attributes@, "rend"@)->0;
            let out = html_step(html_step(html_step(st, s), t), e);
            &&& out.0 == st.0 + "<h2 class=\""@ + rend + "\">"@ + escaped_text(t.text->0@)
                + "</h2>\n"@
            &&& out.2 == st.2
        }),
{
    reveal_strlit("head");
    reveal_strlit("p");
    reveal_strlit("hi");
    reveal_strlit("note");
    reveal_strlit("pb");
    reveal_strlit("book");
    reveal_strlit("chapter");
    reveal_strlit("subsubhead");
    reveal_strlit("h2");
    let rend = last_attr(s.attributes@, "rend"@)->0;
    assert(attr_or(s.attributes@, "rend"@, Seq::empty()) == rend);
    assert(heading_tag(rend) == "h2"@);
    let s1 = html_step(st, s);
    assert("head"@.len() == 4 && "p"@.len() == 1 && "hi"@.len() == 2 && "pb"@.len() == 2);
    assert("head"@[0] == 'h' && "note"@[0] == 'n');
    assert(s.name@ != "p"@ && s.name@ != "hi"@ && s.name@ != "note"@ && s.name@ != "pb"@);
    assert("book"@.len() == 4 && "chapter"@.len() == 7 && "subsubhead"@.len() == 10);
    assert("book"@[0] == 'b' && "chapter"@[0] == 'c');
    assert(s1.0 == st.0 + "<"@ + "h2"@ + " class=\""@ + rend + "\">"@);
    assert(s1.1 == st.1);
    assert(s1.2 == st.2.push("h2"@));
    let s2 = html_step(s1, t);
    assert(s2.0 == s1.0 + Seq::<char>::empty() + escaped_text(t.text->0@));
    assert(s2.2 == s1.2);
    let s3 = html_step(s2, e);
    assert(s2.2.last() == "h2"@);
    assert(s2.2.drop_last() =~= st.2);
    assert(s3.0 == s2.0 + "</"@ + "h2"@ + ">\n"@);
    reveal_strlit("<");
    reveal_strlit(" class=\"");
    reveal_strlit("\">");
    reveal_strlit("</");
    reveal_strlit(">\n");
    reveal_strlit("<h2 class=\"");
    reveal_strlit("</h2>\n");
    assert(s3.0 =~= st.0 + "<h2 class=\""@ + rend + "\">"@ + escaped_text(t.text->0@) + "</h2>\n"@);
}

/// The number of newlines a text starts with.
pub open spec fn leading_newlines(s: Seq<char>) -> nat
    decreases s.len(),
{
    if s.len() > 0 && s[0] == '\n' {
        1 + leading_newlines(s.drop_first())
    } else {
        0
    }
}

/// A text starts with no more newlines than it has characters.
pub proof fn lemma_leading_newlines_bound(s: Seq<char>)
    ensures
        leading_newlines(s) <= s.len(),
    decreases s.len(),
{
    if s.len() > 0 && s[0] == '\n' {
        lemma_leading_newlines_bound(s.drop_first());
    }
}

/// Each run of three or more newlines replaced by two (one blank line).
pub open spec fn blank_lines_collapsed(s: Seq<char>) -> Seq<char>
    decreases s.len(),
{
    if s.len() == 0 {
        s
    } else {
        let k = leading_newlines(s);
        proof {
            lemma_leading_newlines_bound(s);
        }
        if k >= 3 {
            "\n\n"@ + blank_lines_collapsed(s.skip(k as int))
        } else if k > 0 {
            s.take(k as int) + blank_lines_collapsed(s.skip(k as int))
        } else {
            seq![s[0]] + blank_lines_collapsed(s.skip(1))
        }
    }
}

/// `html_escape::encode_text`: every `&`, `<` and `>` escaped.
#[verifier::external_body]
fn encode_text(text: &str) -> (r: String)
    ensures
        r@ == escaped_text(text@),
{
    html_escape::encode_text(text).into_owned()
}

/// `Regex::replace_all` with the pattern `\n{3,}` and the replacement "\n\n":
/// each (maximal, the pattern being greedy) run of three or more newlines
/// becomes two.
#[verifier::external_body]
fn replace_newline_runs(text: &str) -> (r: String)
    ensures
        r@ == blank_lines_collapsed(text@),
{
    Regex::new(r"\n{3,}").unwrap().replace_all(text, "\n\n").into_owned()
}

fn attr_or_exec(attrs: &Vec<XmlAttribute>, key: &str, default: &str) -> (r: String)
    ensures
        r@ == attr_or(attrs@, key@, default@),
{
    match last_attr_exec(attrs, key) {
        Some(v) => v,
        None => String::from_str(default),
    }
}

fn push_pagebreak(html: &mut String, attrs: &Vec<XmlAttribute>)
    ensures
        final(html)@ == old(html)@ + pagebreak_span(attrs@),
{
    proof {
        reveal_strlit("");
        assert(""@ =~= Seq::<char>::empty());
    }
    let ed = attr_or_exec(attrs, "ed", "");
    let n = attr_or_exec(attrs, "n", "");
    html.append("<span class=\"pagebreak\" data-ed=\"");
    html.append(ed.as_str());
    html.append("\" data-n=\"");
    html.append(n.as_str());
    html.append("\"></span>");
    assert(html@ =~= old(html)@ + pagebreak_span(attrs@));
}

fn push_paragraph_open(html: &mut String, rend: &String)
    ensures
        final(html)@ == old(html)@ + "<p class=\""@ + paragraph_class(rend@) + "\">"@,
{
    html.append("<p class=\"");
    if str_eq(rend.as_str(), "centre") || str_eq(rend.as_str(), "center") {
        html.append("centered");
    } else {
        html.append(rend.as_str());
    }
    html.append("\">");
    assert(html@ =~= old(html)@ + "<p class=\""@ + paragraph_class(rend@) + "\">"@);
}

fn push_class_open(html: &mut String, open: &str, class: &str)
    ensures
        final(html)@ == old(html)@ + open@ + class@ + "\">"@,
{
    html.append(open);
    html.append(class);
    html.append("\">");
    assert(html@ =~= old(html)@ + open@ + class@ + "\">"@);
}

fn push_div_open(html: &mut String, attrs: &Vec<XmlAttribute>)
    ensures
        final(html)@ == old(html)@ + div_open(attrs@),
{
    proof {
        reveal_strlit("");
        assert(""@ =~= Seq::<char>::empty());
    }
    let t = attr_or_exec(attrs, "type", "");
    let id = attr_or_exec(attrs, "id", "");
    if t.as_str().is_empty() {
        html.append("<div>");
    } else if id.as_str().is_empty() {
        push_class_open(html, "<div class=\"", t.as_str());
    } else {
        html.append("<div class=\"");
        html.append(t.as_str());
        html.append("\" id=\"");
        html.append(id.as_str());
        html.append("\">");
        assert(html@ =~= old(html)@ + div_open(attrs@));
    }
}

fn push_string(stack: &mut Vec<String>, s: &str)
    ensures
        strings_view(final(stack)@) == strings_view(old(stack)@).push(s@),
{
    stack.push(String::from_str(s));
    assert(strings_view(stack@) =~= strings_view(old(stack)@).push(s@));
}

fn apply_start(html: &mut String, pending: &mut Option<String>, stack: &mut Vec<String>, e: &XmlEvent)
    ensures
        (final(html)@, opt_view(*final(pending)), strings_view(final(stack)@)) == start_step(
            (old(html)@, opt_view(*old(pending)), strings_view(old(stack)@)),
            *e,
        ),
{
    proof {
        reveal_strlit("");
        assert(""@ =~= Seq::<char>::empty());
    }
    let name = e.name.as_str();
    if str_eq(name, "p") {
        let rend = attr_or_exec(&e.attributes, "rend", "bodytext");
        push_paragraph_open(html, &rend);
        *pending = last_attr_exec(&e.attributes, "n");
    } else if str_eq(name, "hi") {
        let rend = attr_or_exec(&e.attributes, "rend", "bold");
        push_class_open(html, "<span class=\"", rend.as_str());
    } else if str_eq(name, "note") {
        html.append("<span class=\"note\">[");
    } else if str_eq(name, "pb") {
        push_pagebreak(html, &e.attributes);
    } else if str_eq(name, "head") {
        let rend = attr_or_exec(&e.attributes, "rend", "");
        let tag = if str_eq(rend.as_str(), "chapter") || str_eq(rend.as_str(), "book") {
            "h2"
        } else if str_eq(rend.as_str(), "subsubhead") {
            "h4"
        } else {
            "h3"
        };
        assert(tag@ == heading_tag(rend@));
        html.append("<");
        html.append(tag);
        push_class_open(html, " class=\"", rend.as_str());
        assert(html@ =~= old(html)@ + "<"@ + tag@ + " class=\""@ + rend@ + "\">"@);
        push_string(stack, tag);
    } else if str_eq(name, "div") {
        push_div_open(html, &e.attributes);
        push_string(stack, "div");
    } else if str_eq(name, "trailer") {
        let rend = attr_or_exec(&e.attributes, "rend", "trailer");
        push_class_open(html, "<p class=\"", rend.as_str());
        push_string(stack, "p");
    }
}

fn apply_end(html: &mut String, pending: &mut Option<String>, stack: &mut Vec<String>, e: &XmlEvent)
    ensures
        (final(html)@, opt_view(*final(pending)), strings_view(final(stack)@)) == end_step(
            (old(html)@, opt_view(*old(pending)), strings_view(old(stack)@)),
            *e,
        ),
{
    let name = e.name.as_str();
    if str_eq(name, "p") {
        html.append("</p>\n");
        *pending = None;
    } else if str_eq(name, "hi") {
        html.append("</span>");
    } else if str_eq(name, "note") {
        html.append("]</span>");
    } else if str_eq(name, "head") || str_eq(name, "div") || str_eq(name, "trailer") {
        let ghost sv = strings_view(stack@);
        match stack.pop() {
            Some(tag) => {
                assert(strings_view(stack@) =~= sv.drop_last());
                html.append("</");
                html.append(tag.as_str());
                html.append(">\n");
                assert(html@ =~= old(html)@ + "</"@ + sv.last() + ">\n"@);
            },
            None => {
                if str_eq(name, "head") {
                    html.append("</h3>\n");
                } else if str_eq(name, "div") {
                    html.append("</div>\n");
                } else {
                    html.append("</p>\n");
                }
            },
        }
    }
}

fn apply_text(html: &mut String, pending: &mut Option<String>, e: &XmlEvent)
    ensures
        (final(html)@, opt_view(*final(pending))) == ({
            let st = text_step((old(html)@, opt_view(*old(pending)), Seq::empty()), *e);
            (st.0, st.1)
        }),
{
    match pending {
        Some(n) => {
            html.append("<span class=\"paranum\">");
            html.append(n.as_str());
            html.append("</span> ");
        },
        None => {},
    }
    let ghost mid = html@;
    *pending = None;
    match &e.text {
        Some(t) => {
            let esc = encode_text(t.as_str());
            html.append(esc.as_str());
        },
        None => {
            assert(escaped_text(Seq::<char>::empty()) =~= Seq::<char>::empty());
            assert(html@ =~= mid + escaped_text(Seq::<char>::empty()));
        },
    }
    let ghost want = text_step((old(html)@, opt_view(*old(pending)), Seq::empty()), *e);
    assert(html@ =~= want.0);
}

/// Applies one event to the state (see `html_step`).
fn apply_event(
    html: &mut String,
    pending: &mut Option<String>,
    stack: &mut Vec<String>,
    e: &XmlEvent,
)
    ensures
        (final(html)@, opt_view(*final(pending)), strings_view(final(stack)@)) == html_step(
            (old(html)@, opt_view(*old(pending)), strings_view(old(stack)@)),
            *e,
        ),
{
    match e.kind {
        XmlEventKind::Start => apply_start(html, pending, stack, e),
        XmlEventKind::End => apply_end(html, pending, stack, e),
        XmlEventKind::Text => apply_text(html, pending, e),
        XmlEventKind::Empty => {
            if str_eq(e.name.as_str(), "pb") {
                push_pagebreak(html, &e.attributes);
            }
        },
        _ => {},
    }
}

/// The HTML of a sequence of XML events (see `html_run`), before blank
/// lines are collapsed.
pub fn html_from_events(events: &Vec<XmlEvent>) -> (r: String)
    ensures
        r@ == html_run(events@).0,
{
    let mut html = String::new();
    let mut pending: Option<String> = None;
    let mut stack: Vec<String> = Vec::new();
    let mut i: usize = 0;
    assert(strings_view(stack@) =~= Seq::<Seq<char>>::empty());
    while i < events.len()
        invariant
            i <= events@.len(),
            (html@, opt_view(pending), strings_view(stack@)) == html_run(events@.take(i as int)),
        decreases events@.len() - i,
    {
        assert(events@.take(i + 1).drop_last() =~= events@.take(i as int));
        apply_event(&mut html, &mut pending, &mut stack, &events[i]);
        i = i + 1;
    }
    assert(events@.take(events@.len() as int) =~= events@);
    html
}

/// Events with equal views take a conversion state to the same state.
proof fn lemma_html_step_congr(st: HtmlState, x: XmlEvent, y: XmlEvent)
    requires
        event_view(x) == event_view(y),
    ensures
        html_step(st, x) == html_step(st, y),
{
    lemma_event_congr(x, y);
}

/// Events with equal views convert to the same HTML.
proof fn lemma_html_run_congr(a: Seq<XmlEvent>, b: Seq<XmlEvent>)
    requires
        events_view(a) == events_view(b),
    ensures
        html_run(a) == html_run(b),
    decreases a.len(),
{
    lemma_events_view_same(a, b);
    if a.len() > 0 {
        assert(events_view(a.drop_last()) =~= events_view(b.drop_last())) by {
            assert forall|i: int| 0 <= i < a.len() - 1 implies events_view(a.drop_last())[i]
                == events_view(b.drop_last())[i] by {
                assert(event_view(a[i]) == event_view(b[i]));
            }
        }
        lemma_html_run_congr(a.drop_last(), b.drop_last());
        lemma_html_step_congr(html_run(a.drop_last()), a.last(), b.last());
    }
}

/// Each run of three or more newlines replaced by two.
pub fn normalize_blank_lines(text: &str) -> (r: String)
    ensures
        r@ == blank_lines_collapsed(text@),
{
    replace_newline_runs(text)
}

/// The HTML of a fragment's XML: its events (read without checking end tags
/// against start tags, going on after a reading error, see
/// `lenient_xml_events`) converted (see `html_from_events`), then blank lines
/// collapsed.
pub fn xml_to_html(xml_content: &str) -> (r: Result<String, ParserError>)
    ensures
        r matches Ok(h) && h@ == blank_lines_collapsed(html_run(lenient_events_of(xml_content@, false)).0),
{
    let events = read_events_lenient(xml_content, false);
    proof {
        lemma_lenient_events_of(xml_content@, false, events@);
        lemma_html_run_congr(lenient_events_of(xml_content@, false), events@);
    }
    let html = html_from_events(&events);
    Ok(normalize_blank_lines(html.as_str()))
}

} // verus!
