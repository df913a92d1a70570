//! XML events read with `quick_xml`, converted to plain values.
//!
//! Nothing is assumed of what the reader hands back: the positions of the
//! events are checked here before any text is sliced with them.

use vstd::prelude::*;
use vstd::string::*;
use vstd::utf8::*;
use quick_xml::events::Event;
use quick_xml::Reader;

verus! {

/// `quick_xml::Reader`, carried through without looking inside.
#[verifier::external_type_specification]
#[verifier::external_body]
#[verifier::reject_recursive_types(R)]
pub struct ExXmlReader<R>(Reader<R>);

/// `quick_xml::events::Event`, carried through without looking inside.
#[verifier::external_type_specification]
#[verifier::external_body]
pub struct ExXmlEvent<'a>(Event<'a>);

/// Kind of an XML event.
#[derive(Debug, Clone, Copy, PartialEq, Eq, Structural)]
pub enum XmlEventKind {
    Start,
    Empty,
    End,
    Text,
    Eof,
    Other,
}

/// An attribute of an element; `value` is `None` when it could not be unescaped.
#[derive(Debug, Clone)]
pub struct XmlAttribute {
    pub key: String,
    pub value: Option<String>,
}

/// One XML event with the byte range `[start, end)` it covers in the input.
#[derive(Debug)]
pub struct XmlEvent {
    pub kind: XmlEventKind,
    /// Element name (start, empty and end events).
    pub name: String,
    /// Attributes that could be read (start and empty events).
    pub attributes: Vec<XmlAttribute>,
    /// False when an attribute could not be read.
    pub attributes_ok: bool,
    /// Unescaped text of a text event; `None` when it could not be unescaped.
    pub text: Option<String>,
    pub start: usize,
    pub end: usize,
}

/// A reader over `content` that keeps whitespace text and does not expand
/// empty elements (`Reader::from_str`, `trim_text(false)`,
/// `expand_empty_elements(false)`, `check_end_names(check_end_names)`).
#[verifier::external_body]
pub(crate) fn new_xml_reader<'a>(content: &'a str, check_end_names: bool) -> Reader<&'a [u8]> {
    let mut reader = Reader::from_str(content);
    reader.trim_text(false);
    reader.expand_empty_elements(false);
    reader.check_end_names(check_end_names);
    reader
}

/// The kind of an event.
#[verifier::external_body]
fn raw_event_kind<'a>(ev: &Event<'a>) -> XmlEventKind {
    match ev {
        Event::Start(_) => XmlEventKind::Start,
        Event::Empty(_) => XmlEventKind::Empty,
        Event::End(_) => XmlEventKind::End,
        Event::Text(_) => XmlEventKind::Text,
        Event::Eof => XmlEventKind::Eof,
        _ => XmlEventKind::Other,
    }
}

/// The element name of a start, empty or end event (`None` when it is not
/// UTF-8); empty for other events.
#[verifier::external_body]
fn raw_event_name<'a>(ev: &Event<'a>) -> Option<String> {
    let name = match ev {
        Event::Start(e) | Event::Empty(e) => e.name(),
        Event::End(e) => e.name(),
        _ => return Some(String::new()),
    };
    match std::str::from_utf8(name.as_ref()) {
        Ok(s) => Some(s.to_string()),
        Err(_) => None,
    }
}

/// The attributes of a start or empty event, and whether all of them could be read.
#[verifier::external_body]
fn raw_event_attributes<'a>(ev: &Event<'a>) -> (Vec<XmlAttribute>, bool) {
    let mut out = Vec::new();
    let mut ok = true;
    if let Event::Start(e) | Event::Empty(e) = ev {
        for a in e.attributes() {
            match a {
                Ok(a) => match std::str::from_utf8(a.key.as_ref()) {
                    Ok(k) => out.push(XmlAttribute { key: k.to_string(), value: match a.unescape_value() { Ok(v) => Some(v.into_owned()), Err(_) => None } }),
                    Err(_) => ok = false,
                },
                Err(_) => ok = false,
            }
        }
    }
    (out, ok)
}

/// The unescaped text of a text event (`None` when it cannot be unescaped or is no text).
#[verifier::external_body]
fn raw_event_text<'a>(ev: &Event<'a>) -> Option<String> {
    match ev {
        Event::Text(t) => match t.unescape() {
            Ok(s) => Some(s.into_owned()),
            Err(_) => None,
        },
        _ => None,
    }
}

/// What one call of `Reader::read_event` gives, converted: the event's kind,
/// its element name (`None` when it is not UTF-8; empty for an event without
/// a name), its attributes, whether all of them could be read, its unescaped
/// text (`None` for an event that is no text or a text that cannot be
/// unescaped), and the reader's buffer position after the call.
#[derive(Debug)]
pub struct RawStep {
    pub kind: XmlEventKind,
    pub name: Option<String>,
    pub attributes: Vec<XmlAttribute>,
    pub attributes_ok: bool,
    pub text: Option<String>,
    pub position: usize,
}

/// A call of `Reader::read_event` as plain values (see `RawStep`).
pub type StepView = (
    XmlEventKind,
    Option<Seq<char>>,
    Seq<(Seq<char>, Option<Seq<char>>)>,
    bool,
    Option<Seq<char>>,
    nat,
);

pub open spec fn step_view(s: RawStep) -> StepView {
    (
        s.kind,
        match s.name {
            Some(n) => Some(n@),
            None => None,
        },
        attrs_view(s.attributes@),
        s.attributes_ok,
        match s.text {
            Some(t) => Some(t@),
            None => None,
        },
        s.position as nat,
    )
}

/// What call number `k` (counting from 0) of `Reader::read_event` gives on a
/// reader over a text (whitespace kept, empty elements not expanded, end
/// names checked or not), converted (see `RawStep`); when that call fails,
/// the reader's buffer position after it. The reader is deterministic: the
/// result depends on the text, the setting and `k` alone.
pub uninterp spec fn xml_read_step(content: Seq<char>, check_end_names: bool, k: nat) -> Result<StepView, nat>;

/// `Reader::read_event` on the tokenizer's reader, the event converted (see
/// `RawStep`); on an error, `Reader::buffer_position` after the call. Only
/// `XmlTokenizer::new` builds a tokenizer, with a fresh reader over its text,
/// and only this function reads from that reader, one call each time: the
/// call is the one numbered `calls`.
#[verifier::external_body]
fn read_step<'a>(tok: &mut XmlTokenizer<'a>) -> (r: Result<RawStep, usize>)
    ensures
        final(tok).content == old(tok).content,
        final(tok).check_end_names == old(tok).check_end_names,
        final(tok).pos == old(tok).pos,
        final(tok).done == old(tok).done,
        final(tok).calls@ == old(tok).calls@ + 1,
        match r {
            Ok(st) => xml_read_step(old(tok).content@, old(tok).check_end_names, old(tok).calls@)
                == Ok::<StepView, nat>(step_view(st)),
            Err(p) => xml_read_step(old(tok).content@, old(tok).check_end_names, old(tok).calls@)
                == Err::<StepView, nat>(p as nat),
        },
{
    let ev = match tok.reader.read_event() {
        Ok(ev) => ev,
        Err(_) => return Err(tok.reader.buffer_position()),
    };
    let (attributes, attributes_ok) = raw_event_attributes(&ev);
    let kind = raw_event_kind(&ev);
    let name = raw_event_name(&ev);
    let text = raw_event_text(&ev);
    Ok(RawStep { kind, name, attributes, attributes_ok, text, position: tok.reader.buffer_position() })
}

/// A call that moves the reader forward from byte `pos`: to a later position
/// of the text that starts a character.
pub open spec fn step_advances(content: Seq<char>, s: StepView, pos: nat) -> bool {
    pos < s.5 <= encode_utf8(content).len() && is_char_boundary(encode_utf8(content), s.5 as int)
}

/// The event of a call, as the tokenizer gives it.
pub open spec fn step_event(s: StepView) -> EventView {
    (s.0, s.1->0, s.2, s.3, s.4)
}

/// The events the reader gives from call `k` on, standing at byte `pos`: up
/// to the end of the text, a failed call, an element name that is not UTF-8,
/// or a position that does not move forward to a character boundary; the
/// end event is not included.
pub open spec fn events_from(content: Seq<char>, check_end_names: bool, k: nat, pos: nat) -> Seq<
    EventView,
>
    decreases encode_utf8(content).len() - pos,
{
    match xml_read_step(content, check_end_names, k) {
        Ok(s) => if !(s.0 is Eof) && s.1 is Some && step_advances(content, s, pos) {
            seq![step_event(s)] + events_from(content, check_end_names, k + 1, s.5)
        } else {
            Seq::empty()
        },
        Err(_) => Seq::empty(),
    }
}

/// A failed call that leaves the reader further on, at a character boundary.
pub open spec fn failure_moves(content: Seq<char>, p: nat, pos: nat) -> bool {
    pos < p <= encode_utf8(content).len() && is_char_boundary(encode_utf8(content), p as int)
}

/// The event of a call, an element name that is not UTF-8 read as empty.
pub open spec fn lenient_event(s: StepView) -> EventView {
    (
        s.0,
        match s.1 {
            Some(n) => n,
            None => Seq::empty(),
        },
        s.2,
        s.3,
        s.4,
    )
}

/// The events read from call `k` on, standing at byte `pos`, going on after
/// errors: a failed call is passed over when it left the reader further on
/// at a character boundary, and an element name that is not UTF-8 is read
/// as empty. The reading stops at the end of the text, at a failed call that
/// leaves the reader where it was, or at an event that does not move forward
/// to a character boundary; the end event is not included.
pub open spec fn lenient_events_from(content: Seq<char>, check_end_names: bool, k: nat, pos: nat) -> Seq<
    EventView,
>
    decreases encode_utf8(content).len() - pos,
{
    match xml_read_step(content, check_end_names, k) {
        Ok(s) => if !(s.0 is Eof) && step_advances(content, s, pos) {
            seq![lenient_event(s)] + lenient_events_from(content, check_end_names, k + 1, s.5)
        } else {
            Seq::empty()
        },
        Err(p) => if failure_moves(content, p, pos) {
            lenient_events_from(content, check_end_names, k + 1, p)
        } else {
            Seq::empty()
        },
    }
}

/// An event the parsers can take: all attributes read, every attribute value
/// unescaped, and the text of a text event unescaped.
pub open spec fn event_clean(s: StepView) -> bool {
    &&& s.3
    &&& forall|i: int| 0 <= i < s.2.len() ==> (#[trigger] s.2[i]).1 is Some
    &&& s.0 is Text ==> s.4 is Some
}

/// The reader goes from call `k` at byte `pos` to the end of the text: every
/// call succeeds with a UTF-8 name, every event before the end moves forward
/// to a character boundary and is clean (see `event_clean`).
pub open spec fn reads_cleanly_from(content: Seq<char>, check_end_names: bool, k: nat, pos: nat) -> bool
    decreases encode_utf8(content).len() - pos,
{
    match xml_read_step(content, check_end_names, k) {
        Ok(s) => if s.0 is Eof {
            s.1 is Some
        } else {
            s.1 is Some && step_advances(content, s, pos) && event_clean(s) && reads_cleanly_from(
                content,
                check_end_names,
                k + 1,
                s.5,
            )
        },
        Err(_) => false,
    }
}

/// The reader reads a whole text cleanly (see `reads_cleanly_from`).
pub open spec fn reads_cleanly(content: Seq<char>, check_end_names: bool) -> bool {
    reads_cleanly_from(content, check_end_names, 0, 0)
}

/// A streaming tokenizer that checks the positions the reader reports.
pub struct XmlTokenizer<'a> {
    reader: Reader<&'a [u8]>,
    content: &'a str,
    check_end_names: bool,
    /// The calls of `read_event` made so far.
    calls: Ghost<nat>,
    /// Byte position where the next event starts.
    pos: usize,
    /// Set once the end of the input was read.
    done: bool,
}

/// Well-formed event: a non-empty range of the input between character boundaries,
/// or an end-of-input event.
pub open spec fn event_range_ok(ev: XmlEvent, bytes: Seq<u8>, from: usize) -> bool {
    &&& ev.start == from
    &&& ev.kind is Eof ==> ev.end == from
    &&& !(ev.kind is Eof) ==> from < ev.end <= bytes.len() && is_char_boundary(bytes, ev.end as int)
}

/// What the tokenizer's next call gives, from call `k` at byte `pos`: the
/// call's event when it succeeds with a UTF-8 name and, unless it is the
/// end, moves forward to a character boundary; `None` otherwise.
pub open spec fn next_event(content: Seq<char>, check_end_names: bool, k: nat, pos: nat) -> Option<
    StepView,
> {
    match xml_read_step(content, check_end_names, k) {
        Ok(s) => if s.1 is Some && (s.0 is Eof || step_advances(content, s, pos)) {
            Some(s)
        } else {
            None
        },
        Err(_) => None,
    }
}

impl<'a> XmlTokenizer<'a> {
    pub closed spec fn content_view(&self) -> &'a str {
        self.content
    }

    /// Whether the reader checks end names.
    pub closed spec fn check_view(&self) -> bool {
        self.check_end_names
    }

    /// The calls of `read_event` made so far.
    pub closed spec fn calls_view(&self) -> nat {
        self.calls@
    }

    /// Byte position where the next event starts.
    pub closed spec fn pos_view(&self) -> usize {
        self.pos
    }

    /// True once the end of the input was read.
    pub closed spec fn done_view(&self) -> bool {
        self.done
    }

    /// Byte position where the next event starts.
    pub fn position(&self) -> (r: usize)
        ensures
            r == self.pos_view(),
    {
        self.pos
    }

    /// A tokenizer at the start of `content`.
    pub fn new(content: &'a str, check_end_names: bool) -> (r: Self)
        ensures
            r.content_view() == content,
            r.check_view() == check_end_names,
            r.calls_view() == 0,
            r.pos_view() == 0,
            !r.done_view(),
    {
        XmlTokenizer {
            reader: new_xml_reader(content, check_end_names),
            content,
            check_end_names,
            calls: Ghost(0),
            pos: 0,
            done: false,
        }
    }

    /// Reads the next event (see `next_event`). The reader's positions are
    /// checked: every event but the last covers a non-empty range of the input
    /// that ends on a character boundary.
    pub fn next(&mut self) -> (r: Result<XmlEvent, String>)
        requires
            old(self).pos_view() <= old(self).content_view().spec_bytes().len(),
            is_char_boundary(old(self).content_view().spec_bytes(), old(self).pos_view() as int),
        ensures
            final(self).content_view() == old(self).content_view(),
            final(self).check_view() == old(self).check_view(),
            final(self).calls_view() == old(self).calls_view() + 1,
            final(self).pos_view() <= final(self).content_view().spec_bytes().len(),
            is_char_boundary(final(self).content_view().spec_bytes(), final(self).pos_view() as int),
            match next_event(
                old(self).content_view()@,
                old(self).check_view(),
                old(self).calls_view(),
                old(self).pos_view() as nat,
            ) {
                Some(s) => r matches Ok(ev) && event_view(ev) == step_event(s) && (!(s.0 is Eof)
                    ==> ev.end == s.5),
                None => r is Err,
            },
            match r {
                Ok(ev) => {
                    &&& event_range_ok(ev, old(self).content_view().spec_bytes(), old(self).pos_view())
                    &&& final(self).pos_view() == ev.end
                    &&& final(self).done_view() == (ev.kind is Eof)
                },
                Err(_) => final(self).pos_view() == old(self).pos_view(),
            },
    {
        let start = self.pos;
        let raw = match read_step(self) {
            Ok(st) => st,
            Err(_) => return Err(String::from_str("Failed to read XML event")),
        };
        let name = match raw.name {
            Some(n) => n,
            None => return Err(String::from_str("Invalid UTF-8 in tag name")),
        };
        let kind = raw.kind;
        if kind == XmlEventKind::Eof {
            self.done = true;
            return Ok(
                XmlEvent {
                    kind,
                    name,
                    attributes: raw.attributes,
                    attributes_ok: raw.attributes_ok,
                    text: raw.text,
                    start,
                    end: start,
                },
            );
        }
        let end = raw.position;
        let len = self.content.as_bytes().len();
        if end <= start || end > len || !self.content.is_char_boundary(end) {
            return Err(String::from_str("XML reader reported an invalid position"));
        }
        self.pos = end;
        self.done = false;
        Ok(
            XmlEvent {
                kind,
                name,
                attributes: raw.attributes,
                attributes_ok: raw.attributes_ok,
                text: raw.text,
                start,
                end,
            },
        )
    }
}

impl<'a> XmlTokenizer<'a> {
    /// Reads the next event, going on after errors (see
    /// `lenient_events_from`): `None` where that reading stops.
    pub fn next_lenient(&mut self) -> (r: Option<XmlEvent>)
        requires
            old(self).pos_view() <= old(self).content_view().spec_bytes().len(),
            is_char_boundary(old(self).content_view().spec_bytes(), old(self).pos_view() as int),
        ensures
            final(self).content_view() == old(self).content_view(),
            final(self).check_view() == old(self).check_view(),
            final(self).pos_view() <= final(self).content_view().spec_bytes().len(),
            is_char_boundary(final(self).content_view().spec_bytes(), final(self).pos_view() as int),
            match r {
                Some(ev) => {
                    &&& !(ev.kind is Eof)
                    &&& old(self).pos_view() < final(self).pos_view()
                    &&& lenient_events_from(
                        old(self).content_view()@,
                        old(self).check_view(),
                        old(self).calls_view(),
                        old(self).pos_view() as nat,
                    ) == seq![event_view(ev)] + lenient_events_from(
                        final(self).content_view()@,
                        final(self).check_view(),
                        final(self).calls_view(),
                        final(self).pos_view() as nat,
                    )
                },
                None => lenient_events_from(
                    old(self).content_view()@,
                    old(self).check_view(),
                    old(self).calls_view(),
                    old(self).pos_view() as nat,
                ) == Seq::<EventView>::empty(),
            },
    {
        let len = self.content.as_bytes().len();
        loop
            invariant
                self.content == old(self).content,
                self.check_end_names == old(self).check_end_names,
                old(self).pos <= self.pos <= len,
                len == self.content.spec_bytes().len(),
                is_char_boundary(self.content.spec_bytes(), self.pos as int),
                lenient_events_from(self.content@, self.check_end_names, old(self).calls@, old(self).pos as nat)
                    == lenient_events_from(self.content@, self.check_end_names, self.calls@, self.pos as nat),
            decreases len - self.pos,
        {
            let start = self.pos;
            let ghost k = self.calls@;
            match read_step(self) {
                Err(p) => {
                    if p > start && p <= len && self.content.is_char_boundary(p) {
                        self.pos = p;
                    } else {
                        return None;
                    }
                },
                Ok(raw) => {
                    let kind = raw.kind;
                    if kind == XmlEventKind::Eof {
                        self.done = true;
                        return None;
                    }
                    let end = raw.position;
                    if end <= start || end > len || !self.content.is_char_boundary(end) {
                        return None;
                    }
                    let name = match raw.name {
                        Some(n) => n,
                        None => String::new(),
                    };
                    let ev = XmlEvent {
                        kind,
                        name,
                        attributes: raw.attributes,
                        attributes_ok: raw.attributes_ok,
                        text: raw.text,
                        start,
                        end,
                    };
                    self.pos = end;
                    self.done = false;
                    proof {
                        assert(event_view(ev) == lenient_event(step_view(raw)));
                    }
                    return Some(ev);
                },
            }
        }
    }
}

/// An attribute as a key and a value (none when the value could not be unescaped).
pub open spec fn attr_view(a: XmlAttribute) -> (Seq<char>, Option<Seq<char>>) {
    (
        a.key@,
        match a.value {
            Some(v) => Some(v@),
            None => None,
        },
    )
}

/// The attributes of an event as keys and values.
pub open spec fn attrs_view(attrs: Seq<XmlAttribute>) -> Seq<(Seq<char>, Option<Seq<char>>)> {
    attrs.map_values(|a: XmlAttribute| attr_view(a))
}

/// What an event holds apart from its position: kind, element name,
/// attributes, whether all attributes could be read, and text.
pub type EventView = (
    XmlEventKind,
    Seq<char>,
    Seq<(Seq<char>, Option<Seq<char>>)>,
    bool,
    Option<Seq<char>>,
);

pub open spec fn event_view(e: XmlEvent) -> EventView {
    (
        e.kind,
        e.name@,
        attrs_view(e.attributes@),
        e.attributes_ok,
        match e.text {
            Some(t) => Some(t@),
            None => None,
        },
    )
}

pub open spec fn events_view(evs: Seq<XmlEvent>) -> Seq<EventView> {
    evs.map_values(|e: XmlEvent| event_view(e))
}

/// The events `quick_xml` reads from a text (whitespace kept, empty elements
/// not expanded, end names checked or not), up to its end or to the first
/// failed call, element name that is not UTF-8, or position that does not
/// move forward; the end event is not included (see `events_from`).
pub open spec fn xml_events_of(content: Seq<char>, check_end_names: bool) -> Seq<EventView> {
    events_from(content, check_end_names, 0, 0)
}

/// Events with the views `quick_xml` gives for a text (see `xml_events_of`).
pub open spec fn events_of(content: Seq<char>, check_end_names: bool) -> Seq<XmlEvent> {
    choose|evs: Seq<XmlEvent>| events_view(evs) == xml_events_of(content, check_end_names)
}

/// Once some events have the views of a text's events, `events_of` has the same views.
pub(crate) proof fn lemma_events_of(content: Seq<char>, check_end_names: bool, evs: Seq<XmlEvent>)
    requires
        events_view(evs) == xml_events_of(content, check_end_names),
    ensures
        events_view(events_of(content, check_end_names)) == events_view(evs),
{
}

/// Events with equal views agree event by event.
pub(crate) proof fn lemma_events_view_same(a: Seq<XmlEvent>, b: Seq<XmlEvent>)
    requires
        events_view(a) == events_view(b),
    ensures
        a.len() == b.len(),
        forall|i: int| 0 <= i < a.len() ==> event_view(#[trigger] a[i]) == event_view(b[i]),
{
    assert(events_view(a).len() == a.len() && events_view(b).len() == b.len());
    assert forall|i: int| 0 <= i < a.len() implies event_view(#[trigger] a[i]) == event_view(b[i]) by {
        assert(events_view(a)[i] == event_view(a[i]));
        assert(events_view(b)[i] == event_view(b[i]));
    }
}

/// Attributes with equal views agree attribute by attribute.
pub(crate) proof fn lemma_attrs_view_same(a: Seq<XmlAttribute>, b: Seq<XmlAttribute>)
    requires
        attrs_view(a) == attrs_view(b),
    ensures
        a.len() == b.len(),
        forall|i: int| 0 <= i < a.len() ==> attr_view(#[trigger] a[i]) == attr_view(b[i]),
{
    assert(attrs_view(a).len() == a.len() && attrs_view(b).len() == b.len());
    assert forall|i: int| 0 <= i < a.len() implies attr_view(#[trigger] a[i]) == attr_view(b[i]) by {
        assert(attrs_view(a)[i] == attr_view(a[i]));
        assert(attrs_view(b)[i] == attr_view(b[i]));
    }
}

/// The events of an XML text, end names checked (see `xml_events_of`).
pub fn read_events(content: &str) -> (r: Vec<XmlEvent>)
    ensures
        events_view(r@) == xml_events_of(content@, true),
        forall|i: int| 0 <= i < r@.len() ==> !(r@[i].kind is Eof),
{
    read_events_with(content, true)
}

/// The events of an XML text, end names checked or not (see `xml_events_of`).
pub fn read_events_with(content: &str, check_end_names: bool) -> (r: Vec<XmlEvent>)
    ensures
        events_view(r@) == xml_events_of(content@, check_end_names),
        forall|i: int| 0 <= i < r@.len() ==> !(r@[i].kind is Eof),
{
    let mut tok = XmlTokenizer::new(content, check_end_names);
    let mut out: Vec<XmlEvent> = Vec::new();
    proof {
        encode_utf8_valid_utf8(content@);
        is_char_boundary_start_end_of_seq(content.spec_bytes());
    }
    loop
        invariant
            tok.content_view() == content,
            tok.check_view() == check_end_names,
            !tok.done_view(),
            tok.pos_view() <= content.spec_bytes().len(),
            is_char_boundary(content.spec_bytes(), tok.pos_view() as int),
            events_view(out@) + events_from(content@, check_end_names, tok.calls_view(), tok.pos_view() as nat)
                == xml_events_of(content@, check_end_names),
            forall|i: int| 0 <= i < out@.len() ==> !(out@[i].kind is Eof),
        decreases content.spec_bytes().len() - tok.pos_view(),
    {
        let ghost k = tok.calls_view();
        let ghost p = tok.pos_view() as nat;
        let ghost before = out@;
        match tok.next() {
            Ok(ev) => {
                if ev.kind == XmlEventKind::Eof {
                    assert(events_from(content@, check_end_names, k, p) =~= Seq::<EventView>::empty());
                    assert(events_view(out@) =~= events_view(out@) + Seq::<EventView>::empty());
                    return out;
                }
                let ghost e = ev;
                out.push(ev);
                assert(events_view(out@) =~= events_view(before).push(event_view(e)));
                assert(events_view(out@) + events_from(content@, check_end_names, k + 1, e.end as nat)
                    =~= events_view(before) + events_from(content@, check_end_names, k, p));
            },
            Err(_) => {
                assert(events_from(content@, check_end_names, k, p) =~= Seq::<EventView>::empty());
                assert(events_view(out@) =~= events_view(out@) + Seq::<EventView>::empty());
                return out;
            },
        }
    }
}

/// The events of a text read on after errors (see `lenient_events_from`).
pub open spec fn lenient_xml_events(content: Seq<char>, check_end_names: bool) -> Seq<EventView> {
    lenient_events_from(content, check_end_names, 0, 0)
}

/// Events with the views of a text's events read on after errors (see
/// `lenient_xml_events`).
pub open spec fn lenient_events_of(content: Seq<char>, check_end_names: bool) -> Seq<XmlEvent> {
    choose|evs: Seq<XmlEvent>| events_view(evs) == lenient_xml_events(content, check_end_names)
}

/// Once some events have the views of a text's events read on after
/// errors, `lenient_events_of` has the same views.
pub(crate) proof fn lemma_lenient_events_of(content: Seq<char>, check_end_names: bool, evs: Seq<XmlEvent>)
    requires
        events_view(evs) == lenient_xml_events(content, check_end_names),
    ensures
        events_view(lenient_events_of(content, check_end_names)) == events_view(evs),
{
}

/// The events of an XML text, read on after errors (see `lenient_xml_events`).
pub fn read_events_lenient(content: &str, check_end_names: bool) -> (r: Vec<XmlEvent>)
    ensures
        events_view(r@) == lenient_xml_events(content@, check_end_names),
        forall|i: int| 0 <= i < r@.len() ==> !(r@[i].kind is Eof),
{
    let mut tok = XmlTokenizer::new(content, check_end_names);
    let mut out: Vec<XmlEvent> = Vec::new();
    proof {
        encode_utf8_valid_utf8(content@);
        is_char_boundary_start_end_of_seq(content.spec_bytes());
    }
    loop
        invariant
            tok.content_view() == content,
            tok.check_view() == check_end_names,
            tok.pos_view() <= content.spec_bytes().len(),
            is_char_boundary(content.spec_bytes(), tok.pos_view() as int),
            events_view(out@) + lenient_events_from(content@, check_end_names, tok.calls_view(), tok.pos_view() as nat)
                == lenient_xml_events(content@, check_end_names),
            forall|i: int| 0 <= i < out@.len() ==> !(out@[i].kind is Eof),
        decreases content.spec_bytes().len() - tok.pos_view(),
    {
        let ghost k = tok.calls_view();
        let ghost p = tok.pos_view() as nat;
        let ghost before = out@;
        match tok.next_lenient() {
            Some(ev) => {
                let ghost e = ev;
                out.push(ev);
                assert(events_view(out@) =~= events_view(before).push(event_view(e)));
                assert(events_view(out@) + lenient_events_from(content@, check_end_names, tok.calls_view(), tok.pos_view() as nat)
                    =~= events_view(before) + lenient_events_from(content@, check_end_names, k, p));
            },
            None => {
                assert(events_view(out@) =~= events_view(out@) + Seq::<EventView>::empty());
                return out;
            },
        }
    }
}

} // verus!
