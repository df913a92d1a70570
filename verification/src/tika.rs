//! The fragment parser for Saṃyutta Nikāya ṭīkā (sub-commentary) files,
//! which also serves commentary files.

use vstd::prelude::*;
use vstd::string::*;
use vstd::utf8::*;
use crate::content::{cst_fields_spec, derive_cst_fields, fields_view, last_attr, xml_titles};
use crate::cst::{extract_number_spec, is_numbered_sutta_subhead};
use crate::hierarchy::{
    all_levels_well_formed, attr_equals, attr_is, boundary_type_spec, enter_level_spec,
    is_commentary, is_commentary_file, levels_well_formed, starts_with_nikaya, sutta_start_spec,
    FragmentBoundaryDetector, HierarchyTracker,
};
use crate::nikaya::NikayaStructure;
use crate::fill::{fill_sc_fields, same_but_sc, sc_only_changes};
use crate::parser::{
    clean_input, lemma_placed_in_sc_only, lemma_marked_not_blank, lemma_blank_input, blank_text,
    lemma_finished_cover, lemma_nonblank_same_placement,
    attribute_map, fragments_match, lemma_same_placement, parse_error, placed_in,
    pos_ok, read_to, same_placement, spans_ordered, closed_before_level, extended_with_levels, start_after,
    sutta_marked,
    text_between, FragmentSink, LineTracker, ParseCtx, Pos,
};
use crate::text::{
    ends_with, opt_view, str_contains, str_ends_with, str_eq, substr_bytes, trim_spec, trim_str,
};
use crate::types::{parse_failure, 
    clone_opt_string, FragmentType, GroupType, ParserError, ParserOverrides, StringMap,
    XmlFragment,
};
use crate::xml_events::{
    attr_view, attrs_view, event_clean, next_event, reads_cleanly, reads_cleanly_from, xml_read_step, StepView, XmlEvent,
    XmlEventKind, XmlTokenizer,
};

verus! {

broadcast use vstd::utf8::encode_utf8_decode_utf8;

/// The parser for Saṃyutta Nikāya ṭīkā files.
pub struct SamyuttaNikayaTika;

impl SamyuttaNikayaTika {
    pub fn new() -> Self {
        SamyuttaNikayaTika
    }
}

/// A subhead text marks a sutta: in a commentary or sub-commentary file when
/// it ends with "suttavaṇṇanā", in any other file when it starts with a sutta
/// number (see `extract_number_spec`).
pub open spec fn sutta_subhead_spec(text: Seq<char>, file: Seq<char>) -> bool {
    if is_commentary_file(file) {
        ends_with(text, "suttavaṇṇanā"@)
    } else {
        extract_number_spec(text) is Some
    }
}

/// Whether a subhead text marks a sutta (see `sutta_subhead_spec`).
pub fn is_sutta_subhead(text: &str, cst_file: &str) -> (r: bool)
    ensures
        r == sutta_subhead_spec(text@, cst_file@),
{
    if is_commentary(cst_file) {
        str_ends_with(text, "suttavaṇṇanā")
    } else {
        is_numbered_sutta_subhead(text)
    }
}

/// The state of a parse between two events.
struct TikaState {
    sink: FragmentSink,
    hierarchy: HierarchyTracker,
    pending_title: Option<(GroupType, Option<String>, Option<i32>)>,
    in_sutta_content: bool,
    pending_subhead_check: Option<Pos>,
    seen_body_tag: bool,
    seen_first_sutta: bool,
    seen_first_vagga_or_sutta: bool,
    div_depth: usize,
    sutta_div_depth: Option<usize>,
    pending_sutta_div_pos: Option<Pos>,
    pending_vagga_div_pos: Option<Pos>,
    pending_vagga_title_pos: Option<Pos>,
    pending_vagga_title_info: Option<(String, Option<String>, Option<i32>)>,
    pending_samyutta_div_pos: Option<Pos>,
    pending_samyutta_info: Option<(String, Option<String>, Option<i32>)>,
}

/// A `div` (`a` before): one level deeper; a sutta `div` of a Dīgha
/// commentary and a vagga `div` of Majjhima or Saṃyutta are kept as the
/// place where the fragment before them ends.
spec fn div_done(a: TikaState, ctx: ParseCtx, attrs: StringMap<String>, ev_start: Pos) -> TikaState {
    TikaState {
        div_depth: (a.div_depth + 1) as usize,
        pending_sutta_div_pos: if is_commentary_file(ctx.cst_file@) && ctx.structure.nikaya@
            == "digha"@ && attr_is(attrs, "type"@, "sutta"@) {
            Some(ev_start)
        } else {
            a.pending_sutta_div_pos
        },
        pending_vagga_div_pos: if (ctx.structure.nikaya@ == "majjhima"@ || ctx.structure.nikaya@
            == "samyutta"@) && attr_is(attrs, "type"@, "vagga"@) {
            Some(ev_start)
        } else {
            a.pending_vagga_div_pos
        },
        ..a
    }
}

/// The opening `<body>` (`a` before, `b` after): the fragment so far, if it
/// has a type, ends at the end of the tag; a sutta fragment with the current
/// levels starts there, and the body is entered.
spec fn body_opened(a: TikaState, b: TikaState, ctx: ParseCtx, ev_end: Pos) -> bool {
    &&& b == (TikaState { sink: b.sink, seen_body_tag: true, in_sutta_content: true, ..a })
    &&& b.sink.frag_type == Some(FragmentType::Sutta)
    &&& b.sink.frag_levels@ == a.hierarchy.levels_view()
    &&& if a.sink.frag_type is Some {
        extended_with_levels(a.sink.fragments@, b.sink.fragments@, a.sink.frag_levels@) && (
        ctx.plain() ==> b.sink.start == start_after(ctx.bytes(), a.sink.start, ev_end, a.sink.frag_type))
    } else {
        b.sink.fragments == a.sink.fragments && b.sink.start == a.sink.start
    }
}

/// Whether a samyutta seen before is entered at a new one: its `div` is
/// pending and the current sutta fragment starts before it.
spec fn flush_enters(a: TikaState) -> bool {
    a.pending_samyutta_div_pos matches Some(p) && a.sink.frag_type == Some(FragmentType::Sutta)
        && a.sink.start.0 < p.0
}

/// At a new samyutta (`a` before, `b` after): a pending samyutta `div` is
/// dropped; when the current sutta fragment starts before it, that fragment
/// ends there, the pending samyutta level is entered, and a sutta fragment
/// with the levels starts.
spec fn flush_done(a: TikaState, b: TikaState, ctx: ParseCtx) -> bool {
    if flush_enters(a) {
        let p = a.pending_samyutta_div_pos->0;
        &&& b == (TikaState {
            sink: b.sink,
            hierarchy: b.hierarchy,
            pending_samyutta_div_pos: None,
            pending_samyutta_info: None,
            ..a
        })
        &&& extended_with_levels(a.sink.fragments@, b.sink.fragments@, a.sink.frag_levels@)
        &&& ctx.plain() ==> b.sink.start == start_after(ctx.bytes(), a.sink.start, p, a.sink.frag_type)
        &&& b.sink.frag_type == Some(FragmentType::Sutta)
        &&& b.sink.frag_levels@ == b.hierarchy.levels_view()
        &&& b.hierarchy.structure_view() == a.hierarchy.structure_view()
        &&& match a.pending_samyutta_info {
            Some((title, id, n)) => b.hierarchy.levels_view() == enter_level_spec(
                a.hierarchy.levels_view(),
                a.hierarchy.structure_view(),
                GroupType::Samyutta,
                title,
                id,
                n,
            ),
            None => b.hierarchy == a.hierarchy,
        }
    } else {
        b == (TikaState { pending_samyutta_div_pos: None, ..a })
    }
}

/// What an element that may start a sutta does (`a` before, `b` after): a
/// Majjhima, Saṃyutta or Aṅguttara subhead is kept for the check of its
/// title; another sutta start is only noted when it is the first inside the
/// body, and later ends the current fragment (at the pending sutta `div`, if
/// any, else at the element) and starts a sutta fragment with the current
/// levels. A sutta `div` of a root text records its depth.
spec fn sutta_marker_done(
    a: TikaState,
    b: TikaState,
    ctx: ParseCtx,
    tag: Seq<char>,
    attrs: StringMap<String>,
    ev_start: Pos,
) -> bool {
    let nik = ctx.structure.nikaya@;
    let commentary = is_commentary_file(ctx.cst_file@);
    let marker = sutta_start_spec(nik, commentary, tag, attrs);
    let mn_sn_an = nik == "majjhima"@ || nik == "samyutta"@ || nik == "anguttara"@;
    let subhead = marker && mn_sn_an && tag == "p"@ && attr_is(attrs, "rend"@, "subhead"@);
    let track = tag == "div"@ && attr_is(attrs, "type"@, "sutta"@) && !commentary;
    let depth = if track {
        Some(a.div_depth)
    } else {
        a.sutta_div_depth
    };
    if subhead {
        b == (TikaState { pending_subhead_check: Some(ev_start), ..a })
    } else if marker && !a.seen_first_sutta && a.in_sutta_content {
        b == (TikaState { seen_first_sutta: true, sutta_div_depth: depth, ..a })
    } else if marker && a.seen_first_sutta {
        &&& b == (TikaState { sink: b.sink, pending_sutta_div_pos: None, sutta_div_depth: depth, ..a })
        &&& extended_with_levels(a.sink.fragments@, b.sink.fragments@, a.sink.frag_levels@)
        &&& b.sink.frag_type == Some(FragmentType::Sutta)
        &&& b.sink.frag_levels@ == a.hierarchy.levels_view()
        &&& ctx.plain() ==> b.sink.start == start_after(
            ctx.bytes(),
            a.sink.start,
            match a.pending_sutta_div_pos {
                Some(q) => q,
                None => ev_start,
            },
            a.sink.frag_type,
        )
    } else {
        b == a
    }
}

/// What an element that may open a level does to the state (`a` before, `b`
/// after): nothing when it opens none. A `div` with an `id`: the first vagga
/// or sutta level is only noted; a later samyutta inside the body, after the
/// first sutta, flushes a samyutta still pending (see `flush_done`) and
/// becomes the pending one (its `div` and id, with a title still to come),
/// without entering it; any other level is entered (with an empty title) and
/// given to the current fragment, and a later vagga or sutta level inside the
/// body first ends a sutta fragment that holds sutta content. Any other
/// element that opens a level: an Aṅguttara vagga chapter inside the body
/// ends a sutta fragment like a level does (the first one is only noted); a
/// Saṃyutta vagga title inside the body after the first sutta becomes the
/// pending vagga title; otherwise the level's type waits for its title,
/// unless the element is a sutta subhead.
spec fn boundary_done(
    a: TikaState,
    b: TikaState,
    ctx: ParseCtx,
    tag: Seq<char>,
    attrs: StringMap<String>,
    ev_start: Pos,
) -> bool {
    let nik = ctx.structure.nikaya@;
    match boundary_type_spec(nik, tag, attrs) {
        None => b == a,
        Some(t) => if tag == "div"@ && attrs.spec_get("id"@) is Some {
            let vs = t == GroupType::Vagga || t == GroupType::Sutta;
            let samy = t == GroupType::Samyutta;
            let first = !a.seen_first_vagga_or_sutta && vs;
            let flush = !first && samy && a.in_sutta_content && a.seen_first_sutta;
            let close = !first && vs && a.in_sutta_content;
            if flush {
                &&& flush_done(
                    a,
                    (TikaState {
                        pending_samyutta_div_pos: None,
                        pending_samyutta_info: if flush_enters(a) {
                            None
                        } else {
                            a.pending_samyutta_info
                        },
                        ..b
                    }),
                    ctx,
                )
                &&& b.pending_samyutta_div_pos == Some(ev_start)
                &&& b.pending_samyutta_info matches Some((title, id, n)) && title@
                    == Seq::<char>::empty() && id == attrs.spec_get("id"@) && n is None
            } else {
                &&& b == (TikaState {
                    sink: b.sink,
                    hierarchy: b.hierarchy,
                    seen_first_vagga_or_sutta: a.seen_first_vagga_or_sutta || vs,
                    ..a
                })
                &&& b.hierarchy.structure_view() == a.hierarchy.structure_view()
                &&& exists|title: String|
                    title@ == Seq::<char>::empty() && b.hierarchy.levels_view() == enter_level_spec(
                        a.hierarchy.levels_view(),
                        a.hierarchy.structure_view(),
                        t,
                        title,
                        attrs.spec_get("id"@),
                        None,
                    )
                &&& b.sink.frag_levels@ == b.hierarchy.levels_view()
                &&& if close {
                    closed_before_level(
                        a.sink,
                        (FragmentSink { frag_levels: a.sink.frag_levels, ..b.sink }),
                        ctx.bytes(),
                        ev_start,
                        Some(FragmentType::Sutta),
                        ctx.plain(),
                    )
                } else {
                    b.sink == (FragmentSink { frag_levels: b.sink.frag_levels, ..a.sink })
                }
            }
        } else {
            let p = tag == "p"@;
            let mn_sn_an = nik == "majjhima"@ || nik == "samyutta"@ || nik == "anguttara"@;
            let subhead = mn_sn_an && t == GroupType::Sutta && p && attr_is(attrs, "rend"@, "subhead"@);
            let an_ch = nik == "anguttara"@ && t == GroupType::Vagga && p && attr_is(
                attrs,
                "rend"@,
                "chapter"@,
            );
            let sn_title = nik == "samyutta"@ && t == GroupType::Vagga && p && attr_is(
                attrs,
                "rend"@,
                "title"@,
            ) && a.in_sutta_content && a.seen_first_sutta;
            &&& b == (TikaState {
                sink: b.sink,
                seen_first_vagga_or_sutta: b.seen_first_vagga_or_sutta,
                pending_title: b.pending_title,
                pending_vagga_title_pos: b.pending_vagga_title_pos,
                pending_vagga_title_info: b.pending_vagga_title_info,
                ..a
            })
            &&& b.seen_first_vagga_or_sutta == (a.seen_first_vagga_or_sutta || (an_ch
                && a.in_sutta_content))
            &&& if sn_title {
                &&& b.pending_vagga_title_pos == Some(ev_start)
                &&& b.pending_vagga_title_info matches Some((title, id, n)) && title@
                    == Seq::<char>::empty() && id is None && n is None
                &&& b.pending_title == a.pending_title
            } else {
                &&& b.pending_vagga_title_pos == a.pending_vagga_title_pos
                &&& b.pending_vagga_title_info == a.pending_vagga_title_info
                &&& b.pending_title == if !subhead {
                    Some((t, None, None))
                } else {
                    a.pending_title
                }
            }
            &&& if an_ch && a.in_sutta_content && a.seen_first_vagga_or_sutta {
                closed_before_level(
                    a.sink,
                    b.sink,
                    ctx.bytes(),
                    ev_start,
                    Some(FragmentType::Sutta),
                    ctx.plain(),
                )
            } else {
                b.sink == a.sink
            }
        },
    }
}

/// The trimmed text of a text event.
spec fn event_trimmed(ev: XmlEvent) -> Seq<char> {
    match ev.text {
        Some(t) => trim_spec(t@),
        None => Seq::empty(),
    }
}

/// A subhead waits for its text, and the text marks a sutta (see `sutta_subhead_spec`).
spec fn subhead_names_sutta(a: TikaState, ctx: ParseCtx, ev: XmlEvent) -> bool {
    a.pending_subhead_check is Some && sutta_subhead_spec(event_trimmed(ev), ctx.cst_file@)
}

/// What a text does (`a` before, `b` after): it answers a pending subhead
/// and a pending title, which are then gone. A subhead that marks a sutta
/// notes the first sutta inside the body (dropping the pending vagga `div`),
/// or, after the first sutta, ends the current fragment and starts a sutta
/// fragment with the new levels. A title that waits for its text enters its
/// level with the text as title (a samyutta whose `div` is pending is kept
/// for later instead). With nothing pending, only the subhead check goes.
spec fn text_done(a: TikaState, b: TikaState, ctx: ParseCtx, ev: XmlEvent) -> bool {
    let named = subhead_names_sutta(a, ctx, ev);
    let first = named && !a.seen_first_sutta && a.in_sutta_content;
    let starts = named && a.seen_first_sutta;
    let text = event_trimmed(ev);
    &&& b.pending_subhead_check is None
    &&& b.pending_title is None
    &&& b.seen_first_sutta == (a.seen_first_sutta || first)
    &&& b.in_sutta_content == a.in_sutta_content
    &&& b.seen_body_tag == a.seen_body_tag
    &&& b.seen_first_vagga_or_sutta == a.seen_first_vagga_or_sutta
    &&& b.div_depth == a.div_depth
    &&& b.sutta_div_depth == a.sutta_div_depth
    &&& b.pending_sutta_div_pos == a.pending_sutta_div_pos
    &&& b.hierarchy.structure_view() == a.hierarchy.structure_view()
    &&& first ==> b.pending_vagga_div_pos is None
    &&& starts ==> {
        &&& extended_with_levels(a.sink.fragments@, b.sink.fragments@, a.sink.frag_levels@)
        &&& b.sink.frag_type == Some(FragmentType::Sutta)
    }
    &&& !starts ==> b.sink.fragments == a.sink.fragments && b.sink.frag_type == a.sink.frag_type
        && b.sink.start == a.sink.start
    &&& !named && a.pending_vagga_title_info is None && (a.pending_title is None || text.len()
        == 0) ==> b == (TikaState { pending_subhead_check: None, pending_title: None, ..a })
    &&& !named && text.len() > 0 ==> match a.pending_title {
        Some((t, id, n)) => !(t == GroupType::Samyutta && a.pending_samyutta_div_pos is Some) ==> exists|
            title: String,
        |
            title@ == text && b.hierarchy.levels_view() == enter_level_spec(
                a.hierarchy.levels_view(),
                a.hierarchy.structure_view(),
                t,
                title,
                id,
                n,
            ),
        None => true,
    }
}

/// What a start or empty tag does (`a` before, `b` after), its attributes
/// read as a map: a `div` goes one level deeper, the first `<body>` opens the
/// body, then the tag is taken as a possible level and as a possible sutta start.
spec fn start_done(a: TikaState, b: TikaState, ctx: ParseCtx, ev: XmlEvent, ev_start: Pos, ev_end: Pos) -> bool {
    exists|attrs: StringMap<String>, s1: TikaState, s2: TikaState, s3: TikaState|
        #[trigger] start_steps(a, b, ctx, ev, ev_start, ev_end, attrs, s1, s2, s3)
}

/// The steps of a start tag through the states `s1`, `s2` and `s3` (see `start_done`).
spec fn start_steps(
    a: TikaState,
    b: TikaState,
    ctx: ParseCtx,
    ev: XmlEvent,
    ev_start: Pos,
    ev_end: Pos,
    attrs: StringMap<String>,
    s1: TikaState,
    s2: TikaState,
    s3: TikaState,
) -> bool {
    &&& forall|k: Seq<char>|
        #![trigger attrs.spec_get(k)]
        opt_view(attrs.spec_get(k)) == last_attr(ev.attributes@, k)
    &&& s1 == if ev.name@ == "div"@ {
        div_done(a, ctx, attrs, ev_start)
    } else {
        a
    }
    &&& if ev.name@ == "body"@ && !s1.seen_body_tag {
        body_opened(s1, s2, ctx, ev_end)
    } else {
        s2 == s1
    }
    &&& boundary_done(s2, s3, ctx, ev.name@, attrs, ev_start)
    &&& sutta_marker_done(s3, b, ctx, ev.name@, attrs, ev_start)
}

/// An optional position that is valid and, with no override, not after `cur`.
spec fn opt_pos_ok(b: Seq<u8>, p: Option<Pos>, plain: bool, cur: usize) -> bool {
    p matches Some(q) ==> pos_ok(b, q, plain) && (plain ==> q.0 <= cur)
}

impl TikaState {
    /// The sink is consistent, the positions kept for later are valid, and
    /// with no override nothing points after `cur`, the bytes read so far.
    spec fn inv(&self, ctx: ParseCtx, cur: usize) -> bool {
        &&& self.sink.inv(ctx)
        &&& ctx.plain() ==> self.sink.start.0 <= cur
        &&& opt_pos_ok(ctx.bytes(), self.pending_subhead_check, ctx.plain(), cur)
        &&& opt_pos_ok(ctx.bytes(), self.pending_sutta_div_pos, ctx.plain(), cur)
        &&& opt_pos_ok(ctx.bytes(), self.pending_vagga_div_pos, ctx.plain(), cur)
        &&& opt_pos_ok(ctx.bytes(), self.pending_vagga_title_pos, ctx.plain(), cur)
        &&& opt_pos_ok(ctx.bytes(), self.pending_samyutta_div_pos, ctx.plain(), cur)
        &&& self.div_depth <= cur
        &&& cur <= ctx.bytes().len()
        &&& self.hierarchy.structure_view() == ctx.structure.levels@
        &&& starts_with_nikaya(ctx.structure.levels@) ==> {
            &&& levels_well_formed(self.hierarchy.levels_view())
            &&& levels_well_formed(self.sink.frag_levels@)
            &&& all_levels_well_formed(self.sink.fragments@)
        }
    }

    fn new(ctx: &ParseCtx) -> (r: Self)
        ensures
            r.inv(*ctx, 0),
            r.sink.fragments@.len() == 0,
    {
        TikaState {
            sink: FragmentSink::new(ctx),
            hierarchy: HierarchyTracker::new(ctx.structure.duplicate()),
            pending_title: None,
            in_sutta_content: false,
            pending_subhead_check: None,
            seen_body_tag: false,
            seen_first_sutta: false,
            seen_first_vagga_or_sutta: false,
            div_depth: 0,
            sutta_div_depth: None,
            pending_sutta_div_pos: None,
            pending_vagga_div_pos: None,
            pending_vagga_title_pos: None,
            pending_vagga_title_info: None,
            pending_samyutta_div_pos: None,
            pending_samyutta_info: None,
        }
    }

    /// Whether the current fragment, up to `upto`, already holds sutta content
    /// (a subhead, chapter or bodytext marker).
    fn has_sutta_content(&self, ctx: &ParseCtx, upto: Pos) -> (r: bool)
        requires
            self.sink.inv(*ctx),
            pos_ok(ctx.bytes(), upto, ctx.plain()),
        ensures
            r == (self.sink.start.0 <= upto.0 && sutta_marked(
                text_between(ctx.bytes(), self.sink.start.0 as int, upto.0 as int),
            )),
    {
        let s = self.sink.start.0;
        if s > upto.0 {
            return false;
        }
        let tentative = substr_bytes(ctx.xml, s, upto.0);
        str_contains(tentative, "rend=\"subhead\"") || str_contains(tentative, "rend=\"chapter\"")
            || str_contains(tentative, "rend=\"bodytext\"")
    }

    proof fn lemma_inv_mono(&self, ctx: ParseCtx, c1: usize, c2: usize)
        requires
            self.inv(ctx, c1),
            c1 <= c2 <= ctx.bytes().len(),
        ensures
            self.inv(ctx, c2),
    {
    }

    fn open_body(&mut self, ctx: &ParseCtx, ev_end: Pos) -> (r: Result<(), ParserError>)
        requires
            old(self).inv(*ctx, ev_end.0),
            pos_ok(ctx.bytes(), ev_end, ctx.plain()),
        ensures
            r matches Err(e) ==> parse_failure(e),
            ctx.plain() ==> r is Ok,
            r is Ok ==> final(self).inv(*ctx, ev_end.0),
            r is Ok ==> body_opened(*old(self), *final(self), *ctx, ev_end),
    {
        self.seen_body_tag = true;
        if self.sink.frag_type.is_some() {
            match self.sink.close_and_advance(ctx, ev_end) {
                Ok(_) => {},
                Err(e) => return Err(e),
            }
        }
        self.sink.frag_type = Some(FragmentType::Sutta);
        self.sink.frag_levels = self.hierarchy.get_current_levels();
        self.in_sutta_content = true;
        Ok(())
    }

    /// Closes the current sutta fragment before a new level when it already
    /// holds sutta content; the next fragment gets the type `next_type`.
    fn close_before_level(&mut self, ctx: &ParseCtx, ev_start: Pos, ev_end: Pos, next_type: Option<
        FragmentType,
    >) -> (r: Result<(), ParserError>)
        requires
            old(self).inv(*ctx, ev_end.0),
            pos_ok(ctx.bytes(), ev_start, ctx.plain()),
            ev_start.0 <= ev_end.0,
        ensures
            r matches Err(e) ==> parse_failure(e),
            ctx.plain() ==> r is Ok,
            r is Ok ==> final(self).inv(*ctx, ev_end.0),
            r is Ok ==> *final(self) == (TikaState { sink: final(self).sink, ..*old(self) }),
            r is Ok ==> closed_before_level(
                old(self).sink,
                final(self).sink,
                ctx.bytes(),
                ev_start,
                next_type,
                ctx.plain(),
            ),
    {
        if self.sink.frag_type == Some(FragmentType::Sutta) {
            let has = self.has_sutta_content(ctx, ev_start);
            if has {
                proof {
                    if ctx.plain() {
                        lemma_marked_not_blank(
                            text_between(ctx.bytes(), self.sink.start.0 as int, ev_start.0 as int),
                        );
                    }
                }
                match self.sink.close_and_advance(ctx, ev_start) {
                    Ok(_) => {},
                    Err(e) => return Err(e),
                }
                self.sink.frag_type = next_type;
            }
        }
        Ok(())
    }

    fn boundary_step(
        &mut self,
        ctx: &ParseCtx,
        tag: &str,
        attrs: &StringMap<String>,
        ev_start: Pos,
        ev_end: Pos,
    ) -> (r: Result<(), ParserError>)
        requires
            old(self).inv(*ctx, ev_end.0),
            pos_ok(ctx.bytes(), ev_start, ctx.plain()),
            ev_start.0 <= ev_end.0,
        ensures
            r matches Err(e) ==> parse_failure(e),
            ctx.plain() ==> r is Ok,
            r is Ok ==> final(self).inv(*ctx, ev_end.0),
            r is Ok ==> boundary_done(*old(self), *final(self), *ctx, tag@, *attrs, ev_start),
    {
        let nikaya = ctx.structure.nikaya.as_str();
        let detector = FragmentBoundaryDetector::new(ctx.structure, ctx.cst_file);
        if let Some((group_type, _title, id, number)) = detector.check_boundary(tag, attrs) {
            if str_eq(tag, "div") && id.is_some() {
                let is_samyutta_level = group_type == GroupType::Samyutta;
                let is_structure_level = group_type == GroupType::Samyutta || group_type
                    == GroupType::Vagga || group_type == GroupType::Sutta;
                let is_vagga_or_sutta = group_type == GroupType::Vagga || group_type
                    == GroupType::Sutta;
                let mut skip_hierarchy_entry = false;
                if !self.seen_first_vagga_or_sutta && is_vagga_or_sutta {
                    self.seen_first_vagga_or_sutta = true;
                } else if is_samyutta_level && self.in_sutta_content && self.seen_first_sutta {
                    match self.flush_pending_samyutta(ctx, ev_end) {
                        Ok(()) => {},
                        Err(e) => return Err(e),
                    }
                    self.pending_samyutta_div_pos = Some(ev_start);
                    self.pending_samyutta_info = Some((String::new(), clone_opt_string(&id), number));
                    skip_hierarchy_entry = true;
                } else if is_structure_level && self.in_sutta_content && !is_samyutta_level {
                    match self.close_before_level(
                        ctx,
                        ev_start,
                        ev_end,
                        Some(FragmentType::Sutta),
                    ) {
                        Ok(()) => {},
                        Err(e) => return Err(e),
                    }
                }
                if !skip_hierarchy_entry {
                    let title = String::new();
                    let ghost tg = title;
                    self.hierarchy.enter_level(group_type, title, id, number);
                    self.sink.frag_levels = self.hierarchy.get_current_levels();
                }
            } else {
                let is_p = str_eq(tag, "p");
                let is_mn_sn_an = str_eq(nikaya, "majjhima") || str_eq(nikaya, "samyutta")
                    || str_eq(nikaya, "anguttara");
                let is_sutta_subhead = is_mn_sn_an && group_type == GroupType::Sutta && is_p
                    && attr_equals(attrs, "rend", "subhead");
                let is_an_vagga_chapter = str_eq(nikaya, "anguttara") && group_type
                    == GroupType::Vagga && is_p && attr_equals(attrs, "rend", "chapter");
                let is_sn_att_vagga_title = str_eq(nikaya, "samyutta") && group_type
                    == GroupType::Vagga && is_p && attr_equals(attrs, "rend", "title");
                if is_an_vagga_chapter && self.in_sutta_content {
                    if !self.seen_first_vagga_or_sutta {
                        self.seen_first_vagga_or_sutta = true;
                    } else {
                        match self.close_before_level(
                            ctx,
                            ev_start,
                            ev_end,
                            Some(FragmentType::Sutta),
                        ) {
                            Ok(()) => {},
                            Err(e) => return Err(e),
                        }
                    }
                }
                if is_sn_att_vagga_title && self.in_sutta_content && self.seen_first_sutta {
                    self.pending_vagga_title_pos = Some(ev_start);
                    self.pending_vagga_title_info = Some((String::new(), id, number));
                } else if !is_sutta_subhead {
                    self.pending_title = Some((group_type, id, number));
                }
            }
        }
        Ok(())
    }

    /// At a new samyutta: a samyutta seen before whose first sutta never came
    /// ends the current sutta fragment at its own position and is entered.
    fn flush_pending_samyutta(&mut self, ctx: &ParseCtx, ev_end: Pos) -> (r: Result<(), ParserError>)
        requires
            old(self).inv(*ctx, ev_end.0),
        ensures
            r matches Err(e) ==> parse_failure(e),
            ctx.plain() ==> r is Ok,
            r is Ok ==> final(self).inv(*ctx, ev_end.0),
            r is Ok ==> flush_done(*old(self), *final(self), *ctx),
    {
        if let Some(old_pos) = self.pending_samyutta_div_pos {
            self.pending_samyutta_div_pos = None;
            if self.sink.frag_type == Some(FragmentType::Sutta) && self.sink.start.0 < old_pos.0 {
                match self.sink.close_and_advance(ctx, old_pos) {
                    Ok(_) => {},
                    Err(e) => return Err(e),
                }
                if let Some((samyutta_title, sam_id, sam_number)) = self.pending_samyutta_info.take() {
                    self.hierarchy.enter_level(GroupType::Samyutta, samyutta_title, sam_id, sam_number);
                }
                self.sink.frag_type = Some(FragmentType::Sutta);
                self.sink.frag_levels = self.hierarchy.get_current_levels();
            }
        }
        Ok(())
    }

    fn div_step(&mut self, ctx: &ParseCtx, attrs: &StringMap<String>, ev_start: Pos, ev_end: Pos)
        requires
            old(self).inv(*ctx, ev_start.0),
            pos_ok(ctx.bytes(), ev_start, ctx.plain()),
            ev_start.0 < ev_end.0 <= ctx.bytes().len(),
        ensures
            final(self).inv(*ctx, ev_end.0),
            *final(self) == div_done(*old(self), *ctx, *attrs, ev_start),
    {
        let nikaya = ctx.structure.nikaya.as_str();
        self.div_depth = self.div_depth + 1;
        if is_commentary(ctx.cst_file) && str_eq(nikaya, "digha") && attr_equals(
            attrs,
            "type",
            "sutta",
        ) {
            self.pending_sutta_div_pos = Some(ev_start);
        }
        if (str_eq(nikaya, "majjhima") || str_eq(nikaya, "samyutta")) && attr_equals(
            attrs,
            "type",
            "vagga",
        ) {
            self.pending_vagga_div_pos = Some(ev_start);
        }
    }

    fn sutta_marker_step(
        &mut self,
        ctx: &ParseCtx,
        tag: &str,
        attrs: &StringMap<String>,
        ev_start: Pos,
        ev_end: Pos,
    ) -> (r: Result<(), ParserError>)
        requires
            old(self).inv(*ctx, ev_end.0),
            pos_ok(ctx.bytes(), ev_start, ctx.plain()),
            ev_start.0 <= ev_end.0,
        ensures
            r matches Err(e) ==> parse_failure(e),
            ctx.plain() ==> r is Ok,
            r is Ok ==> final(self).inv(*ctx, ev_end.0),
            r is Ok ==> sutta_marker_done(*old(self), *final(self), *ctx, tag@, *attrs, ev_start),
    {
        let nikaya = ctx.structure.nikaya.as_str();
        let is_mn_sn_an = str_eq(nikaya, "majjhima") || str_eq(nikaya, "samyutta") || str_eq(
            nikaya,
            "anguttara",
        );
        let is_p = str_eq(tag, "p");
        let detector = FragmentBoundaryDetector::new(ctx.structure, ctx.cst_file);
        let is_potential_sutta_marker = detector.is_sutta_start(tag, attrs);
        if is_potential_sutta_marker && is_mn_sn_an && is_p && attr_equals(
            attrs,
            "rend",
            "subhead",
        ) {
            self.pending_subhead_check = Some(ev_start);
        } else if is_potential_sutta_marker {
            let should_track_div_depth = str_eq(tag, "div") && attr_equals(attrs, "type", "sutta")
                && !is_commentary(ctx.cst_file);
            if !self.seen_first_sutta && self.in_sutta_content {
                self.seen_first_sutta = true;
                if should_track_div_depth {
                    self.sutta_div_depth = Some(self.div_depth);
                }
            } else if self.seen_first_sutta {
                let close = match self.pending_sutta_div_pos {
                    Some(p) => p,
                    None => ev_start,
                };
                self.pending_sutta_div_pos = None;
                let ft = self.sink.frag_type;
                match self.sink.close_as(ctx, close, ft) {
                    Ok(_) => {},
                    Err(e) => return Err(e),
                }
                self.sink.frag_type = Some(FragmentType::Sutta);
                self.sink.frag_levels = self.hierarchy.get_current_levels();
                if should_track_div_depth {
                    self.sutta_div_depth = Some(self.div_depth);
                }
            }
        }
        Ok(())
    }

    fn on_start(&mut self, ctx: &ParseCtx, ev: &XmlEvent, ev_start: Pos, ev_end: Pos) -> (r: Result<
        (),
        ParserError,
    >)
        requires
            old(self).inv(*ctx, ev_start.0),
            pos_ok(ctx.bytes(), ev_start, ctx.plain()),
            pos_ok(ctx.bytes(), ev_end, ctx.plain()),
            ev_start.0 < ev_end.0,
        ensures
            r matches Err(e) ==> parse_failure(e),
            ctx.plain() && ev.attributes_ok && (forall|i: int|
                0 <= i < ev.attributes@.len() ==> (#[trigger] ev.attributes@[i]).value is Some) ==> r is Ok,
            r is Ok ==> final(self).inv(*ctx, ev_end.0),
            !ev.attributes_ok ==> r is Err,
            r is Ok ==> start_done(*old(self), *final(self), *ctx, *ev, ev_start, ev_end),
    {
        let tag = ev.name.as_str();
        let attrs = match attribute_map(ev) {
            Ok(m) => m,
            Err(e) => return Err(e),
        };
        let is_div = str_eq(tag, "div");
        let ghost c0 = ev_start.0;
        if is_div {
            self.div_step(ctx, &attrs, ev_start, ev_end);
        } else {
            proof {
                self.lemma_inv_mono(*ctx, c0, ev_end.0);
            }
        }
        let ghost s1 = *self;
        if str_eq(tag, "body") && !self.seen_body_tag {
            match self.open_body(ctx, ev_end) {
                Ok(()) => {},
                Err(e) => return Err(e),
            }
        }
        let ghost s2 = *self;
        match self.boundary_step(ctx, tag, &attrs, ev_start, ev_end) {
            Ok(()) => {},
            Err(e) => return Err(e),
        }
        let ghost s3 = *self;
        let r = self.sutta_marker_step(ctx, tag, &attrs, ev_start, ev_end);
        proof {
            if r is Ok {
                let a = attrs;
                assert(forall|k: Seq<char>|
                    #![trigger a.spec_get(k)]
                    opt_view(a.spec_get(k)) == last_attr(ev.attributes@, k));
                assert(s1 == if ev.name@ == "div"@ {
                    div_done(*old(self), *ctx, a, ev_start)
                } else {
                    *old(self)
                });
                assert(sutta_marker_done(s3, *self, *ctx, ev.name@, a, ev_start));
                assert(start_steps(*old(self), *self, *ctx, *ev, ev_start, ev_end, a, s1, s2, s3));
            }
        }
        r
    }

    /// The position that ends the current sutta fragment at a new sutta
    /// subhead, and whether it is that of a samyutta seen before.
    fn subhead_close(&mut self, sub: Pos, cur: usize, ctx: &ParseCtx) -> (r: (Pos, bool))
        requires
            old(self).inv(*ctx, cur),
            pos_ok(ctx.bytes(), sub, ctx.plain()),
            ctx.plain() ==> sub.0 <= cur,
        ensures
            final(self).inv(*ctx, cur),
            pos_ok(ctx.bytes(), r.0, ctx.plain()),
            ctx.plain() ==> r.0.0 <= cur,
            final(self).sink == old(self).sink,
            *final(self) == (TikaState {
                pending_samyutta_div_pos: final(self).pending_samyutta_div_pos,
                pending_samyutta_info: final(self).pending_samyutta_info,
                pending_vagga_title_pos: final(self).pending_vagga_title_pos,
                pending_vagga_title_info: final(self).pending_vagga_title_info,
                pending_vagga_div_pos: final(self).pending_vagga_div_pos,
                ..*old(self)
            }),
    {
        let start = self.sink.start.0;
        if let Some(sp) = self.pending_samyutta_div_pos {
            self.pending_samyutta_div_pos = None;
            if start < sp.0 {
                self.pending_vagga_title_pos = None;
                self.pending_vagga_title_info = None;
                self.pending_vagga_div_pos = None;
                return (sp, true);
            } else {
                self.pending_samyutta_info = None;
                return (sub, false);
            }
        }
        if let Some(tp) = self.pending_vagga_title_pos {
            self.pending_vagga_title_pos = None;
            if start < tp.0 {
                return (tp, false);
            } else {
                self.pending_vagga_title_info = None;
                if let Some(d) = self.pending_vagga_div_pos {
                    self.pending_vagga_div_pos = None;
                    return (d, false);
                }
                return (sub, false);
            }
        }
        if let Some(d) = self.pending_vagga_div_pos {
            self.pending_vagga_div_pos = None;
            return (d, false);
        }
        (sub, false)
    }

    #[verifier::spinoff_prover]
    #[verifier::rlimit(40)]
    fn on_text(&mut self, ctx: &ParseCtx, ev: &XmlEvent, cur: usize) -> (r: Result<(), ParserError>)
        requires
            old(self).inv(*ctx, cur),
        ensures
            r matches Err(e) ==> parse_failure(e),
            ctx.plain() && ev.text is Some ==> r is Ok,
            r is Ok ==> final(self).inv(*ctx, cur),
            ev.text is None ==> r is Err,
            r is Ok ==> text_done(*old(self), *final(self), *ctx, *ev),
    {
        let raw = match &ev.text {
            Some(t) => t,
            None => return Err(parse_error("Failed to unescape text content")),
        };
        let text = trim_str(raw.as_str()).to_string();
        if let Some(sub) = self.pending_subhead_check {
            self.pending_subhead_check = None;
            if is_sutta_subhead(text.as_str(), ctx.cst_file) {
                if !self.seen_first_sutta && self.in_sutta_content {
                    self.seen_first_sutta = true;
                    self.pending_vagga_div_pos = None;
                    self.hierarchy.enter_level(GroupType::Sutta, text.clone(), None, None);
                    self.sink.frag_levels = self.hierarchy.get_current_levels();
                } else if self.seen_first_sutta {
                    let (close, used_pending_samyutta) = self.subhead_close(sub, cur, ctx);
                    let ft = self.sink.frag_type;
                    match self.sink.close_as(ctx, close, ft) {
                        Ok(_) => {},
                        Err(e) => return Err(e),
                    }
                    if used_pending_samyutta {
                        if let Some((samyutta_title, id, number)) = self.pending_samyutta_info.take() {
                            self.hierarchy.enter_level(GroupType::Samyutta, samyutta_title, id, number);
                        }
                    }
                    if let Some((vagga_title, id, number)) = self.pending_vagga_title_info.take() {
                        if !vagga_title.as_str().is_empty() {
                            self.hierarchy.enter_level(GroupType::Vagga, vagga_title, id, number);
                        }
                    }
                    self.hierarchy.enter_level(GroupType::Sutta, text.clone(), None, None);
                    self.sink.frag_type = Some(FragmentType::Sutta);
                    self.sink.frag_levels = self.hierarchy.get_current_levels();
                }
            }
        }
        if self.pending_vagga_title_info.is_some() && !text.as_str().is_empty() {
            if let Some((_, id, number)) = self.pending_vagga_title_info.take() {
                self.pending_vagga_title_info = Some((text.clone(), id, number));
            }
        }
        if let Some((group_type, id, number)) = self.pending_title.take() {
            if !text.as_str().is_empty() {
                if group_type == GroupType::Samyutta && self.pending_samyutta_div_pos.is_some() {
                    let info = match self.pending_samyutta_info.take() {
                        Some((_, existing_id, existing_number)) => (
                            text,
                            match existing_id {
                                Some(x) => Some(x),
                                None => id,
                            },
                            match existing_number {
                                Some(x) => Some(x),
                                None => number,
                            },
                        ),
                        None => (text, id, number),
                    };
                    self.pending_samyutta_info = Some(info);
                } else {
                    self.hierarchy.enter_level(group_type, text, id, number);
                    self.sink.frag_levels = self.hierarchy.get_current_levels();
                }
            }
        }
        Ok(())
    }

    fn on_end(&mut self, ctx: &ParseCtx, ev: &XmlEvent, ev_start: Pos, ev_end: usize) -> (r: Result<
        (),
        ParserError,
    >)
        requires
            old(self).inv(*ctx, ev_start.0),
            pos_ok(ctx.bytes(), ev_start, ctx.plain()),
            ev_start.0 < ev_end <= ctx.bytes().len(),
        ensures
            r matches Err(e) ==> parse_failure(e),
            ctx.plain() ==> r is Ok,
            r is Ok ==> final(self).inv(*ctx, ev_end),
            r is Ok ==> *final(self) == (TikaState {
                sink: final(self).sink,
                div_depth: final(self).div_depth,
                sutta_div_depth: final(self).sutta_div_depth,
                in_sutta_content: final(self).in_sutta_content,
                ..*old(self)
            }),
            r is Ok ==> if ev.name@ == "div"@ {
                &&& final(self).div_depth == if old(self).div_depth > 0 {
                    (old(self).div_depth - 1) as usize
                } else {
                    0
                }
                &&& final(self).sutta_div_depth == if old(self).in_sutta_content
                    && old(self).sutta_div_depth == Some(old(self).div_depth) {
                    None
                } else {
                    old(self).sutta_div_depth
                }
            } else {
                final(self).div_depth == old(self).div_depth && final(self).sutta_div_depth == old(
                    self,
                ).sutta_div_depth
            },
            r is Ok ==> if ev.name@ == "body"@ && old(self).seen_body_tag {
                &&& final(self).sink.frag_type == Some(FragmentType::Header)
                &&& final(self).sink.frag_levels@ == old(self).hierarchy.levels_view()
                &&& !final(self).in_sutta_content
                &&& if old(self).sink.frag_type is Some {
                    extended_with_levels(
                        old(self).sink.fragments@,
                        final(self).sink.fragments@,
                        old(self).sink.frag_levels@,
                    )
                } else {
                    final(self).sink.fragments == old(self).sink.fragments && final(self).sink.start
                        == old(self).sink.start
                }
            } else {
                final(self).sink == old(self).sink && final(self).in_sutta_content == old(
                    self,
                ).in_sutta_content
            },
    {
        let tag = ev.name.as_str();
        if str_eq(tag, "div") {
            if self.in_sutta_content {
                if let Some(d) = self.sutta_div_depth {
                    if self.div_depth == d {
                        self.sutta_div_depth = None;
                    }
                }
            }
            self.div_depth = if self.div_depth > 0 {
                self.div_depth - 1
            } else {
                0
            };
        }
        if str_eq(tag, "body") && self.seen_body_tag {
            match self.sink.frag_type {
                Some(t) => {
                    match self.sink.close_as(ctx, ev_start, Some(t)) {
                        Ok(_) => {},
                        Err(e) => return Err(e),
                    }
                },
                None => {},
            }
            self.sink.frag_type = Some(FragmentType::Header);
            self.sink.frag_levels = self.hierarchy.get_current_levels();
            self.in_sutta_content = false;
        }
        Ok(())
    }
}

/// Each fragment has the CST fields that `cst_fields_spec` gives for what its
/// XML yields.
pub open spec fn cst_fields_ok(
    frags: Seq<XmlFragment>,
    nikaya: Seq<char>,
    structure: Seq<GroupType>,
) -> bool {
    forall|j: int|
        #![trigger frags[j]]
        0 <= j < frags.len() ==>
            fields_view(
                (
                    frags[j].cst_file,
                    frags[j].cst_code,
                    frags[j].cst_vagga,
                    frags[j].cst_sutta,
                    frags[j].cst_paranum,
                ),
            ) == cst_fields_spec(
                frags[j],
                nikaya,
                structure,
                xml_titles(frags[j].content_xml@).0,
                xml_titles(frags[j].content_xml@).1,
                xml_titles(frags[j].content_xml@).2,
            )
}

/// Sets the CST fields of every fragment (see `cst_fields_spec`).
fn set_cst_fields(fragments: &mut Vec<XmlFragment>, nikaya_structure: &NikayaStructure)
    ensures
        same_placement(old(fragments)@, final(fragments)@),
        forall|j: int|
            0 <= j < final(fragments)@.len() ==> (#[trigger] final(fragments)@[j]).sc_code == old(
                fragments,
            )@[j].sc_code && final(fragments)@[j].sc_sutta == old(fragments)@[j].sc_sutta,
        cst_fields_ok(final(fragments)@, nikaya_structure.nikaya@, nikaya_structure.levels@),
{
    let ghost before = fragments@;
    let mut i: usize = 0;
    while i < fragments.len()
        invariant
            i <= fragments@.len(),
            same_placement(before, fragments@),
            forall|j: int|
                0 <= j < fragments@.len() ==> (#[trigger] fragments@[j]).sc_code == before[j].sc_code
                    && fragments@[j].sc_sutta == before[j].sc_sutta,
            forall|j: int|
                #![trigger fragments@[j]]
                0 <= j < i ==>
                    fields_view(
                        (
                            fragments@[j].cst_file,
                            fragments@[j].cst_code,
                            fragments@[j].cst_vagga,
                            fragments@[j].cst_sutta,
                            fragments@[j].cst_paranum,
                        ),
                    ) == cst_fields_spec(
                        fragments@[j],
                        nikaya_structure.nikaya@,
                        nikaya_structure.levels@,
                        xml_titles(fragments@[j].content_xml@).0,
                        xml_titles(fragments@[j].content_xml@).1,
                        xml_titles(fragments@[j].content_xml@).2,
                    ),
        decreases fragments@.len() - i,
    {
        let (f, code, vagga, sutta, paranum) = derive_cst_fields(
            &fragments[i],
            nikaya_structure,
        );
        let mut frag = fragments[i].clone_fragment();
        frag.cst_file = f;
        frag.cst_code = code;
        frag.cst_vagga = vagga;
        frag.cst_sutta = sutta;
        frag.cst_paranum = paranum;
        fragments.set(i, frag);
        i = i + 1;
    }
}

/// Parses the XML of a Saṃyutta Nikāya ṭīkā or commentary file into fragments: a header up
/// to and including `<body>`, sutta fragments for the body, and a header from
/// `</body>` on. A fragment whose text is blank is not kept: its text goes on
/// into the next fragment, so that with no override the fragments follow one
/// another from the start of the input and only whitespace can follow the
/// last one (see `placed_in`, `law_fragments_rebuild_input`); text left
/// without a fragment type goes on into the next fragment too. Each fragment
/// holds a slice of the input, cut where the reader stands between events,
/// with its line positions. The CST fields are derived afterwards, and the
/// SC fields are filled from the CST to SC mapping of the overrides when
/// asked for, and are left empty otherwise.
///
/// Errors: the XML reader fails, an attribute or a text cannot be read, an
/// override points before its fragment or inside a character, or the SC
/// fields are asked for without a mapping. On any other input the parse
/// succeeds (see `clean_input`).
#[verifier::spinoff_prover]
pub fn parse_into_fragments(
    xml_content: &str,
    nikaya_structure: &NikayaStructure,
    cst_file: &str,
    overrides: &ParserOverrides,
    populate_sc_fields: bool,
) -> (r: Result<Vec<XmlFragment>, ParserError>)
    requires
        xml_content.spec_bytes().len() < usize::MAX,
    ensures
        r matches Err(e) ==> parse_failure(e),
        clean_input(xml_content@, *overrides, populate_sc_fields) ==> r is Ok,
        !populate_sc_fields ==> (r matches Ok(frags) ==> forall|i: int|
            0 <= i < frags@.len() ==> (#[trigger] frags@[i]).sc_code is None && frags@[i].sc_sutta
                is None),
        r matches Ok(frags) ==> placed_in(
            frags@,
            xml_content.spec_bytes(),
            cst_file@,
            nikaya_structure.nikaya@,
            overrides.correction_overrides is None && overrides.adjustments is None,
        ) && cst_fields_ok(frags@, nikaya_structure.nikaya@, nikaya_structure.levels@),
        r matches Ok(frags) ==> starts_with_nikaya(nikaya_structure.levels@)
            ==> all_levels_well_formed(frags@),
        overrides.correction_overrides is None && overrides.adjustments is None ==> (r matches Ok(
            frags,
        ) && frags@.len() == 0 ==> blank_text(xml_content@)),
{
    let ctx = ParseCtx { xml: xml_content, structure: nikaya_structure, cst_file, overrides };
    let mut tok = XmlTokenizer::new(xml_content, true);
    let mut lines = LineTracker::new();
    let mut st = TikaState::new(&ctx);
    let ghost b = ctx.bytes();
    proof {
        encode_utf8_valid_utf8(xml_content@);
        is_char_boundary_start_end_of_seq(b);
        reveal(read_to);
    }
    loop
        invariant_except_break
            ctx.plain() && reads_cleanly(xml_content@, true) ==> reads_cleanly_from(
                xml_content@,
                true,
                tok.calls_view(),
                tok.pos_view() as nat,
            ),
        invariant
            b == ctx.bytes(),
            b.len() < usize::MAX,
            ctx.xml == xml_content,
            ctx.structure == nikaya_structure,
            ctx.cst_file == cst_file,
            ctx.overrides == overrides,
            tok.content_view() == xml_content,
            tok.pos_view() <= b.len(),
            is_char_boundary(b, tok.pos_view() as int),
            lines.at(b),
            lines.last_view() == tok.pos_view(),
            read_to(b, tok.pos_view() as int),
            st.inv(ctx, tok.pos_view()),
            tok.check_view(),
        decreases b.len() - tok.pos_view(),
    {
        let ev_start: Pos = (tok.position(), lines.current_line(), lines.current_char());
        let ghost k = tok.calls_view();
        let ghost p0 = tok.pos_view() as nat;
        let ev = match tok.next() {
            Ok(e) => e,
            Err(_) => return Err(parse_error("Failed to read XML event")),
        };
        if ev.kind == XmlEventKind::Eof {
            break;
        }
        proof {
            let s = next_event(xml_content@, true, k, p0)->0;
            assert(xml_read_step(xml_content@, true, k) == Ok::<StepView, nat>(s));
            assert(read_to(b, ev.end as int)) by {
                reveal(read_to);
            }
        }
        proof {
            if ctx.plain() && reads_cleanly(xml_content@, true) {
                let s = xml_read_step(xml_content@, true, k)->Ok_0;
                assert(event_clean(s));
                assert(attrs_view(ev.attributes@) == s.2);
                assert forall|i: int| 0 <= i < ev.attributes@.len() implies (#[trigger] ev.attributes@[i]).value is Some by {
                    assert(attrs_view(ev.attributes@)[i] == attr_view(ev.attributes@[i]));
                    assert(s.2[i].1 is Some);
                }
                assert(ev.kind is Text ==> ev.text is Some);
            }
        }
        lines.update_position(xml_content, ev.end);
        let ev_end: Pos = (ev.end, lines.current_line(), lines.current_char());
        if ev.kind == XmlEventKind::Start || ev.kind == XmlEventKind::Empty {
            match st.on_start(&ctx, &ev, ev_start, ev_end) {
                Ok(()) => {},
                Err(e) => return Err(e),
            }
        } else if ev.kind == XmlEventKind::Text {
            match st.on_text(&ctx, &ev, ev_start.0) {
                Ok(()) => {},
                Err(e) => return Err(e),
            }
        } else if ev.kind == XmlEventKind::End {
            match st.on_end(&ctx, &ev, ev_start, ev.end) {
                Ok(()) => {},
                Err(e) => return Err(e),
            }
        }
        assert(st.inv(ctx, tok.pos_view())) by {
            if ev.kind == XmlEventKind::Text || ev.kind == XmlEventKind::Other {
                assert(st.inv(ctx, ev_start.0));
            }
        }
    }
    let n = xml_content.len();
    assert(read_to(b, n as int)) by {
        reveal(read_to);
    }
    lines.update_position(xml_content, n);
    let ghost pre_finish = st;
    let close_end: Pos = (n, lines.current_line(), lines.current_char());
    match st.sink.finish(&ctx, close_end) {
        Ok(()) => {},
        Err(e) => return Err(e),
    }
    assert(starts_with_nikaya(nikaya_structure.levels@) ==> all_levels_well_formed(
        st.sink.fragments@,
    )) by {
        if starts_with_nikaya(nikaya_structure.levels@) {
            assert forall|j: int| 0 <= j < st.sink.fragments@.len() implies levels_well_formed(
                (#[trigger] st.sink.fragments@[j]).group_levels@,
            ) by {
                if j < pre_finish.sink.fragments@.len() {
                    assert(st.sink.fragments@[j] == pre_finish.sink.fragments@[j]);
                }
            }
        }
    }
    let ghost spans = st.sink.spans@;
    let ghost start0 = st.sink.start.0;
    proof {
        if ctx.plain() && st.sink.fragments@.len() == 0 {
            lemma_blank_input(xml_content@, pre_finish.sink.start.0 as int);
        }
        if ctx.plain() {
            lemma_finished_cover(
                pre_finish.sink,
                st.sink,
                ctx,
                close_end,
                Some(
                    match pre_finish.sink.frag_type {
                        Some(t) => t,
                        None => FragmentType::Header,
                    },
                ),
            );
        }
    }
    let ghost nothing_kept_blank = ctx.plain() && st.sink.fragments@.len() == 0 ==> blank_text(
        xml_content@,
    );
    let mut fragments = st.sink.fragments;
    let ghost before = fragments@;
    set_cst_fields(&mut fragments, nikaya_structure);
    proof {
        let fr = fragments@;
        assert forall|j: int| 0 <= j < fr.len() implies (#[trigger] fr[j]).group_levels@
            == before[j].group_levels@ by {}
        lemma_same_placement(before, fr, spans, b, cst_file@, nikaya_structure.nikaya@);
        lemma_nonblank_same_placement(before, fr);
        if overrides.correction_overrides is None && overrides.adjustments is None {
            assert(spans_ordered(spans, start0 as int));
            assert(spans_ordered(spans, b.len() as int));
        }
        assert(b == xml_content.spec_bytes());
        assert(fragments_match(fr, spans, xml_content.spec_bytes(), cst_file@, nikaya_structure.nikaya@));
        assert(placed_in(
            fr,
            xml_content.spec_bytes(),
            cst_file@,
            nikaya_structure.nikaya@,
            overrides.correction_overrides is None && overrides.adjustments is None,
        ));
    }
    if populate_sc_fields {
        let ghost before_sc = fragments@;
        match fill_sc_fields(&mut fragments, overrides, true) {
            Ok(()) => {},
            Err(e) => return Err(e),
        }
        proof {
            lemma_placed_in_sc_only(
                before_sc,
                fragments@,
                xml_content.spec_bytes(),
                cst_file@,
                nikaya_structure.nikaya@,
                overrides.correction_overrides is None && overrides.adjustments is None,
            );
            lemma_cst_fields_ok_sc_only(before_sc, fragments@, nikaya_structure.nikaya@, nikaya_structure.levels@);
            assert forall|j: int| 0 <= j < fragments@.len() implies (#[trigger] fragments@[j]).group_levels@
                == before_sc[j].group_levels@ by {
                assert(same_but_sc(before_sc[j], fragments@[j]));
            }
        }
    }
    assert(nothing_kept_blank);
    Ok(fragments)
}

/// Changes to the SC fields alone keep the CST fields as derived.
proof fn lemma_cst_fields_ok_sc_only(a: Seq<XmlFragment>, b: Seq<XmlFragment>, nikaya: Seq<char>, structure: Seq<GroupType>)
    requires
        cst_fields_ok(a, nikaya, structure),
        sc_only_changes(a, b),
    ensures
        cst_fields_ok(b, nikaya, structure),
{
    assert forall|j: int| 0 <= j < b.len() implies
        fields_view(
            (
                (#[trigger] b[j]).cst_file,
                b[j].cst_code,
                b[j].cst_vagga,
                b[j].cst_sutta,
                b[j].cst_paranum,
            ),
        ) == cst_fields_spec(
            b[j],
            nikaya,
            structure,
            xml_titles(b[j].content_xml@).0,
            xml_titles(b[j].content_xml@).1,
            xml_titles(b[j].content_xml@).2,
        ) by {
        assert(same_but_sc(a[j], b[j]));
        assert(a[j] == a[j]);
    }
}

} // verus!
