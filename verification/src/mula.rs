//! The fragment parser for Saṃyutta Nikāya mūla (root text) files.

use vstd::prelude::*;
use vstd::string::*;
use vstd::utf8::*;
use crate::content::{cst_fields_mula_spec, derive_cst_fields_mula, fields_view, last_attr, xml_titles};
use crate::cst::{title_number, title_number_of};
use crate::hierarchy::{
    attr_equals, attr_is, boundary_type_spec, find_type, first_index, is_commentary,
    is_commentary_file, sutta_start_spec, FragmentBoundaryDetector,
};
use crate::nikaya::NikayaStructure;
use crate::fill::{fill_sc_fields, same_but_sc, sc_only_changes};
use crate::parser::{
    clean_input, lemma_placed_in_sc_only, lemma_marked_not_blank, lemma_blank_input, blank_text,
    lemma_finished_cover, lemma_nonblank_same_placement,
    attribute_map, fragments_match, lemma_same_placement, parse_error, placed_in,
    pos_ok, read_to, same_placement, spans_ordered, closed_before_level, extended_with_levels, start_after,
    sutta_marked,
    text_between, FragmentSink, LineTracker, ParseCtx, Pos,
};
use crate::text::{
    ends_with, opt_view, str_contains, str_ends_with, str_eq, substr_bytes, trim_spec, trim_str,
};
use crate::types::{parse_failure, 
    clone_levels, FragmentType, GroupLevel, GroupType, ParserError, ParserOverrides, StringMap,
    XmlFragment,
};
use crate::xml_events::{
    attr_view, attrs_view, event_clean, next_event, reads_cleanly, reads_cleanly_from, xml_read_step, StepView, XmlEvent,
    XmlEventKind, XmlTokenizer,
};

verus! {

broadcast use vstd::utf8::encode_utf8_decode_utf8;

/// The parser for Saṃyutta Nikāya mūla files.
pub struct SamyuttaNikayaMula;

impl SamyuttaNikayaMula {
    pub fn new() -> Self {
        SamyuttaNikayaMula
    }
}

/// The levels after entering a level by the rules of this parser: like
/// `enter_level_spec`, but a level of the same type is only replaced at the
/// type's own depth in the structure.
pub open spec fn enter_level_at_depth_spec(
    levels: Seq<GroupLevel>,
    structure: Seq<GroupType>,
    t: GroupType,
    title: String,
    id: Option<String>,
    number: Option<i32>,
) -> Seq<GroupLevel> {
    let new_level = GroupLevel { group_type: t, group_number: number, title, id };
    match first_index(structure, t) {
        None => levels,
        Some(depth) => if depth == 0 && t == GroupType::Nikaya && levels.len() > 0 {
            if levels[0].group_type == GroupType::Nikaya {
                levels.update(0, new_level)
            } else {
                levels.insert(0, new_level)
            }
        } else if depth < levels.len() && levels[depth].group_type == t {
            let existing = levels[depth];
            let kept_id = if id is None {
                existing.id
            } else {
                id
            };
            let truncate = id is Some || existing.title@ != title@;
            let base = if truncate {
                levels.take(depth + 1)
            } else {
                levels
            };
            base.update(
                depth,
                GroupLevel { group_type: t, group_number: number, title, id: kept_id },
            )
        } else {
            (if depth < levels.len() {
                levels.take(depth)
            } else {
                levels
            }).push(new_level)
        },
    }
}

/// Tracks the levels of the hierarchy by depth.
struct HierarchyTracker {
    current_levels: Vec<GroupLevel>,
    nikaya_structure: NikayaStructure,
}

impl HierarchyTracker {
    closed spec fn levels_view(&self) -> Seq<GroupLevel> {
        self.current_levels@
    }

    closed spec fn structure_view(&self) -> Seq<GroupType> {
        self.nikaya_structure.levels@
    }

    fn new(nikaya_structure: NikayaStructure) -> (r: Self)
        ensures
            r.levels_view() == Seq::<GroupLevel>::empty(),
            r.structure_view() == nikaya_structure.levels@,
    {
        HierarchyTracker { current_levels: Vec::new(), nikaya_structure }
    }

    fn enter_level(
        &mut self,
        level_type: GroupType,
        title: String,
        id: Option<String>,
        number: Option<i32>,
    )
        ensures
            final(self).structure_view() == old(self).structure_view(),
            final(self).levels_view() == enter_level_at_depth_spec(
                old(self).levels_view(),
                old(self).structure_view(),
                level_type,
                title,
                id,
                number,
            ),
    {
        let depth = match find_type(&self.nikaya_structure.levels, level_type) {
            Some(d) => d,
            None => {
                return ;
            },
        };
        let n = self.current_levels.len();
        if depth == 0 && level_type == GroupType::Nikaya && n > 0 {
            let new_level = GroupLevel { group_type: level_type, group_number: number, title, id };
            if self.current_levels[0].group_type == GroupType::Nikaya {
                self.current_levels.set(0, new_level);
            } else {
                self.current_levels.insert(0, new_level);
            }
            return ;
        }
        if depth < n && self.current_levels[depth].group_type == level_type {
            let id_given = id.is_some();
            let kept_id = match id {
                None => crate::types::clone_opt_string(&self.current_levels[depth].id),
                Some(v) => Some(v),
            };
            let title_changed = !str_eq(self.current_levels[depth].title.as_str(), title.as_str());
            if id_given || title_changed {
                self.current_levels.truncate(depth + 1);
            }
            self.current_levels.set(
                depth,
                GroupLevel { group_type: level_type, group_number: number, title, id: kept_id },
            );
            return ;
        }
        self.current_levels.truncate(depth);
        self.current_levels.push(
            GroupLevel { group_type: level_type, group_number: number, title, id },
        );
    }

    fn get_current_levels(&self) -> (r: Vec<GroupLevel>)
        ensures
            r@ == self.levels_view(),
    {
        clone_levels(&self.current_levels)
    }
}

/// Whether the levels have one of type `t`.
fn has_level(levels: &Vec<GroupLevel>, t: GroupType) -> (r: bool)
    ensures
        r == exists|i: int| 0 <= i < levels@.len() && levels@[i].group_type == t,
{
    let mut i: usize = 0;
    while i < levels.len()
        invariant
            i <= levels@.len(),
            forall|j: int| 0 <= j < i ==> levels@[j].group_type != t,
        decreases levels@.len() - i,
    {
        if levels[i].group_type == t {
            return true;
        }
        i = i + 1;
    }
    false
}

/// The state of a parse between two events.
struct MulaState {
    sink: FragmentSink,
    hierarchy: HierarchyTracker,
    pending_title: Option<(GroupType, Option<String>, Option<i32>)>,
    in_sutta_content: bool,
    pending_subhead_check: Option<Pos>,
    seen_body_tag: bool,
    seen_first_sutta: bool,
    seen_first_vagga_or_sutta: bool,
    div_depth: usize,
    sutta_div_depth: Option<usize>,
    pending_sutta_div_pos: Option<Pos>,
    pending_vagga_div_pos: Option<Pos>,
}

/// What an element that may open a level does to the state (`a` before, `b`
/// after): nothing when it opens none. A `div` with an `id` enters its level
/// (with an empty title) and gives it to the current fragment; the first
/// vagga or sutta level is only noted, and a later samyutta, vagga or sutta
/// level inside the body ends a sutta fragment that holds sutta content (the
/// next one is a sutta fragment, unless the level is a samyutta). Any other
/// element that opens a level leaves its type as the title still to come,
/// unless it is a sutta subhead; an Aṅguttara vagga chapter inside the body
/// ends a sutta fragment like a level does (the first one is only noted).
spec fn boundary_done(
    a: MulaState,
    b: MulaState,
    ctx: ParseCtx,
    tag: Seq<char>,
    attrs: StringMap<String>,
    ev_start: Pos,
) -> bool {
    let nik = ctx.structure.nikaya@;
    match boundary_type_spec(nik, tag, attrs) {
        None => b == a,
        Some(t) => if tag == "div"@ && attrs.spec_get("id"@) is Some {
            let vs = t == GroupType::Vagga || t == GroupType::Sutta;
            let structural = t == GroupType::Samyutta || vs;
            let first = !a.seen_first_vagga_or_sutta && vs;
            let next = if t != GroupType::Samyutta {
                Some(FragmentType::Sutta)
            } else {
                None
            };
            &&& b == (MulaState {
                sink: b.sink,
                hierarchy: b.hierarchy,
                seen_first_vagga_or_sutta: a.seen_first_vagga_or_sutta || vs,
                ..a
            })
            &&& b.hierarchy.structure_view() == a.hierarchy.structure_view()
            &&& exists|title: String|
                title@ == Seq::<char>::empty() && b.hierarchy.levels_view()
                    == enter_level_at_depth_spec(
                    a.hierarchy.levels_view(),
                    a.hierarchy.structure_view(),
                    t,
                    title,
                    attrs.spec_get("id"@),
                    None,
                )
            &&& b.sink.frag_levels@ == b.hierarchy.levels_view()
            &&& if !first && structural && a.in_sutta_content {
                closed_before_level(
                    a.sink,
                    (FragmentSink { frag_levels: a.sink.frag_levels, ..b.sink }),
                    ctx.bytes(),
                    ev_start,
                    next,
                    ctx.plain(),
                )
            } else {
                b.sink == (FragmentSink { frag_levels: b.sink.frag_levels, ..a.sink })
            }
        } else {
            let p = tag == "p"@;
            let mn_sn_an = nik == "majjhima"@ || nik == "samyutta"@ || nik == "anguttara"@;
            let subhead = mn_sn_an && t == GroupType::Sutta && p && attr_is(attrs, "rend"@, "subhead"@);
            let an_ch = nik == "anguttara"@ && t == GroupType::Vagga && p && attr_is(
                attrs,
                "rend"@,
                "chapter"@,
            );
            &&& b == (MulaState {
                sink: b.sink,
                seen_first_vagga_or_sutta: b.seen_first_vagga_or_sutta,
                pending_title: b.pending_title,
                ..a
            })
            &&& b.seen_first_vagga_or_sutta == (a.seen_first_vagga_or_sutta || (an_ch
                && a.in_sutta_content))
            &&& b.pending_title == if !subhead {
                Some((t, None, None))
            } else {
                a.pending_title
            }
            &&& if an_ch && a.in_sutta_content && a.seen_first_vagga_or_sutta {
                closed_before_level(
                    a.sink,
                    b.sink,
                    ctx.bytes(),
                    ev_start,
                    Some(FragmentType::Sutta),
                    ctx.plain(),
                )
            } else {
                b.sink == a.sink
            }
        },
    }
}

/// What an element that may start a sutta does (`a` before, `b` after): a
/// Majjhima, Saṃyutta or Aṅguttara subhead is kept for the check of its
/// title; another sutta start is only noted when it is the first inside the
/// body, and later ends the current fragment (at the pending sutta `div`, if
/// any, else at the element) and starts a sutta fragment with the current
/// levels. A sutta `div` of a root text records its depth.
spec fn sutta_marker_done(
    a: MulaState,
    b: MulaState,
    ctx: ParseCtx,
    tag: Seq<char>,
    attrs: StringMap<String>,
    ev_start: Pos,
) -> bool {
    let nik = ctx.structure.nikaya@;
    let commentary = is_commentary_file(ctx.cst_file@);
    let marker = sutta_start_spec(nik, commentary, tag, attrs);
    let mn_sn_an = nik == "majjhima"@ || nik == "samyutta"@ || nik == "anguttara"@;
    let subhead = marker && mn_sn_an && tag == "p"@ && attr_is(attrs, "rend"@, "subhead"@);
    let track = tag == "div"@ && attr_is(attrs, "type"@, "sutta"@) && !commentary;
    let depth = if track {
        Some(a.div_depth)
    } else {
        a.sutta_div_depth
    };
    if subhead {
        b == (MulaState { pending_subhead_check: Some(ev_start), ..a })
    } else if marker && !a.seen_first_sutta && a.in_sutta_content {
        b == (MulaState { seen_first_sutta: true, sutta_div_depth: depth, ..a })
    } else if marker && a.seen_first_sutta {
        &&& b == (MulaState { sink: b.sink, pending_sutta_div_pos: None, sutta_div_depth: depth, ..a })
        &&& extended_with_levels(a.sink.fragments@, b.sink.fragments@, a.sink.frag_levels@)
        &&& b.sink.frag_type == Some(FragmentType::Sutta)
        &&& b.sink.frag_levels@ == a.hierarchy.levels_view()
        &&& ctx.plain() ==> b.sink.start == start_after(
            ctx.bytes(),
            a.sink.start,
            match a.pending_sutta_div_pos {
                Some(q) => q,
                None => ev_start,
            },
            a.sink.frag_type,
        )
    } else {
        b == a
    }
}

/// The trimmed text of a text event.
spec fn event_trimmed(ev: XmlEvent) -> Seq<char> {
    match ev.text {
        Some(t) => trim_spec(t@),
        None => Seq::empty(),
    }
}

/// A subhead waits for its text, and the text names a sutta: one that ends
/// in "suttavaṇṇanā" in a commentary, one with a title number otherwise.
spec fn subhead_names_sutta(a: MulaState, ctx: ParseCtx, ev: XmlEvent) -> bool {
    a.pending_subhead_check is Some && if is_commentary_file(ctx.cst_file@) {
        ends_with(event_trimmed(ev), "suttavaṇṇanā"@)
    } else {
        title_number(event_trimmed(ev)) is Some
    }
}

/// What a text does (`a` before, `b` after): it answers a pending subhead
/// and a pending title, which are then gone. A subhead that names a sutta
/// notes the first sutta inside the body, or later starts a new sutta
/// fragment, entering the sutta level with the text as title; the pending
/// vagga `div` is then dropped. The other parts of the state stay.
spec fn text_done(a: MulaState, b: MulaState, ctx: ParseCtx, ev: XmlEvent) -> bool {
    let named = subhead_names_sutta(a, ctx, ev);
    let starts = named && (a.seen_first_sutta || a.in_sutta_content);
    &&& b == (MulaState {
        sink: b.sink,
        hierarchy: b.hierarchy,
        pending_title: None,
        pending_subhead_check: None,
        seen_first_sutta: a.seen_first_sutta || (named && a.in_sutta_content),
        pending_vagga_div_pos: if starts {
            None
        } else {
            a.pending_vagga_div_pos
        },
        ..a
    })
    &&& b.hierarchy.structure_view() == a.hierarchy.structure_view()
    &&& !starts ==> b.sink.fragments == a.sink.fragments && b.sink.frag_type == a.sink.frag_type
    &&& starts ==> b.sink.frag_type is Some
    &&& !starts && (a.pending_title is None || event_trimmed(ev).len() == 0) ==> b.hierarchy
        == a.hierarchy && b.sink == a.sink
    &&& !starts && event_trimmed(ev).len() > 0 ==> match a.pending_title {
        Some((t, id, n)) => exists|title: String|
            title@ == event_trimmed(ev) && b.hierarchy.levels_view() == enter_level_at_depth_spec(
                a.hierarchy.levels_view(),
                a.hierarchy.structure_view(),
                t,
                title,
                id,
                n,
            ),
        None => true,
    }
}

/// A `div` (`a` before): one level deeper; a sutta `div` of a Dīgha
/// commentary and a vagga `div` of Majjhima or Saṃyutta are kept as the
/// place where the fragment before them ends.
spec fn div_done(a: MulaState, ctx: ParseCtx, attrs: StringMap<String>, ev_start: Pos) -> MulaState {
    MulaState {
        div_depth: (a.div_depth + 1) as usize,
        pending_sutta_div_pos: if is_commentary_file(ctx.cst_file@) && ctx.structure.nikaya@
            == "digha"@ && attr_is(attrs, "type"@, "sutta"@) {
            Some(ev_start)
        } else {
            a.pending_sutta_div_pos
        },
        pending_vagga_div_pos: if (ctx.structure.nikaya@ == "majjhima"@ || ctx.structure.nikaya@
            == "samyutta"@) && attr_is(attrs, "type"@, "vagga"@) {
            Some(ev_start)
        } else {
            a.pending_vagga_div_pos
        },
        ..a
    }
}

/// The opening `<body>` (`a` before, `b` after): the fragment so far, if it
/// has a type, ends at the end of the tag; a sutta fragment with the current
/// levels starts there, and the body is entered.
spec fn body_opened(a: MulaState, b: MulaState, ctx: ParseCtx, ev_end: Pos) -> bool {
    &&& b == (MulaState { sink: b.sink, seen_body_tag: true, in_sutta_content: true, ..a })
    &&& b.sink.frag_type == Some(FragmentType::Sutta)
    &&& b.sink.frag_levels@ == a.hierarchy.levels_view()
    &&& if a.sink.frag_type is Some {
        extended_with_levels(a.sink.fragments@, b.sink.fragments@, a.sink.frag_levels@) && (
        ctx.plain() ==> b.sink.start == start_after(ctx.bytes(), a.sink.start, ev_end, a.sink.frag_type))
    } else {
        b.sink.fragments == a.sink.fragments && b.sink.start == a.sink.start
    }
}

/// What a start or empty tag does (`a` before, `b` after), its attributes
/// read as a map: a `div` goes one level deeper, the first `<body>` opens the
/// body, then the tag is taken as a possible level and as a possible sutta start.
spec fn start_done(a: MulaState, b: MulaState, ctx: ParseCtx, ev: XmlEvent, ev_start: Pos, ev_end: Pos) -> bool {
    exists|attrs: StringMap<String>, s1: MulaState, s2: MulaState, s3: MulaState|
        #[trigger] start_steps(a, b, ctx, ev, ev_start, ev_end, attrs, s1, s2, s3)
}

/// The steps of a start tag through the states `s1`, `s2` and `s3` (see `start_done`).
spec fn start_steps(
    a: MulaState,
    b: MulaState,
    ctx: ParseCtx,
    ev: XmlEvent,
    ev_start: Pos,
    ev_end: Pos,
    attrs: StringMap<String>,
    s1: MulaState,
    s2: MulaState,
    s3: MulaState,
) -> bool {
    &&& forall|k: Seq<char>|
        #![trigger attrs.spec_get(k)]
        opt_view(attrs.spec_get(k)) == last_attr(ev.attributes@, k)
    &&& s1 == if ev.name@ == "div"@ {
        div_done(a, ctx, attrs, ev_start)
    } else {
        a
    }
    &&& if ev.name@ == "body"@ && !s1.seen_body_tag {
        body_opened(s1, s2, ctx, ev_end)
    } else {
        s2 == s1
    }
    &&& boundary_done(s2, s3, ctx, ev.name@, attrs, ev_start)
    &&& sutta_marker_done(s3, b, ctx, ev.name@, attrs, ev_start)
}

/// An optional position that is valid and, with no override, not after `cur`.
spec fn opt_pos_ok(b: Seq<u8>, p: Option<Pos>, plain: bool, cur: usize) -> bool {
    p matches Some(q) ==> pos_ok(b, q, plain) && (plain ==> q.0 <= cur)
}

impl MulaState {
    /// The sink is consistent, the positions kept for later are valid, and
    /// with no override nothing points after `cur`, the bytes read so far.
    spec fn inv(&self, ctx: ParseCtx, cur: usize) -> bool {
        &&& self.sink.inv(ctx)
        &&& ctx.plain() ==> self.sink.start.0 <= cur
        &&& opt_pos_ok(ctx.bytes(), self.pending_subhead_check, ctx.plain(), cur)
        &&& opt_pos_ok(ctx.bytes(), self.pending_sutta_div_pos, ctx.plain(), cur)
        &&& opt_pos_ok(ctx.bytes(), self.pending_vagga_div_pos, ctx.plain(), cur)
        &&& self.div_depth <= cur
        &&& cur <= ctx.bytes().len()
    }

    fn new(ctx: &ParseCtx) -> (r: Self)
        ensures
            r.inv(*ctx, 0),
            r.sink.fragments@.len() == 0,
    {
        MulaState {
            sink: FragmentSink::new(ctx),
            hierarchy: HierarchyTracker::new(ctx.structure.duplicate()),
            pending_title: None,
            in_sutta_content: false,
            pending_subhead_check: None,
            seen_body_tag: false,
            seen_first_sutta: false,
            seen_first_vagga_or_sutta: false,
            div_depth: 0,
            sutta_div_depth: None,
            pending_sutta_div_pos: None,
            pending_vagga_div_pos: None,
        }
    }

    /// Whether the current fragment, up to `upto`, already holds sutta content
    /// (a subhead, chapter or bodytext marker).
    fn has_sutta_content(&self, ctx: &ParseCtx, upto: Pos) -> (r: bool)
        requires
            self.sink.inv(*ctx),
            pos_ok(ctx.bytes(), upto, ctx.plain()),
        ensures
            r == (self.sink.start.0 <= upto.0 && sutta_marked(
                text_between(ctx.bytes(), self.sink.start.0 as int, upto.0 as int),
            )),
    {
        let s = self.sink.start.0;
        if s > upto.0 {
            return false;
        }
        let tentative = substr_bytes(ctx.xml, s, upto.0);
        str_contains(tentative, "rend=\"subhead\"") || str_contains(tentative, "rend=\"chapter\"")
            || str_contains(tentative, "rend=\"bodytext\"")
    }

    proof fn lemma_inv_mono(&self, ctx: ParseCtx, c1: usize, c2: usize)
        requires
            self.inv(ctx, c1),
            c1 <= c2 <= ctx.bytes().len(),
        ensures
            self.inv(ctx, c2),
    {
    }

    fn open_body(&mut self, ctx: &ParseCtx, ev_end: Pos) -> (r: Result<(), ParserError>)
        requires
            old(self).inv(*ctx, ev_end.0),
            pos_ok(ctx.bytes(), ev_end, ctx.plain()),
        ensures
            r matches Err(e) ==> parse_failure(e),
            ctx.plain() ==> r is Ok,
            r is Ok ==> final(self).inv(*ctx, ev_end.0),
            r is Ok ==> body_opened(*old(self), *final(self), *ctx, ev_end),
    {
        self.seen_body_tag = true;
        if self.sink.frag_type.is_some() {
            match self.sink.close_and_advance(ctx, ev_end) {
                Ok(_) => {},
                Err(e) => return Err(e),
            }
        }
        self.sink.frag_type = Some(FragmentType::Sutta);
        self.sink.frag_levels = self.hierarchy.get_current_levels();
        self.in_sutta_content = true;
        Ok(())
    }

    /// Closes the current sutta fragment before a new level when it already
    /// holds sutta content; the next fragment gets the type `next_type`.
    fn close_before_level(&mut self, ctx: &ParseCtx, ev_start: Pos, ev_end: Pos, next_type: Option<
        FragmentType,
    >) -> (r: Result<(), ParserError>)
        requires
            old(self).inv(*ctx, ev_end.0),
            pos_ok(ctx.bytes(), ev_start, ctx.plain()),
            ev_start.0 <= ev_end.0,
        ensures
            r matches Err(e) ==> parse_failure(e),
            ctx.plain() ==> r is Ok,
            r is Ok ==> final(self).inv(*ctx, ev_end.0),
            r is Ok ==> *final(self) == (MulaState { sink: final(self).sink, ..*old(self) }),
            r is Ok ==> closed_before_level(
                old(self).sink,
                final(self).sink,
                ctx.bytes(),
                ev_start,
                next_type,
                ctx.plain(),
            ),
    {
        if self.sink.frag_type == Some(FragmentType::Sutta) {
            let has = self.has_sutta_content(ctx, ev_start);
            if has {
                proof {
                    if ctx.plain() {
                        lemma_marked_not_blank(
                            text_between(ctx.bytes(), self.sink.start.0 as int, ev_start.0 as int),
                        );
                    }
                }
                match self.sink.close_and_advance(ctx, ev_start) {
                    Ok(_) => {},
                    Err(e) => return Err(e),
                }
                self.sink.frag_type = next_type;
            }
        }
        Ok(())
    }

    fn boundary_step(
        &mut self,
        ctx: &ParseCtx,
        tag: &str,
        attrs: &StringMap<String>,
        ev_start: Pos,
        ev_end: Pos,
    ) -> (r: Result<(), ParserError>)
        requires
            old(self).inv(*ctx, ev_end.0),
            pos_ok(ctx.bytes(), ev_start, ctx.plain()),
            ev_start.0 <= ev_end.0,
        ensures
            r matches Err(e) ==> parse_failure(e),
            ctx.plain() ==> r is Ok,
            r is Ok ==> final(self).inv(*ctx, ev_end.0),
            r is Ok ==> boundary_done(*old(self), *final(self), *ctx, tag@, *attrs, ev_start),
    {
        let nikaya = ctx.structure.nikaya.as_str();
        let detector = FragmentBoundaryDetector::new(ctx.structure, ctx.cst_file);
        if let Some((group_type, _title, id, number)) = detector.check_boundary(tag, attrs) {
            if str_eq(tag, "div") && id.is_some() {
                let is_structure_level = group_type == GroupType::Samyutta || group_type
                    == GroupType::Vagga || group_type == GroupType::Sutta;
                let is_vagga_or_sutta = group_type == GroupType::Vagga || group_type
                    == GroupType::Sutta;
                if !self.seen_first_vagga_or_sutta && is_vagga_or_sutta {
                    self.seen_first_vagga_or_sutta = true;
                } else if is_structure_level && self.in_sutta_content {
                    let next_type = if group_type != GroupType::Samyutta {
                        Some(FragmentType::Sutta)
                    } else {
                        None
                    };
                    match self.close_before_level(ctx, ev_start, ev_end, next_type) {
                        Ok(()) => {},
                        Err(e) => return Err(e),
                    }
                }
                let title = String::new();
                let ghost tg = title;
                self.hierarchy.enter_level(group_type, title, id, number);
                self.sink.frag_levels = self.hierarchy.get_current_levels();
            } else {
                let is_mn_sn_an = str_eq(nikaya, "majjhima") || str_eq(nikaya, "samyutta")
                    || str_eq(nikaya, "anguttara");
                let is_p = str_eq(tag, "p");
                let is_sutta_subhead = is_mn_sn_an && group_type == GroupType::Sutta && is_p
                    && attr_equals(attrs, "rend", "subhead");
                let is_an_vagga_chapter = str_eq(nikaya, "anguttara") && group_type
                    == GroupType::Vagga && is_p && attr_equals(attrs, "rend", "chapter");
                if is_an_vagga_chapter && self.in_sutta_content {
                    if !self.seen_first_vagga_or_sutta {
                        self.seen_first_vagga_or_sutta = true;
                    } else {
                        match self.close_before_level(
                            ctx,
                            ev_start,
                            ev_end,
                            Some(FragmentType::Sutta),
                        ) {
                            Ok(()) => {},
                            Err(e) => return Err(e),
                        }
                    }
                }
                if !is_sutta_subhead {
                    self.pending_title = Some((group_type, id, number));
                }
            }
        }
        Ok(())
    }

    fn div_step(&mut self, ctx: &ParseCtx, attrs: &StringMap<String>, ev_start: Pos, ev_end: Pos)
        requires
            old(self).inv(*ctx, ev_start.0),
            pos_ok(ctx.bytes(), ev_start, ctx.plain()),
            ev_start.0 < ev_end.0 <= ctx.bytes().len(),
        ensures
            final(self).inv(*ctx, ev_end.0),
            *final(self) == div_done(*old(self), *ctx, *attrs, ev_start),
    {
        let nikaya = ctx.structure.nikaya.as_str();
        self.div_depth = self.div_depth + 1;
        if is_commentary(ctx.cst_file) && str_eq(nikaya, "digha") && attr_equals(
            attrs,
            "type",
            "sutta",
        ) {
            self.pending_sutta_div_pos = Some(ev_start);
        }
        if (str_eq(nikaya, "majjhima") || str_eq(nikaya, "samyutta")) && attr_equals(
            attrs,
            "type",
            "vagga",
        ) {
            self.pending_vagga_div_pos = Some(ev_start);
        }
    }

    fn sutta_marker_step(
        &mut self,
        ctx: &ParseCtx,
        tag: &str,
        attrs: &StringMap<String>,
        ev_start: Pos,
        ev_end: Pos,
    ) -> (r: Result<(), ParserError>)
        requires
            old(self).inv(*ctx, ev_end.0),
            pos_ok(ctx.bytes(), ev_start, ctx.plain()),
            ev_start.0 <= ev_end.0,
        ensures
            r matches Err(e) ==> parse_failure(e),
            ctx.plain() ==> r is Ok,
            r is Ok ==> final(self).inv(*ctx, ev_end.0),
            r is Ok ==> sutta_marker_done(*old(self), *final(self), *ctx, tag@, *attrs, ev_start),
    {
        let nikaya = ctx.structure.nikaya.as_str();
        let is_mn_sn_an = str_eq(nikaya, "majjhima") || str_eq(nikaya, "samyutta") || str_eq(
            nikaya,
            "anguttara",
        );
        let is_p = str_eq(tag, "p");
        let detector = FragmentBoundaryDetector::new(ctx.structure, ctx.cst_file);
        let is_potential_sutta_marker = detector.is_sutta_start(tag, attrs);
        if is_potential_sutta_marker && is_mn_sn_an && is_p && attr_equals(
            attrs,
            "rend",
            "subhead",
        ) {
            self.pending_subhead_check = Some(ev_start);
        } else if is_potential_sutta_marker {
            let should_track_div_depth = str_eq(tag, "div") && attr_equals(attrs, "type", "sutta")
                && !is_commentary(ctx.cst_file);
            if !self.seen_first_sutta && self.in_sutta_content {
                self.seen_first_sutta = true;
                if should_track_div_depth {
                    self.sutta_div_depth = Some(self.div_depth);
                }
            } else if self.seen_first_sutta {
                let close = match self.pending_sutta_div_pos {
                    Some(p) => p,
                    None => ev_start,
                };
                self.pending_sutta_div_pos = None;
                let ft = self.sink.frag_type;
                match self.sink.close_as(ctx, close, ft) {
                    Ok(_) => {},
                    Err(e) => return Err(e),
                }
                self.sink.frag_type = Some(FragmentType::Sutta);
                self.sink.frag_levels = self.hierarchy.get_current_levels();
                if should_track_div_depth {
                    self.sutta_div_depth = Some(self.div_depth);
                }
            }
        }
        Ok(())
    }

    fn on_start(&mut self, ctx: &ParseCtx, ev: &XmlEvent, ev_start: Pos, ev_end: Pos) -> (r: Result<
        (),
        ParserError,
    >)
        requires
            old(self).inv(*ctx, ev_start.0),
            pos_ok(ctx.bytes(), ev_start, ctx.plain()),
            pos_ok(ctx.bytes(), ev_end, ctx.plain()),
            ev_start.0 < ev_end.0,
        ensures
            r matches Err(e) ==> parse_failure(e),
            ctx.plain() && ev.attributes_ok && (forall|i: int|
                0 <= i < ev.attributes@.len() ==> (#[trigger] ev.attributes@[i]).value is Some) ==> r is Ok,
            r is Ok ==> final(self).inv(*ctx, ev_end.0),
            !ev.attributes_ok ==> r is Err,
            r is Ok ==> start_done(*old(self), *final(self), *ctx, *ev, ev_start, ev_end),
    {
        let tag = ev.name.as_str();
        let attrs = match attribute_map(ev) {
            Ok(m) => m,
            Err(e) => return Err(e),
        };
        let is_div = str_eq(tag, "div");
        let ghost c0 = ev_start.0;
        if is_div {
            self.div_step(ctx, &attrs, ev_start, ev_end);
        } else {
            proof {
                self.lemma_inv_mono(*ctx, c0, ev_end.0);
            }
        }
        let ghost s1 = *self;
        if str_eq(tag, "body") && !self.seen_body_tag {
            match self.open_body(ctx, ev_end) {
                Ok(()) => {},
                Err(e) => return Err(e),
            }
        }
        let ghost s2 = *self;
        match self.boundary_step(ctx, tag, &attrs, ev_start, ev_end) {
            Ok(()) => {},
            Err(e) => return Err(e),
        }
        let ghost s3 = *self;
        let r = self.sutta_marker_step(ctx, tag, &attrs, ev_start, ev_end);
        proof {
            if r is Ok {
                let a = attrs;
                assert(forall|k: Seq<char>|
                    #![trigger a.spec_get(k)]
                    opt_view(a.spec_get(k)) == last_attr(ev.attributes@, k));
                assert(s1 == if ev.name@ == "div"@ {
                    div_done(*old(self), *ctx, a, ev_start)
                } else {
                    *old(self)
                });
                assert(sutta_marker_done(s3, *self, *ctx, ev.name@, a, ev_start));
                assert(start_steps(*old(self), *self, *ctx, *ev, ev_start, ev_end, a, s1, s2, s3));
            }
        }
        r
    }

    fn on_text(&mut self, ctx: &ParseCtx, ev: &XmlEvent, cur: usize) -> (r: Result<(), ParserError>)
        requires
            old(self).inv(*ctx, cur),
        ensures
            r matches Err(e) ==> parse_failure(e),
            ctx.plain() && ev.text is Some ==> r is Ok,
            r is Ok ==> final(self).inv(*ctx, cur),
            ev.text is None ==> r is Err,
            r is Ok ==> text_done(*old(self), *final(self), *ctx, *ev),
    {
        let raw = match &ev.text {
            Some(t) => t,
            None => return Err(parse_error("Failed to unescape text content")),
        };
        let text = trim_str(raw.as_str()).to_string();
        if let Some(sub) = self.pending_subhead_check {
            self.pending_subhead_check = None;
            let is_sutta = if is_commentary(ctx.cst_file) {
                str_ends_with(text.as_str(), "suttavaṇṇanā")
            } else {
                title_number_of(text.as_str()).is_some()
            };
            if is_sutta {
                if !self.seen_first_sutta && self.in_sutta_content {
                    self.seen_first_sutta = true;
                    self.pending_vagga_div_pos = None;
                    self.hierarchy.enter_level(GroupType::Sutta, text.clone(), None, None);
                    if self.sink.frag_type.is_none() {
                        self.sink.frag_type = Some(FragmentType::Sutta);
                    }
                    self.sink.frag_levels = self.hierarchy.get_current_levels();
                } else if self.seen_first_sutta {
                    let close = match self.pending_vagga_div_pos {
                        Some(p) => p,
                        None => sub,
                    };
                    self.pending_vagga_div_pos = None;
                    if self.sink.frag_type.is_some() {
                        match self.sink.close_and_advance(ctx, close) {
                            Ok(_) => {},
                            Err(e) => return Err(e),
                        }
                    }
                    self.hierarchy.enter_level(GroupType::Sutta, text.clone(), None, None);
                    self.sink.frag_type = Some(FragmentType::Sutta);
                    self.sink.frag_levels = self.hierarchy.get_current_levels();
                }
            }
        }
        if let Some((group_type, id, number)) = self.pending_title.take() {
            if !text.as_str().is_empty() {
                self.hierarchy.enter_level(group_type, text, id, number);
                let should_update = if group_type == GroupType::Vagga && self.sink.frag_type
                    == Some(FragmentType::Sutta) {
                    !has_level(&self.sink.frag_levels, GroupType::Vagga)
                } else if group_type == GroupType::Samyutta && self.sink.frag_type == Some(
                    FragmentType::Sutta,
                ) {
                    !has_level(&self.sink.frag_levels, GroupType::Samyutta)
                } else {
                    true
                };
                if should_update {
                    self.sink.frag_levels = self.hierarchy.get_current_levels();
                }
            }
        }
        Ok(())
    }

    fn on_end(&mut self, ctx: &ParseCtx, ev: &XmlEvent, ev_start: Pos, ev_end: usize) -> (r: Result<
        (),
        ParserError,
    >)
        requires
            old(self).inv(*ctx, ev_start.0),
            pos_ok(ctx.bytes(), ev_start, ctx.plain()),
            ev_start.0 < ev_end <= ctx.bytes().len(),
        ensures
            r matches Err(e) ==> parse_failure(e),
            ctx.plain() ==> r is Ok,
            r is Ok ==> final(self).inv(*ctx, ev_end),
            r is Ok ==> *final(self) == (MulaState {
                sink: final(self).sink,
                div_depth: final(self).div_depth,
                sutta_div_depth: final(self).sutta_div_depth,
                in_sutta_content: final(self).in_sutta_content,
                ..*old(self)
            }),
            r is Ok ==> if ev.name@ == "div"@ {
                &&& final(self).div_depth == if old(self).div_depth > 0 {
                    (old(self).div_depth - 1) as usize
                } else {
                    0
                }
                &&& final(self).sutta_div_depth == if old(self).in_sutta_content
                    && old(self).sutta_div_depth == Some(old(self).div_depth) {
                    None
                } else {
                    old(self).sutta_div_depth
                }
            } else {
                final(self).div_depth == old(self).div_depth && final(self).sutta_div_depth == old(
                    self,
                ).sutta_div_depth
            },
            r is Ok ==> if ev.name@ == "body"@ && old(self).seen_body_tag {
                &&& final(self).sink.frag_type == Some(FragmentType::Header)
                &&& final(self).sink.frag_levels@ == old(self).hierarchy.levels_view()
                &&& !final(self).in_sutta_content
                &&& if old(self).sink.frag_type is Some {
                    extended_with_levels(
                        old(self).sink.fragments@,
                        final(self).sink.fragments@,
                        old(self).sink.frag_levels@,
                    )
                } else {
                    final(self).sink.fragments == old(self).sink.fragments && final(self).sink.start
                        == old(self).sink.start
                }
            } else {
                final(self).sink == old(self).sink && final(self).in_sutta_content == old(
                    self,
                ).in_sutta_content
            },
    {
        let tag = ev.name.as_str();
        if str_eq(tag, "div") {
            if self.in_sutta_content {
                if let Some(d) = self.sutta_div_depth {
                    if self.div_depth == d {
                        self.sutta_div_depth = None;
                    }
                }
            }
            self.div_depth = if self.div_depth > 0 {
                self.div_depth - 1
            } else {
                0
            };
        }
        if str_eq(tag, "body") && self.seen_body_tag {
            match self.sink.frag_type {
                Some(t) => {
                    match self.sink.close_as(ctx, ev_start, Some(t)) {
                        Ok(_) => {},
                        Err(e) => return Err(e),
                    }
                },
                None => {},
            }
            self.sink.frag_type = Some(FragmentType::Header);
            self.sink.frag_levels = self.hierarchy.get_current_levels();
            self.in_sutta_content = false;
        }
        Ok(())
    }
}

/// Each fragment has the CST fields that the rules of this parser give for
/// what its XML yields.
pub open spec fn cst_fields_mula_ok(frags: Seq<XmlFragment>, nikaya: Seq<char>) -> bool {
    forall|j: int|
        #![trigger frags[j]]
        0 <= j < frags.len() ==>
            fields_view(
                (
                    frags[j].cst_file,
                    frags[j].cst_code,
                    frags[j].cst_vagga,
                    frags[j].cst_sutta,
                    frags[j].cst_paranum,
                ),
            ) == cst_fields_mula_spec(
                frags[j],
                nikaya,
                xml_titles(frags[j].content_xml@).0,
                xml_titles(frags[j].content_xml@).1,
                xml_titles(frags[j].content_xml@).2,
            )
}

/// Sets the CST fields of every fragment by the rules of this parser.
fn set_cst_fields(fragments: &mut Vec<XmlFragment>, nikaya_structure: &NikayaStructure)
    ensures
        same_placement(old(fragments)@, final(fragments)@),
        forall|j: int|
            0 <= j < final(fragments)@.len() ==> (#[trigger] final(fragments)@[j]).sc_code == old(
                fragments,
            )@[j].sc_code && final(fragments)@[j].sc_sutta == old(fragments)@[j].sc_sutta,
        cst_fields_mula_ok(final(fragments)@, nikaya_structure.nikaya@),
{
    let ghost before = fragments@;
    let mut i: usize = 0;
    while i < fragments.len()
        invariant
            i <= fragments@.len(),
            same_placement(before, fragments@),
            forall|j: int|
                0 <= j < fragments@.len() ==> (#[trigger] fragments@[j]).sc_code == before[j].sc_code
                    && fragments@[j].sc_sutta == before[j].sc_sutta,
            forall|j: int|
                #![trigger fragments@[j]]
                0 <= j < i ==>
                    fields_view(
                        (
                            fragments@[j].cst_file,
                            fragments@[j].cst_code,
                            fragments@[j].cst_vagga,
                            fragments@[j].cst_sutta,
                            fragments@[j].cst_paranum,
                        ),
                    ) == cst_fields_mula_spec(
                        fragments@[j],
                        nikaya_structure.nikaya@,
                        xml_titles(fragments@[j].content_xml@).0,
                        xml_titles(fragments@[j].content_xml@).1,
                        xml_titles(fragments@[j].content_xml@).2,
                    ),
        decreases fragments@.len() - i,
    {
        let (f, code, vagga, sutta, paranum) = derive_cst_fields_mula(
            &fragments[i],
            nikaya_structure,
        );
        let mut frag = fragments[i].clone_fragment();
        frag.cst_file = f;
        frag.cst_code = code;
        frag.cst_vagga = vagga;
        frag.cst_sutta = sutta;
        frag.cst_paranum = paranum;
        fragments.set(i, frag);
        i = i + 1;
    }
}

/// Parses the XML of a Saṃyutta Nikāya mūla file into fragments: a header up
/// to and including `<body>`, sutta fragments for the body, and a header from
/// `</body>` on. A fragment whose text is blank is not kept: its text goes on
/// into the next fragment, so that with no override the fragments follow one
/// another from the start of the input and only whitespace can follow the
/// last one (see `placed_in`, `law_fragments_rebuild_input`); text left
/// without a fragment type goes on into the next fragment too. Each fragment
/// holds a slice of the input, cut where the reader stands between events,
/// with its line positions. The CST fields are derived afterwards, and the
/// SC fields are filled from the CST to SC mapping of the overrides when
/// asked for, and are left empty otherwise.
///
/// Errors: the XML reader fails, an attribute or a text cannot be read, an
/// override points before its fragment or inside a character, or the SC
/// fields are asked for without a mapping. On any other input the parse
/// succeeds (see `clean_input`).
#[verifier::spinoff_prover]
pub fn parse_into_fragments(
    xml_content: &str,
    nikaya_structure: &NikayaStructure,
    cst_file: &str,
    overrides: &ParserOverrides,
    populate_sc_fields: bool,
) -> (r: Result<Vec<XmlFragment>, ParserError>)
    requires
        xml_content.spec_bytes().len() < usize::MAX,
    ensures
        r matches Err(e) ==> parse_failure(e),
        clean_input(xml_content@, *overrides, populate_sc_fields) ==> r is Ok,
        !populate_sc_fields ==> (r matches Ok(frags) ==> forall|i: int|
            0 <= i < frags@.len() ==> (#[trigger] frags@[i]).sc_code is None && frags@[i].sc_sutta
                is None),
        r matches Ok(frags) ==> placed_in(
            frags@,
            xml_content.spec_bytes(),
            cst_file@,
            nikaya_structure.nikaya@,
            overrides.correction_overrides is None && overrides.adjustments is None,
        ) && cst_fields_mula_ok(frags@, nikaya_structure.nikaya@),
        overrides.correction_overrides is None && overrides.adjustments is None ==> (r matches Ok(
            frags,
        ) && frags@.len() == 0 ==> blank_text(xml_content@)),
{
    let ctx = ParseCtx { xml: xml_content, structure: nikaya_structure, cst_file, overrides };
    let mut tok = XmlTokenizer::new(xml_content, true);
    let mut lines = LineTracker::new();
    let mut st = MulaState::new(&ctx);
    let ghost b = ctx.bytes();
    proof {
        encode_utf8_valid_utf8(xml_content@);
        is_char_boundary_start_end_of_seq(b);
        reveal(read_to);
    }
    loop
        invariant_except_break
            ctx.plain() && reads_cleanly(xml_content@, true) ==> reads_cleanly_from(
                xml_content@,
                true,
                tok.calls_view(),
                tok.pos_view() as nat,
            ),
        invariant
            b == ctx.bytes(),
            b.len() < usize::MAX,
            ctx.xml == xml_content,
            ctx.structure == nikaya_structure,
            ctx.cst_file == cst_file,
            ctx.overrides == overrides,
            tok.content_view() == xml_content,
            tok.pos_view() <= b.len(),
            is_char_boundary(b, tok.pos_view() as int),
            lines.at(b),
            lines.last_view() == tok.pos_view(),
            read_to(b, tok.pos_view() as int),
            st.inv(ctx, tok.pos_view()),
            tok.check_view(),
        decreases b.len() - tok.pos_view(),
    {
        let ev_start: Pos = (tok.position(), lines.current_line(), lines.current_char());
        let ghost k = tok.calls_view();
        let ghost p0 = tok.pos_view() as nat;
        let ev = match tok.next() {
            Ok(e) => e,
            Err(_) => return Err(parse_error("Failed to read XML event")),
        };
        if ev.kind == XmlEventKind::Eof {
            break;
        }
        proof {
            let s = next_event(xml_content@, true, k, p0)->0;
            assert(xml_read_step(xml_content@, true, k) == Ok::<StepView, nat>(s));
            assert(read_to(b, ev.end as int)) by {
                reveal(read_to);
            }
        }
        proof {
            if ctx.plain() && reads_cleanly(xml_content@, true) {
                let s = xml_read_step(xml_content@, true, k)->Ok_0;
                assert(event_clean(s));
                assert(attrs_view(ev.attributes@) == s.2);
                assert forall|i: int| 0 <= i < ev.attributes@.len() implies (#[trigger] ev.attributes@[i]).value is Some by {
                    assert(attrs_view(ev.attributes@)[i] == attr_view(ev.attributes@[i]));
                    assert(s.2[i].1 is Some);
                }
                assert(ev.kind is Text ==> ev.text is Some);
            }
        }
        lines.update_position(xml_content, ev.end);
        let ev_end: Pos = (ev.end, lines.current_line(), lines.current_char());
        if ev.kind == XmlEventKind::Start || ev.kind == XmlEventKind::Empty {
            match st.on_start(&ctx, &ev, ev_start, ev_end) {
                Ok(()) => {},
                Err(e) => return Err(e),
            }
        } else if ev.kind == XmlEventKind::Text {
            match st.on_text(&ctx, &ev, ev_start.0) {
                Ok(()) => {},
                Err(e) => return Err(e),
            }
        } else if ev.kind == XmlEventKind::End {
            match st.on_end(&ctx, &ev, ev_start, ev.end) {
                Ok(()) => {},
                Err(e) => return Err(e),
            }
        }
        assert(st.inv(ctx, tok.pos_view())) by {
            if ev.kind == XmlEventKind::Text || ev.kind == XmlEventKind::Other {
                assert(st.inv(ctx, ev_start.0));
            }
        }
    }
    let n = xml_content.len();
    assert(read_to(b, n as int)) by {
        reveal(read_to);
    }
    lines.update_position(xml_content, n);
    let ghost pre_finish = st;
    let close_end: Pos = (n, lines.current_line(), lines.current_char());
    match st.sink.finish(&ctx, close_end) {
        Ok(()) => {},
        Err(e) => return Err(e),
    }
    let ghost spans = st.sink.spans@;
    let ghost start0 = st.sink.start.0;
    proof {
        if ctx.plain() && st.sink.fragments@.len() == 0 {
            lemma_blank_input(xml_content@, pre_finish.sink.start.0 as int);
        }
        if ctx.plain() {
            lemma_finished_cover(
                pre_finish.sink,
                st.sink,
                ctx,
                close_end,
                Some(
                    match pre_finish.sink.frag_type {
                        Some(t) => t,
                        None => FragmentType::Header,
                    },
                ),
            );
        }
    }
    let ghost nothing_kept_blank = ctx.plain() && st.sink.fragments@.len() == 0 ==> blank_text(
        xml_content@,
    );
    let mut fragments = st.sink.fragments;
    let ghost before = fragments@;
    set_cst_fields(&mut fragments, nikaya_structure);
    proof {
        let fr = fragments@;
        lemma_same_placement(before, fr, spans, b, cst_file@, nikaya_structure.nikaya@);
        lemma_nonblank_same_placement(before, fr);
        if overrides.correction_overrides is None && overrides.adjustments is None {
            assert(spans_ordered(spans, start0 as int));
            assert(spans_ordered(spans, b.len() as int));
        }
        assert(b == xml_content.spec_bytes());
        assert(fragments_match(fr, spans, xml_content.spec_bytes(), cst_file@, nikaya_structure.nikaya@));
        assert(placed_in(
            fr,
            xml_content.spec_bytes(),
            cst_file@,
            nikaya_structure.nikaya@,
            overrides.correction_overrides is None && overrides.adjustments is None,
        ));
    }
    if populate_sc_fields {
        let ghost before_sc = fragments@;
        match fill_sc_fields(&mut fragments, overrides, false) {
            Ok(()) => {},
            Err(e) => return Err(e),
        }
        proof {
            lemma_placed_in_sc_only(
                before_sc,
                fragments@,
                xml_content.spec_bytes(),
                cst_file@,
                nikaya_structure.nikaya@,
                overrides.correction_overrides is None && overrides.adjustments is None,
            );
            lemma_cst_fields_mula_ok_sc_only(before_sc, fragments@, nikaya_structure.nikaya@);
        }
    }
    assert(nothing_kept_blank);
    Ok(fragments)
}

/// Changes to the SC fields alone keep the CST fields as derived.
proof fn lemma_cst_fields_mula_ok_sc_only(a: Seq<XmlFragment>, b: Seq<XmlFragment>, nikaya: Seq<char>)
    requires
        cst_fields_mula_ok(a, nikaya),
        sc_only_changes(a, b),
    ensures
        cst_fields_mula_ok(b, nikaya),
{
    assert forall|j: int| 0 <= j < b.len() implies
        fields_view(
            (
                (#[trigger] b[j]).cst_file,
                b[j].cst_code,
                b[j].cst_vagga,
                b[j].cst_sutta,
                b[j].cst_paranum,
            ),
        ) == cst_fields_mula_spec(
            b[j],
            nikaya,
            xml_titles(b[j].content_xml@).0,
            xml_titles(b[j].content_xml@).1,
            xml_titles(b[j].content_xml@).2,
        ) by {
        assert(same_but_sc(a[j], b[j]));
        assert(a[j] == a[j]);
    }
}

} // verus!
