//! What the fragment parsers share: the parse context, line tracking, the
//! list of fragments being built and the laws that hold of it.

use vstd::prelude::*;
use vstd::string::*;
use vstd::utf8::*;
use crate::boundaries::{apply_fragment_adjustment, line_col, lemma_line_col_bounds};
use crate::nikaya::NikayaStructure;
use crate::content::last_attr;
use crate::text::{all_whitespace, is_ws, occurs_at, opt_view, seq_contains, substr_bytes};
use crate::types::{parse_failure, 
    clone_levels, FragmentType, GroupLevel, ParserError, ParserOverrides, StringMap, XmlFragment,
};
use crate::xml_events::{reads_cleanly, xml_read_step, XmlEvent};

verus! {

broadcast use vstd::utf8::encode_utf8_decode_utf8;

/// A position in the input: `(byte position, line, character in line)`.
pub type Pos = (usize, usize, usize);

/// A byte position of the input that starts a character (or is its end); with
/// `exact`, its line and character are those the byte position has.
/// A byte position the reader stands at on some text whose bytes are `b`:
/// the start, the end, or the position after one of its calls (see
/// `xml_read_step`; end names checked), so that no event straddles it.
#[verifier::opaque]
pub open spec fn read_to(b: Seq<u8>, q: int) -> bool {
    ||| q == 0
    ||| q == b.len()
    ||| exists|c: Seq<char>, k: nat|
        #![trigger xml_read_step(c, true, k)]
        xml_read_step(c, true, k) matches Ok(s) && encode_utf8(c) == b && s.5 == q
}

/// The spans start and end at positions the reader stands at (see `read_to`).
pub open spec fn spans_at_reads(spans: Seq<(int, int)>, b: Seq<u8>) -> bool {
    forall|i: int|
        0 <= i < spans.len() ==> read_to(b, #[trigger] spans[i].0) && read_to(b, spans[i].1)
}

/// A byte position of the input that starts a character (or is its end); with
/// `exact`, its line and character are those the byte position has, and the
/// reader stands at it.
pub open spec fn pos_ok(b: Seq<u8>, p: Pos, exact: bool) -> bool {
    &&& p.0 <= b.len()
    &&& is_char_boundary(b, p.0 as int)
    &&& exact ==> line_col(b, p.0 as int) == (p.1 as int, p.2 as int)
    &&& exact ==> read_to(b, p.0 as int)
}

/// What a parse works on.
pub struct ParseCtx<'a> {
    pub xml: &'a str,
    pub structure: &'a NikayaStructure,
    pub cst_file: &'a str,
    pub overrides: &'a ParserOverrides,
}

impl<'a> ParseCtx<'a> {
    /// The bytes of the input.
    pub open spec fn bytes(&self) -> Seq<u8> {
        self.xml.spec_bytes()
    }

    /// No boundary override and no adjustment was given.
    pub open spec fn plain(&self) -> bool {
        self.overrides.correction_overrides is None && self.overrides.adjustments is None
    }
}

/// The fragments hold slices of the input: fragment `i` holds the bytes of
/// span `i`, has index `i`, and the file and nikaya of the parse.
pub open spec fn fragments_match(
    frags: Seq<XmlFragment>,
    spans: Seq<(int, int)>,
    b: Seq<u8>,
    file: Seq<char>,
    nikaya: Seq<char>,
) -> bool {
    &&& spans.len() == frags.len()
    &&& forall|i: int|
        #![trigger frags[i]]
        0 <= i < frags.len() ==> {
            &&& 0 <= spans[i].0 <= spans[i].1 <= b.len()
            &&& encode_utf8(frags[i].content_xml@) == b.subrange(spans[i].0, spans[i].1)
            &&& frags[i].frag_idx == i
            &&& frags[i].cst_file@ == file
            &&& frags[i].nikaya@ == nikaya
        }
}

/// The spans come in order, without overlap, and end at or before `cursor`.
pub open spec fn spans_ordered(spans: Seq<(int, int)>, cursor: int) -> bool {
    &&& forall|i: int, j: int| 0 <= i < j < spans.len() ==> spans[i].1 <= spans[j].0
    &&& forall|i: int| 0 <= i < spans.len() ==> spans[i].1 <= cursor
}

/// The fragments carry the line and character positions of their spans.
pub open spec fn lines_match(frags: Seq<XmlFragment>, spans: Seq<(int, int)>, b: Seq<u8>) -> bool {
    forall|i: int|
        #![trigger frags[i]]
        0 <= i < frags.len() ==> {
            &&& line_col(b, spans[i].0) == (frags[i].start_line as int, frags[i].start_char as int)
            &&& line_col(b, spans[i].1) == (frags[i].end_line as int, frags[i].end_char as int)
        }
}

/// The bytes of the fragments, one after the other.
pub open spec fn concat_bytes(frags: Seq<XmlFragment>) -> Seq<u8>
    decreases frags.len(),
{
    if frags.len() == 0 {
        Seq::empty()
    } else {
        concat_bytes(frags.drop_last()) + encode_utf8(frags.last().content_xml@)
    }
}

/// The spans cover `[0, end)` one after the other.
pub open spec fn spans_contiguous(spans: Seq<(int, int)>, end: int) -> bool {
    &&& spans.len() > 0 ==> spans[0].0 == 0
    &&& forall|i: int| 0 <= i < spans.len() - 1 ==> #[trigger] spans[i].1 == spans[i + 1].0
    &&& spans.len() > 0 ==> spans.last().1 == end
    &&& spans.len() == 0 ==> end == 0
}

/// Where the spans end: at the end of the last one, or at 0.
pub open spec fn spans_end(spans: Seq<(int, int)>) -> int {
    if spans.len() == 0 {
        0
    } else {
        spans.last().1
    }
}

/// The spans follow one another from the start of the input, and only
/// whitespace follows the last one.
pub open spec fn spans_cover(spans: Seq<(int, int)>, b: Seq<u8>) -> bool {
    &&& spans_contiguous(spans, spans_end(spans))
    &&& blank_text(text_between(b, spans_end(spans), b.len() as int))
}

/// When the spans of the fragments cover the input one after the other, the
/// fragments put back together give the input.
pub proof fn law_reconstruction(
    frags: Seq<XmlFragment>,
    spans: Seq<(int, int)>,
    b: Seq<u8>,
    file: Seq<char>,
    nikaya: Seq<char>,
)
    requires
        fragments_match(frags, spans, b, file, nikaya),
        spans_contiguous(spans, b.len() as int),
    ensures
        concat_bytes(frags) == b,
    decreases frags.len(),
{
    lemma_concat_prefix(frags, spans, b, file, nikaya, frags.len() as int);
    if frags.len() == 0 {
        assert(b =~= Seq::<u8>::empty());
    } else {
        assert(frags.take(frags.len() as int) =~= frags);
        assert(b.subrange(0, b.len() as int) =~= b);
    }
}

proof fn lemma_concat_prefix(
    frags: Seq<XmlFragment>,
    spans: Seq<(int, int)>,
    b: Seq<u8>,
    file: Seq<char>,
    nikaya: Seq<char>,
    k: int,
)
    requires
        fragments_match(frags, spans, b, file, nikaya),
        spans_contiguous(spans, spans_end(spans)),
        0 <= k <= frags.len(),
    ensures
        k > 0 ==> concat_bytes(frags.take(k)) == b.subrange(0, spans[k - 1].1),
    decreases k,
{
    if k > 0 {
        let f = frags[k - 1];
        assert(frags.take(k).drop_last() =~= frags.take(k - 1));
        assert(frags.take(k).last() == f);
        if k > 1 {
            lemma_concat_prefix(frags, spans, b, file, nikaya, k - 1);
            assert(spans[k - 2].1 == spans[k - 1].0);
            assert(b.subrange(0, spans[k - 1].1) =~= b.subrange(0, spans[k - 2].1) + b.subrange(
                spans[k - 1].0,
                spans[k - 1].1,
            ));
        } else {
            assert(frags.take(0) =~= Seq::<XmlFragment>::empty());
            assert(concat_bytes(frags.take(0)) =~= Seq::<u8>::empty());
            assert(b.subrange(0, spans[0].1) =~= Seq::<u8>::empty() + b.subrange(
                spans[0].0,
                spans[0].1,
            ));
        }
    }
}

/// Line and character tracking over the bytes of the input.
pub struct LineTracker {
    line: usize,
    col: usize,
    last: usize,
}

impl LineTracker {
    pub closed spec fn line_view(&self) -> usize {
        self.line
    }

    pub closed spec fn col_view(&self) -> usize {
        self.col
    }

    pub closed spec fn last_view(&self) -> usize {
        self.last
    }

    /// The tracking is at byte `last` of `b`.
    pub open spec fn at(&self, b: Seq<u8>) -> bool {
        &&& self.last_view() <= b.len()
        &&& line_col(b, self.last_view() as int) == (
            self.line_view() as int,
            self.col_view() as int,
        )
    }

    /// Tracking at the start of the input.
    pub fn new() -> (r: Self)
        ensures
            r.last_view() == 0,
            forall|b: Seq<u8>| r.at(b),
    {
        LineTracker { line: 1, col: 0, last: 0 }
    }

    /// The current line (1-indexed).
    pub fn current_line(&self) -> (r: usize)
        ensures
            r == self.line_view(),
    {
        self.line
    }

    /// The current character position within the line (0-indexed).
    pub fn current_char(&self) -> (r: usize)
        ensures
            r == self.col_view(),
    {
        self.col
    }

    /// Moves the tracking forward to `position` (a position at or before the
    /// current one changes nothing).
    pub fn update_position(&mut self, content: &str, position: usize)
        requires
            old(self).at(content.spec_bytes()),
            position <= content.spec_bytes().len(),
            content.spec_bytes().len() < usize::MAX,
        ensures
            final(self).at(content.spec_bytes()),
            position > old(self).last_view() ==> final(self).last_view() == position,
            position <= old(self).last_view() ==> *final(self) == *old(self),
    {
        if position <= self.last {
            return ;
        }
        let bytes = content.as_bytes();
        let ghost b = bytes@;
        let mut i = self.last;
        let mut line = self.line;
        let mut col = self.col;
        while i < position
            invariant
                b == bytes@,
                position <= b.len() < usize::MAX,
                i <= position,
                line_col(b, i as int) == (line as int, col as int),
            decreases position - i,
        {
            proof {
                lemma_line_col_bounds(b, i as int);
                lemma_line_col_bounds(b, i + 1);
            }
            if bytes[i] == 10u8 {
                line = line + 1;
                col = 0;
            } else {
                col = col + 1;
            }
            i = i + 1;
        }
        self.line = line;
        self.col = col;
        self.last = position;
    }
}

/// Input on which a parse owes success: no boundary override or adjustment, a text that the reader reads cleanly to its end
/// with end names checked (see `reads_cleanly`), and a CST to SC mapping
/// when the SC fields are asked for.
pub open spec fn clean_input(xml: Seq<char>, overrides: ParserOverrides, populate_sc_fields: bool) -> bool {
    &&& overrides.correction_overrides is None
    &&& overrides.adjustments is None
    &&& reads_cleanly(xml, true)
    &&& populate_sc_fields ==> overrides.sc_code_map is Some
}

/// The text of the input bytes `[s, e)`.
pub open spec fn text_between(b: Seq<u8>, s: int, e: int) -> Seq<char> {
    decode_utf8(b.subrange(s, e))
}

/// A text of whitespace only.
pub open spec fn blank_text(t: Seq<char>) -> bool {
    forall|i: int| 0 <= i < t.len() ==> is_ws(#[trigger] t[i])
}

/// The bytes between two character boundaries of a UTF-8 text are UTF-8,
/// and a character boundary between them is one of theirs.
proof fn lemma_sub_utf8(b: Seq<u8>, lo: int, hi: int, i: int)
    requires
        valid_utf8(b),
        0 <= lo <= i <= hi <= b.len(),
        is_char_boundary(b, lo),
        is_char_boundary(b, hi),
        is_char_boundary(b, i),
    ensures
        valid_utf8(b.subrange(lo, hi)),
        is_char_boundary(b.subrange(lo, hi), i - lo),
{
    valid_utf8_split(b, hi);
    let p = b.subrange(0, hi);
    if lo < hi {
        is_char_boundary_iff_is_leading_byte(b, lo);
        is_char_boundary_iff_is_leading_byte(p, lo);
        assert(p[lo] == b[lo]);
    } else {
        is_char_boundary_start_end_of_seq(p);
    }
    valid_utf8_split(p, lo);
    let q = b.subrange(lo, hi);
    assert(p.subrange(lo, p.len() as int) =~= q);
    if i == lo {
    } else if i == hi {
        is_char_boundary_start_end_of_seq(q);
    } else {
        is_char_boundary_iff_is_leading_byte(b, i);
        is_char_boundary_iff_is_leading_byte(q, i - lo);
        assert(q[i - lo] == b[i]);
    }
}

/// The text of `[s, e)` is that of `[s, m)` followed by that of `[m, e)`.
pub proof fn lemma_text_between_split(b: Seq<u8>, s: int, m: int, e: int)
    requires
        valid_utf8(b),
        0 <= s <= m <= e <= b.len(),
        is_char_boundary(b, s),
        is_char_boundary(b, m),
        is_char_boundary(b, e),
    ensures
        text_between(b, s, e) == text_between(b, s, m) + text_between(b, m, e),
{
    lemma_sub_utf8(b, s, e, m);
    let q = b.subrange(s, e);
    decode_utf8_split(q, m - s);
    assert(q.subrange(0, m - s) =~= b.subrange(s, m));
    assert(q.subrange(m - s, q.len() as int) =~= b.subrange(m, e));
}

/// Whitespace followed by whitespace is whitespace.
pub proof fn lemma_blank_concat(a: Seq<char>, c: Seq<char>)
    requires
        blank_text(a),
        blank_text(c),
    ensures
        blank_text(a + c),
{
    assert forall|i: int| 0 <= i < (a + c).len() implies is_ws(#[trigger] (a + c)[i]) by {
        if i < a.len() {
            assert((a + c)[i] == a[i]);
        } else {
            assert((a + c)[i] == c[i - a.len()]);
        }
    }
}

/// A text with a subhead, chapter or bodytext marker is not blank.
pub proof fn lemma_marked_not_blank(t: Seq<char>)
    requires
        sutta_marked(t),
    ensures
        !blank_text(t),
{
    let r = "rend=\""@;
    assert(r[0] == 'r') by {
        reveal_strlit("rend=\"");
    }
    reveal_strlit("rend=\"subhead\"");
    reveal_strlit("rend=\"chapter\"");
    reveal_strlit("rend=\"bodytext\"");
    let n = if seq_contains(t, "rend=\"subhead\""@) {
        "rend=\"subhead\""@
    } else if seq_contains(t, "rend=\"chapter\""@) {
        "rend=\"chapter\""@
    } else {
        "rend=\"bodytext\""@
    };
    assert(n[0] == 'r');
    let i = choose|i: int| occurs_at(t, n, i);
    assert(t.subrange(i, i + n.len())[0] == n[0]);
    assert(t[i] == 'r');
    assert(!is_ws(t[i]));
}

/// A text whose bytes up to `start` and from `start` on are whitespace is
/// whitespace.
pub proof fn lemma_blank_input(xml: Seq<char>, start: int)
    requires
        0 <= start <= encode_utf8(xml).len(),
        is_char_boundary(encode_utf8(xml), start),
        blank_text(text_between(encode_utf8(xml), 0, start)),
        blank_text(text_between(encode_utf8(xml), start, encode_utf8(xml).len() as int)),
    ensures
        blank_text(xml),
{
    let b = encode_utf8(xml);
    encode_utf8_valid_utf8(xml);
    is_char_boundary_start_end_of_seq(b);
    lemma_text_between_split(b, 0, start, b.len() as int);
    lemma_blank_concat(text_between(b, 0, start), text_between(b, start, b.len() as int));
    assert(b.subrange(0, b.len() as int) =~= b);
}

/// A text that holds a subhead, chapter or bodytext marker.
pub open spec fn sutta_marked(t: Seq<char>) -> bool {
    seq_contains(t, "rend=\"subhead\""@) || seq_contains(t, "rend=\"chapter\""@) || seq_contains(
        t,
        "rend=\"bodytext\""@,
    )
}

/// The sink after ending its fragment before a new level at `at`: a sutta
/// fragment that already holds sutta content is closed there (when the text
/// up to `at` is kept) and the next fragment gets `next_type` (with no
/// override it starts at `at`); any other fragment goes on unchanged.
pub open spec fn closed_before_level(
    a: FragmentSink,
    b: FragmentSink,
    bytes: Seq<u8>,
    at: Pos,
    next_type: Option<FragmentType>,
    plain: bool,
) -> bool {
    if a.frag_type == Some(FragmentType::Sutta) && a.start.0 <= at.0 && sutta_marked(
        text_between(bytes, a.start.0 as int, at.0 as int),
    ) {
        &&& extended_with_levels(a.fragments@, b.fragments@, a.frag_levels@)
        &&& b.frag_type == next_type
        &&& b.frag_levels == a.frag_levels
        &&& plain ==> b.start == at
    } else {
        b == a
    }
}

/// The fragments before are kept in front, and every fragment added after them
/// has the given levels.
pub open spec fn extended_with_levels(
    before: Seq<XmlFragment>,
    after: Seq<XmlFragment>,
    levels: Seq<GroupLevel>,
) -> bool {
    &&& before.len() <= after.len()
    &&& forall|i: int| 0 <= i < before.len() ==> after[i] == before[i]
    &&& forall|i: int| before.len() <= i < after.len() ==> (#[trigger] after[i]).group_levels@ == levels
}

/// The fragments built so far and the fragment being built.
pub struct FragmentSink {
    pub fragments: Vec<XmlFragment>,
    pub spans: Ghost<Seq<(int, int)>>,
    /// Where the current fragment starts.
    pub start: Pos,
    /// The type of the current fragment (none: not yet known).
    pub frag_type: Option<FragmentType>,
    /// The levels that the current fragment gets.
    pub frag_levels: Vec<GroupLevel>,
}

/// Where a close at `c` ends a fragment that starts at `s`: at `c`, or at `s`
/// when `c` lies before it (a marker kept from earlier that the fragment has
/// already passed cuts nothing).
pub open spec fn clamp(s: Pos, c: Pos) -> Pos {
    if c.0 < s.0 {
        s
    } else {
        c
    }
}

/// With no override, a close at `c` keeps the fragment that starts at `s`
/// when it has a type and its text up to the close is not blank.
pub open spec fn keeps(b: Seq<u8>, s: Pos, c: Pos, ft: Option<FragmentType>) -> bool {
    ft is Some && !blank_text(text_between(b, s.0 as int, clamp(s, c).0 as int))
}

/// Where the next fragment starts after a close at `c` with type `ft` of a
/// fragment that starts at `s`, with no override: where the close ended it
/// when it was kept, else still at `s`.
pub open spec fn start_after(b: Seq<u8>, s: Pos, c: Pos, ft: Option<FragmentType>) -> Pos {
    if keeps(b, s, c, ft) {
        clamp(s, c)
    } else {
        s
    }
}

/// The sink after a close at `c` with type `ft` and no override (`a` before,
/// `b` after): a kept fragment (see `keeps`) is added with that type and the
/// current levels, ending where the close ends it, and the next fragment
/// starts there; otherwise nothing changes, and the text so far goes on
/// into the next fragment.
pub open spec fn closed(a: FragmentSink, b: FragmentSink, bytes: Seq<u8>, c: Pos, ft: Option<FragmentType>) -> bool {
    if keeps(bytes, a.start, c, ft) {
        &&& b.start == clamp(a.start, c)
        &&& b.frag_type == a.frag_type
        &&& b.frag_levels == a.frag_levels
        &&& b.fragments@.len() == a.fragments@.len() + 1
        &&& b.fragments@.take(a.fragments@.len() as int) == a.fragments@
        &&& b.fragments@.last().frag_type == ft->0
        &&& b.fragments@.last().group_levels@ == a.frag_levels@
        &&& b.fragments@.last().content_xml@ == text_between(bytes, a.start.0 as int, b.start.0 as int)
    } else {
        b == a
    }
}

impl FragmentSink {
    /// The fragments match the input and carry no SC field, and the start of
    /// the current fragment is a valid position. With no override the
    /// fragments follow one another from the start of the input up to the
    /// current start, carry the line positions of their spans, start and end
    /// where the reader stands (see `read_to`) and are not blank; while none
    /// is kept the current fragment has a type.
    pub open spec fn inv(&self, ctx: ParseCtx) -> bool {
        &&& fragments_match(
            self.fragments@,
            self.spans@,
            ctx.bytes(),
            ctx.cst_file@,
            ctx.structure.nikaya@,
        )
        &&& pos_ok(ctx.bytes(), self.start, ctx.plain())
        &&& forall|i: int|
            0 <= i < self.fragments@.len() ==> (#[trigger] self.fragments@[i]).sc_code is None
                && self.fragments@[i].sc_sutta is None
        &&& ctx.plain() ==> spans_ordered(self.spans@, self.start.0 as int)
        &&& ctx.plain() ==> spans_contiguous(self.spans@, self.start.0 as int)
        &&& ctx.plain() ==> lines_match(self.fragments@, self.spans@, ctx.bytes())
        &&& ctx.plain() ==> spans_at_reads(self.spans@, ctx.bytes())
        &&& ctx.plain() ==> forall|i: int|
            0 <= i < self.fragments@.len() ==> !blank_text(#[trigger] self.fragments@[i].content_xml@)
        &&& ctx.plain() && self.fragments@.len() == 0 ==> self.frag_type is Some
    }

    /// An empty sink whose current fragment is a header at the start of the input.
    pub fn new(ctx: &ParseCtx) -> (r: Self)
        ensures
            r.inv(*ctx),
            r.fragments@.len() == 0,
            r.start.0 == 0,
            r.frag_type == Some(FragmentType::Header),
            r.frag_levels@.len() == 0,
    {
        proof {
            encode_utf8_valid_utf8(ctx.xml@);
            is_char_boundary_start_end_of_seq(ctx.bytes());
            reveal(read_to);
        }
        FragmentSink {
            fragments: Vec::new(),
            spans: Ghost(Seq::empty()),
            start: (0, 1, 0),
            frag_type: Some(FragmentType::Header),
            frag_levels: Vec::new(),
        }
    }

    /// Ends the current fragment at `close` (after the overrides for it are
    /// applied; a close before the start ends it at the start) and pushes it
    /// when it has a type and is collapsed or not blank. Gives the end that
    /// was used and whether a fragment was pushed. The start of the current
    /// fragment is not changed.
    fn close_at(&mut self, ctx: &ParseCtx, close: Pos, frag_type: Option<FragmentType>) -> (r:
        Result<(Pos, bool), ParserError>)
        requires
            old(self).inv(*ctx),
            pos_ok(ctx.bytes(), close, ctx.plain()),
        ensures
            r matches Err(e) ==> parse_failure(e),
            final(self).start == old(self).start,
            final(self).frag_type == old(self).frag_type,
            final(self).frag_levels == old(self).frag_levels,
            fragments_match(
                final(self).fragments@,
                final(self).spans@,
                ctx.bytes(),
                ctx.cst_file@,
                ctx.structure.nikaya@,
            ),
            forall|i: int|
                0 <= i < final(self).fragments@.len() ==> (#[trigger] final(self).fragments@[i]).sc_code
                    is None && final(self).fragments@[i].sc_sutta is None,
            match r {
                Ok((end, pushed)) => {
                    &&& pos_ok(ctx.bytes(), end, ctx.plain())
                    &&& old(self).start.0 <= end.0
                    &&& pushed ==> final(self).spans@ == old(self).spans@.push(
                        (old(self).start.0 as int, end.0 as int),
                    ) && final(self).fragments@.len() == old(self).fragments@.len() + 1
                        && final(self).fragments@.take(old(self).fragments@.len() as int)
                        == old(self).fragments@
                        && final(self).fragments@.last().frag_type == frag_type->0
                        && final(self).fragments@.last().group_levels@ == old(self).frag_levels@
                        && final(self).fragments@.last().start_line == old(self).start.1
                        && final(self).fragments@.last().start_char == old(self).start.2
                        && final(self).fragments@.last().end_line == end.1
                        && final(self).fragments@.last().end_char == end.2
                        && final(self).fragments@.last().content_xml@ == text_between(
                        ctx.bytes(),
                        old(self).start.0 as int,
                        end.0 as int,
                    )
                    &&& pushed ==> frag_type is Some
                    &&& !pushed ==> final(self).fragments == old(self).fragments
                        && final(self).spans == old(self).spans
                },
                Err(_) => true,
            },
            ctx.plain() ==> (r matches Ok((end, pushed)) && end == clamp(old(self).start, close)
                && pushed == keeps(ctx.bytes(), old(self).start, close, frag_type)),
    {
        let xml = ctx.xml;
        let (start_pos, start_line, start_char) = self.start;
        let c = if close.0 < start_pos {
            self.start
        } else {
            close
        };
        let idx = self.fragments.len();
        let (end_pos, end_line, end_char, collapsed) = match apply_fragment_adjustment(
            xml,
            c.0,
            c.1,
            c.2,
            ctx.cst_file,
            idx,
            start_pos,
            start_line,
            start_char,
            ctx.overrides.correction_overrides.as_ref(),
            ctx.overrides.adjustments.as_ref(),
        ) {
            Ok(t) => t,
            Err(e) => return Err(e),
        };
        proof {
            if ctx.plain() {
                assert(end_pos == c.0);
                assert(is_char_boundary(ctx.bytes(), end_pos as int));
                assert(start_pos <= end_pos && end_pos <= ctx.bytes().len());
                assert(xml.spec_bytes() == ctx.bytes());
            }
        }
        if end_pos < start_pos || end_pos > xml.as_bytes().len() || !xml.is_char_boundary(end_pos) {
            return Err(
                ParserError::GeneralError {
                    message: String::from_str("Fragment end is not a valid position in the XML"),
                },
            );
        }
        let content = substr_bytes(xml, start_pos, end_pos);
        proof {
            encode_utf8_valid_utf8(ctx.xml@);
            assert(content@ == text_between(ctx.bytes(), start_pos as int, end_pos as int)) by {
                assert(decode_utf8(encode_utf8(content@)) == content@);
            }
        }
        let blank = all_whitespace(content);
        let pushed = frag_type.is_some() && (collapsed || !blank);
        if pushed {
            let ft = match frag_type {
                Some(t) => t,
                None => FragmentType::Sutta,
            };
            let frag = XmlFragment {
                nikaya: ctx.structure.nikaya.clone(),
                cst_file: String::from_str(ctx.cst_file),
                frag_idx: idx,
                frag_type: ft,
                frag_review: None,
                content_xml: String::from_str(content),
                start_line,
                start_char,
                end_line,
                end_char,
                cst_code: None,
                cst_vagga: None,
                cst_sutta: None,
                cst_paranum: None,
                sc_code: None,
                sc_sutta: None,
                group_levels: clone_levels(&self.frag_levels),
            };
            self.fragments.push(frag);
            let ghost old_spans = self.spans@;
            self.spans = Ghost(old_spans.push((start_pos as int, end_pos as int)));
            proof {
                let fr = self.fragments@;
                assert forall|i: int| 0 <= i < fr.len() implies {
                    &&& 0 <= self.spans@[i].0 <= self.spans@[i].1 <= ctx.bytes().len()
                    &&& encode_utf8(#[trigger] fr[i].content_xml@) == ctx.bytes().subrange(
                        self.spans@[i].0,
                        self.spans@[i].1,
                    )
                    &&& fr[i].frag_idx == i
                    &&& fr[i].cst_file@ == ctx.cst_file@
                    &&& fr[i].nikaya@ == ctx.structure.nikaya@
                } by {
                    if i < fr.len() - 1 {
                        assert(fr[i] == old(self).fragments@[i]);
                    }
                }
                assert forall|i: int| 0 <= i < fr.len() implies (#[trigger] fr[i]).sc_code is None
                    && fr[i].sc_sutta is None by {
                    if i < fr.len() - 1 {
                        assert(fr[i] == old(self).fragments@[i]);
                    }
                }
                assert(fr.take(idx as int) =~= old(self).fragments@);
            }
        }
        Ok(((end_pos, end_line, end_char), pushed))
    }

    /// Ends the current fragment at `close` with type `ft` (see `closed`):
    /// when it is kept, the next fragment starts where it ended.
    fn close_with(&mut self, ctx: &ParseCtx, close: Pos, ft: Option<FragmentType>) -> (r: Result<
        (),
        ParserError,
    >)
        requires
            old(self).inv(*ctx),
            pos_ok(ctx.bytes(), close, ctx.plain()),
        ensures
            r matches Err(e) ==> parse_failure(e),
            ctx.plain() ==> r is Ok,
            r is Ok ==> final(self).inv(*ctx),
            r is Ok ==> extended_with_levels(
                old(self).fragments@,
                final(self).fragments@,
                old(self).frag_levels@,
            ),
            final(self).frag_type == old(self).frag_type,
            final(self).frag_levels == old(self).frag_levels,
            ctx.plain() ==> closed(*old(self), *final(self), ctx.bytes(), close, ft),
            r is Ok && final(self).fragments@.len() > old(self).fragments@.len() ==> {
                &&& final(self).fragments@.len() == old(self).fragments@.len() + 1
                &&& final(self).fragments@.last().frag_type == ft->0
            },
    {
        let (end, pushed) = match self.close_at(ctx, close, ft) {
            Ok(t) => t,
            Err(e) => return Err(e),
        };
        let next = if pushed {
            end
        } else {
            self.start
        };
        proof {
            self.lemma_after_close(*ctx, *old(self), end, pushed, next);
        }
        self.start = next;
        proof {
            if ctx.plain() && !pushed {
                assert(self.fragments@ == old(self).fragments@);
            }
        }
        Ok(())
    }

    /// Ends the current fragment at `close` with its own type (see `closed`).
    pub fn close_and_advance(&mut self, ctx: &ParseCtx, close: Pos) -> (r: Result<(), ParserError>)
        requires
            old(self).inv(*ctx),
            pos_ok(ctx.bytes(), close, ctx.plain()),
            old(self).frag_type is Some,
        ensures
            r matches Err(e) ==> parse_failure(e),
            ctx.plain() ==> r is Ok,
            r is Ok ==> final(self).inv(*ctx),
            r is Ok ==> extended_with_levels(
                old(self).fragments@,
                final(self).fragments@,
                old(self).frag_levels@,
            ),
            final(self).frag_type == old(self).frag_type,
            final(self).frag_levels == old(self).frag_levels,
            ctx.plain() ==> closed(*old(self), *final(self), ctx.bytes(), close, old(self).frag_type),
    {
        let ft = self.frag_type;
        self.close_with(ctx, close, ft)
    }

    /// Ends the current fragment at `close` with type `frag_type` (see `closed`).
    pub fn close_as(&mut self, ctx: &ParseCtx, close: Pos, frag_type: Option<FragmentType>) -> (r:
        Result<(), ParserError>)
        requires
            old(self).inv(*ctx),
            pos_ok(ctx.bytes(), close, ctx.plain()),
        ensures
            r matches Err(e) ==> parse_failure(e),
            ctx.plain() ==> r is Ok,
            r is Ok ==> final(self).inv(*ctx),
            r is Ok ==> extended_with_levels(
                old(self).fragments@,
                final(self).fragments@,
                old(self).frag_levels@,
            ),
            final(self).frag_type == old(self).frag_type,
            final(self).frag_levels == old(self).frag_levels,
            ctx.plain() ==> closed(*old(self), *final(self), ctx.bytes(), close, frag_type),
    {
        self.close_with(ctx, close, frag_type)
    }

    /// Closes the last fragment at the end of the input, as a header when it
    /// has no type.
    pub fn finish(&mut self, ctx: &ParseCtx, close: Pos) -> (r: Result<(), ParserError>)
        requires
            old(self).inv(*ctx),
            pos_ok(ctx.bytes(), close, ctx.plain()),
        ensures
            r matches Err(e) ==> parse_failure(e),
            ctx.plain() ==> r is Ok,
            r is Ok ==> final(self).inv(*ctx),
            r is Ok ==> extended_with_levels(
                old(self).fragments@,
                final(self).fragments@,
                old(self).frag_levels@,
            ),
            r is Ok && final(self).fragments@.len() > old(self).fragments@.len() ==> {
                &&& final(self).fragments@.len() == old(self).fragments@.len() + 1
                &&& final(self).fragments@.last().frag_type == match old(self).frag_type {
                    Some(t) => t,
                    None => FragmentType::Header,
                }
            },
            ctx.plain() ==> closed(
                *old(self),
                *final(self),
                ctx.bytes(),
                close,
                Some(
                    match old(self).frag_type {
                        Some(t) => t,
                        None => FragmentType::Header,
                    },
                ),
            ),
    {
        let t = match self.frag_type {
            Some(t) => t,
            None => FragmentType::Header,
        };
        self.close_with(ctx, close, Some(t))
    }

    proof fn lemma_after_close(
        &self,
        ctx: ParseCtx,
        old_sink: FragmentSink,
        end: Pos,
        pushed: bool,
        next: Pos,
    )
        requires
            old_sink.inv(ctx),
            fragments_match(
                self.fragments@,
                self.spans@,
                ctx.bytes(),
                ctx.cst_file@,
                ctx.structure.nikaya@,
            ),
            forall|i: int|
                0 <= i < self.fragments@.len() ==> (#[trigger] self.fragments@[i]).sc_code is None
                    && self.fragments@[i].sc_sutta is None,
            pos_ok(ctx.bytes(), end, ctx.plain()),
            old_sink.start.0 <= end.0,
            self.start == old_sink.start,
            self.frag_type == old_sink.frag_type,
            pushed ==> self.spans@ == old_sink.spans@.push(
                (old_sink.start.0 as int, end.0 as int),
            ) && self.fragments@.len() == old_sink.fragments@.len() + 1 && self.fragments@.take(
                old_sink.fragments@.len() as int,
            ) == old_sink.fragments@ && self.fragments@.last().start_line == old_sink.start.1
                && self.fragments@.last().start_char == old_sink.start.2
                && self.fragments@.last().end_line == end.1 && self.fragments@.last().end_char
                == end.2,
            !pushed ==> self.fragments == old_sink.fragments && self.spans == old_sink.spans,
            pushed ==> next == end,
            !pushed ==> next == old_sink.start,
            ctx.plain() && pushed ==> !blank_text(self.fragments@.last().content_xml@),
        ensures
            ({
                let s = FragmentSink {
                    fragments: self.fragments,
                    spans: self.spans,
                    start: next,
                    frag_type: self.frag_type,
                    frag_levels: self.frag_levels,
                };
                s.inv(ctx)
            }),
    {
        if ctx.plain() && pushed {
            let sp = self.spans@;
            let fr = self.fragments@;
            let n = old_sink.fragments@.len();
            assert forall|i: int| 0 <= i < fr.len() implies {
                &&& line_col(ctx.bytes(), sp[i].0) == (
                    #[trigger] fr[i].start_line as int,
                    fr[i].start_char as int,
                )
                &&& line_col(ctx.bytes(), sp[i].1) == (fr[i].end_line as int, fr[i].end_char as int)
            } by {
                if i < n {
                    assert(fr[i] == fr.take(n as int)[i]);
                    assert(sp[i] == old_sink.spans@[i]);
                }
            }
            assert forall|i: int, j: int| 0 <= i < j < sp.len() implies sp[i].1 <= sp[j].0 by {
                if j < n {
                    assert(sp[i] == old_sink.spans@[i] && sp[j] == old_sink.spans@[j]);
                } else {
                    assert(sp[i] == old_sink.spans@[i]);
                }
            }
            assert forall|i: int| 0 <= i < sp.len() implies sp[i].1 <= next.0 by {
                if i < n {
                    assert(sp[i] == old_sink.spans@[i]);
                }
            }
            assert forall|i: int| 0 <= i < sp.len() implies read_to(ctx.bytes(), #[trigger] sp[i].0)
                && read_to(ctx.bytes(), sp[i].1) by {
                if i < n {
                    assert(sp[i] == old_sink.spans@[i]);
                }
            }
            assert forall|i: int| 0 <= i < sp.len() - 1 implies #[trigger] sp[i].1 == sp[i + 1].0 by {
                if i + 1 < n {
                    assert(sp[i] == old_sink.spans@[i] && sp[i + 1] == old_sink.spans@[i + 1]);
                } else {
                    assert(sp[i] == old_sink.spans@[i]);
                }
            }
            if n > 0 {
                assert(sp[0] == old_sink.spans@[0]);
            }
            assert forall|i: int| 0 <= i < fr.len() implies !blank_text(#[trigger] fr[i].content_xml@) by {
                if i < n {
                    assert(fr[i] == fr.take(n as int)[i]);
                }
            }
        }
    }
}

/// The fragments keep their text, index, file, nikaya, type and line positions.
pub open spec fn same_placement(a: Seq<XmlFragment>, b: Seq<XmlFragment>) -> bool {
    &&& a.len() == b.len()
    &&& forall|j: int|
        #![trigger b[j]]
        0 <= j < a.len() ==> {
            &&& b[j].content_xml == a[j].content_xml
            &&& b[j].frag_idx == a[j].frag_idx
            &&& b[j].cst_file@ == a[j].cst_file@
            &&& b[j].nikaya == a[j].nikaya
            &&& b[j].frag_type == a[j].frag_type
            &&& b[j].group_levels@ == a[j].group_levels@
            &&& b[j].start_line == a[j].start_line
            &&& b[j].start_char == a[j].start_char
            &&& b[j].end_line == a[j].end_line
            &&& b[j].end_char == a[j].end_char
        }
}

pub proof fn lemma_same_placement(
    a: Seq<XmlFragment>,
    fr: Seq<XmlFragment>,
    spans: Seq<(int, int)>,
    b: Seq<u8>,
    file: Seq<char>,
    nikaya: Seq<char>,
)
    requires
        same_placement(a, fr),
        fragments_match(a, spans, b, file, nikaya),
    ensures
        fragments_match(fr, spans, b, file, nikaya),
        lines_match(a, spans, b) ==> lines_match(fr, spans, b),
{
    assert forall|j: int| 0 <= j < fr.len() implies {
        &&& 0 <= spans[j].0 <= spans[j].1 <= b.len()
        &&& encode_utf8(#[trigger] fr[j].content_xml@) == b.subrange(spans[j].0, spans[j].1)
        &&& fr[j].frag_idx == j
        &&& fr[j].cst_file@ == file
        &&& fr[j].nikaya@ == nikaya
    } by {
        assert(a[j] == a[j]);
    }
    if lines_match(a, spans, b) {
        assert forall|j: int| 0 <= j < fr.len() implies {
            &&& line_col(b, spans[j].0) == (#[trigger] fr[j].start_line as int, fr[j].start_char as int)
            &&& line_col(b, spans[j].1) == (fr[j].end_line as int, fr[j].end_char as int)
        } by {
            assert(a[j] == a[j]);
        }
    }
}

/// The fragments hold slices of the input (see `fragments_match`); with no
/// override (`plain`), the slices come in order, the fragments carry their
/// line positions, and every slice starts and ends where the reader stands
/// between events (see `read_to`): no fragment cuts through a tag or a text.
pub open spec fn placed_in(
    frags: Seq<XmlFragment>,
    b: Seq<u8>,
    file: Seq<char>,
    nikaya: Seq<char>,
    plain: bool,
) -> bool {
    exists|spans: Seq<(int, int)>|
        #![trigger fragments_match(frags, spans, b, file, nikaya)]
        {
            &&& fragments_match(frags, spans, b, file, nikaya)
            &&& plain ==> spans_ordered(spans, b.len() as int) && lines_match(frags, spans, b)
                && spans_at_reads(spans, b) && spans_cover(spans, b) && nonblank_contents(frags)
        }
}

/// No fragment holds whitespace only.
pub open spec fn nonblank_contents(frags: Seq<XmlFragment>) -> bool {
    forall|i: int| 0 <= i < frags.len() ==> !blank_text(#[trigger] frags[i].content_xml@)
}

/// Fragments placed in an input with no override (see `placed_in`), put
/// back together, give the input up to whitespace at its end.
pub proof fn law_fragments_rebuild_input(
    frags: Seq<XmlFragment>,
    b: Seq<u8>,
    file: Seq<char>,
    nikaya: Seq<char>,
)
    requires
        placed_in(frags, b, file, nikaya, true),
    ensures
        exists|e: int|
            0 <= e <= b.len() && concat_bytes(frags) == b.subrange(0, e) && blank_text(
                text_between(b, e, b.len() as int),
            ),
{
    let spans = choose|spans: Seq<(int, int)>|
        #![trigger fragments_match(frags, spans, b, file, nikaya)]
        {
            &&& fragments_match(frags, spans, b, file, nikaya)
            &&& true ==> spans_ordered(spans, b.len() as int) && lines_match(frags, spans, b)
                && spans_at_reads(spans, b) && spans_cover(spans, b) && nonblank_contents(frags)
        };
    let e = spans_end(spans);
    lemma_concat_prefix(frags, spans, b, file, nikaya, frags.len() as int);
    if frags.len() == 0 {
        assert(concat_bytes(frags) =~= b.subrange(0, 0));
    } else {
        assert(frags.take(frags.len() as int) =~= frags);
    }
    assert(0 <= e <= b.len());
}

/// Changes to the SC fields alone keep the fragments in place.
pub proof fn lemma_placed_in_sc_only(
    a: Seq<XmlFragment>,
    b: Seq<XmlFragment>,
    bytes: Seq<u8>,
    file: Seq<char>,
    nikaya: Seq<char>,
    plain: bool,
)
    requires
        placed_in(a, bytes, file, nikaya, plain),
        crate::fill::sc_only_changes(a, b),
    ensures
        placed_in(b, bytes, file, nikaya, plain),
{
    let spans = choose|spans: Seq<(int, int)>|
        #![trigger fragments_match(a, spans, bytes, file, nikaya)]
        {
            &&& fragments_match(a, spans, bytes, file, nikaya)
            &&& plain ==> spans_ordered(spans, bytes.len() as int) && lines_match(a, spans, bytes)
                && spans_at_reads(spans, bytes) && spans_cover(spans, bytes) && nonblank_contents(a)
        };
    assert(same_placement(a, b)) by {
        assert forall|j: int| 0 <= j < a.len() implies {
            &&& (#[trigger] b[j]).content_xml == a[j].content_xml
            &&& b[j].frag_idx == a[j].frag_idx
            &&& b[j].cst_file@ == a[j].cst_file@
            &&& b[j].nikaya == a[j].nikaya
            &&& b[j].frag_type == a[j].frag_type
            &&& b[j].group_levels@ == a[j].group_levels@
            &&& b[j].start_line == a[j].start_line
            &&& b[j].start_char == a[j].start_char
            &&& b[j].end_line == a[j].end_line
            &&& b[j].end_char == a[j].end_char
        } by {
            assert(crate::fill::same_but_sc(a[j], b[j]));
        }
    }
    lemma_same_placement(a, b, spans, bytes, file, nikaya);
    lemma_nonblank_same_placement(a, b);
}

/// Fragments that keep their text keep it not blank.
pub proof fn lemma_nonblank_same_placement(a: Seq<XmlFragment>, b: Seq<XmlFragment>)
    requires
        same_placement(a, b),
    ensures
        nonblank_contents(a) ==> nonblank_contents(b),
{
    if nonblank_contents(a) {
        assert forall|i: int| 0 <= i < b.len() implies !blank_text(#[trigger] b[i].content_xml@) by {
            assert(b[i].content_xml == a[i].content_xml);
            assert(!blank_text(a[i].content_xml@));
        }
    }
}

/// After the last close, at the end of the input, the spans of the fragments
/// cover the input up to whitespace at its end, and no fragment is blank.
pub proof fn lemma_finished_cover(
    a: FragmentSink,
    z: FragmentSink,
    ctx: ParseCtx,
    close: Pos,
    ft: Option<FragmentType>,
)
    requires
        ctx.plain(),
        a.inv(ctx),
        z.inv(ctx),
        closed(a, z, ctx.bytes(), close, ft),
        ft is Some,
        close.0 == ctx.bytes().len(),
    ensures
        spans_cover(z.spans@, ctx.bytes()),
        nonblank_contents(z.fragments@),
{
    let b = ctx.bytes();
    assert(spans_end(z.spans@) == z.start.0);
    if keeps(b, a.start, close, ft) {
        assert(z.start.0 == b.len());
        assert(b.subrange(b.len() as int, b.len() as int) =~= Seq::<u8>::empty());
        assert(valid_utf8(Seq::<u8>::empty()));
        assert(text_between(b, b.len() as int, b.len() as int) =~= Seq::<char>::empty());
    } else {
        assert(z == a);
        assert(clamp(a.start, close) == close);
    }
}

/// The attributes of an element as a map (a later attribute with the same key
/// wins), or an error when one of them could not be read or its value could
/// not be unescaped.
pub fn attribute_map(ev: &XmlEvent) -> (r: Result<StringMap<String>, ParserError>)
    ensures
        r is Err <==> !ev.attributes_ok || exists|i: int|
            0 <= i < ev.attributes@.len() && (#[trigger] ev.attributes@[i]).value is None,
        r matches Err(e) ==> e is GeneralError && e->message@ == if !ev.attributes_ok {
            "Failed to parse attribute"@
        } else {
            "Failed to unescape attribute value"@
        },
        r matches Ok(m) ==> forall|k: Seq<char>|
            #![trigger m.spec_get(k)]
            opt_view(m.spec_get(k)) == last_attr(ev.attributes@, k),
{
    if !ev.attributes_ok {
        return Err(
            ParserError::GeneralError { message: String::from_str("Failed to parse attribute") },
        );
    }
    let mut m: StringMap<String> = StringMap::new();
    let mut i: usize = 0;
    while i < ev.attributes.len()
        invariant
            i <= ev.attributes@.len(),
            ev.attributes_ok,
            forall|j: int| 0 <= j < i ==> (#[trigger] ev.attributes@[j]).value is Some,
            forall|k: Seq<char>|
                #![trigger m.spec_get(k)]
                opt_view(m.spec_get(k)) == last_attr(ev.attributes@.take(i as int), k),
        decreases ev.attributes@.len() - i,
    {
        let a = &ev.attributes[i];
        let ghost pre = ev.attributes@.take(i as int);
        let ghost next = ev.attributes@.take(i + 1);
        assert(next.drop_last() =~= pre);
        assert(next.last() == ev.attributes@[i as int]);
        match &a.value {
            Some(v) => {
                m.insert(a.key.clone(), v.clone());
            },
            None => {
                return Err(
                    ParserError::GeneralError {
                        message: String::from_str("Failed to unescape attribute value"),
                    },
                );
            },
        }
        i = i + 1;
    }
    assert(ev.attributes@.take(i as int) =~= ev.attributes@);
    Ok(m)
}

/// An error with the given message.
pub fn parse_error(message: &str) -> (r: ParserError)
    ensures
        r is GeneralError,
        r->message@ == message@,
{
    ParserError::GeneralError { message: String::from_str(message) }
}

} // verus!
