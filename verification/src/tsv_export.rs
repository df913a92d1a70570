//! The TSV export of stored fragments: one escaped line per fragment, without
//! the XML and HTML contents.

use vstd::prelude::*;
use vstd::string::*;
use crate::text::{chars_vec, int_decimal, push_char, push_i32_decimal};

verus! {

/// The TSV form of a character: tab, newline and carriage return escaped.
pub open spec fn escaped_tsv_char(c: char) -> Seq<char> {
    if c == '\t' {
        seq!['\\', 't']
    } else if c == '\n' {
        seq!['\\', 'n']
    } else if c == '\r' {
        seq!['\\', 'r']
    } else {
        seq![c]
    }
}

/// A field with its tabs, newlines and carriage returns escaped.
pub open spec fn escaped_tsv(s: Seq<char>) -> Seq<char>
    decreases s.len(),
{
    if s.len() == 0 {
        s
    } else {
        escaped_tsv(s.drop_last()) + escaped_tsv_char(s.last())
    }
}

/// Escapes a TSV field: tabs, newlines and carriage returns become `\t`,
/// `\n` and `\r`.
pub fn escape_tsv_field(field: &str) -> (r: String)
    ensures
        r@ == escaped_tsv(field@),
{
    let v = chars_vec(field);
    let mut out = String::new();
    let mut i: usize = 0;
    while i < v.len()
        invariant
            i <= v@.len(),
            v@ == field@,
            out@ == escaped_tsv(v@.take(i as int)),
        decreases v@.len() - i,
    {
        assert(v@.take(i + 1).drop_last() =~= v@.take(i as int));
        let c = v[i];
        if c == '\t' {
            push_char(&mut out, '\\');
            push_char(&mut out, 't');
        } else if c == '\n' {
            push_char(&mut out, '\\');
            push_char(&mut out, 'n');
        } else if c == '\r' {
            push_char(&mut out, '\\');
            push_char(&mut out, 'r');
        } else {
            push_char(&mut out, c);
        }
        assert(out@ =~= escaped_tsv(v@.take(i + 1)));
        i = i + 1;
    }
    assert(v@.take(v@.len() as int) =~= v@);
    out
}

/// A stored fragment as the TSV export shows it.
#[derive(Debug, Clone)]
pub struct FragmentTsvRecord {
    pub cst_file: String,
    pub frag_idx_code: String,
    pub frag_type: String,
    pub frag_review: Option<String>,
    pub nikaya: String,
    pub cst_code: Option<String>,
    pub sc_code: Option<String>,
    pub cst_vagga: Option<String>,
    pub cst_sutta: Option<String>,
    pub cst_paranum: Option<String>,
    pub sc_sutta: Option<String>,
    pub start_line: i32,
    pub start_char: i32,
    pub end_line: i32,
    pub end_char: i32,
    pub group_levels: String,
}

/// The header line of the export (without its line end).
pub open spec fn tsv_header_spec() -> Seq<char> {
    "cst_file\tfrag_idx_code\tfrag_type\tfrag_review\tnikaya\tcst_code\tsc_code\tcst_vagga\tcst_sutta\tcst_paranum\tsc_sutta\tstart_line\tstart_char\tend_line\tend_char\tgroup_levels"@
}

/// The header line of the export (without its line end).
pub fn tsv_header() -> (r: &'static str)
    ensures
        r@ == tsv_header_spec(),
{
    "cst_file\tfrag_idx_code\tfrag_type\tfrag_review\tnikaya\tcst_code\tsc_code\tcst_vagga\tcst_sutta\tcst_paranum\tsc_sutta\tstart_line\tstart_char\tend_line\tend_char\tgroup_levels"
}

/// An optional field as written: empty when absent.
pub open spec fn or_empty(o: Option<String>) -> Seq<char> {
    match o {
        Some(s) => s@,
        None => Seq::empty(),
    }
}

/// The line of a record (without its line end): its fields separated by
/// tabs; the file, type, nikaya and group levels escaped, the other texts as
/// they are, absent ones empty.
pub open spec fn tsv_row_spec(r: FragmentTsvRecord) -> Seq<char> {
    escaped_tsv(r.cst_file@) + "\t"@ + r.frag_idx_code@ + "\t"@ + escaped_tsv(r.frag_type@) + "\t"@
        + or_empty(r.frag_review) + "\t"@ + escaped_tsv(r.nikaya@) + "\t"@ + or_empty(r.cst_code)
        + "\t"@ + or_empty(r.sc_code) + "\t"@ + or_empty(r.cst_vagga) + "\t"@ + or_empty(
        r.cst_sutta,
    ) + "\t"@ + or_empty(r.cst_paranum) + "\t"@ + or_empty(r.sc_sutta) + "\t"@ + int_decimal(
        r.start_line as int,
    ) + "\t"@ + int_decimal(r.start_char as int) + "\t"@ + int_decimal(r.end_line as int) + "\t"@
        + int_decimal(r.end_char as int) + "\t"@ + escaped_tsv(r.group_levels@)
}

fn push_opt(out: &mut String, o: &Option<String>)
    ensures
        final(out)@ == old(out)@ + or_empty(*o),
{
    match o {
        Some(s) => out.append(s.as_str()),
        None => {
            assert(old(out)@ + Seq::<char>::empty() =~= old(out)@);
        },
    }
}

fn push_tab(out: &mut String)
    ensures
        final(out)@ == old(out)@ + "\t"@,
{
    out.append("\t");
}

/// The line of a record (see `tsv_row_spec`).
pub fn tsv_row(r: &FragmentTsvRecord) -> (s: String)
    ensures
        s@ == tsv_row_spec(*r),
{
    let mut out = escape_tsv_field(r.cst_file.as_str());
    push_tab(&mut out);
    out.append(r.frag_idx_code.as_str());
    push_tab(&mut out);
    let t = escape_tsv_field(r.frag_type.as_str());
    out.append(t.as_str());
    push_tab(&mut out);
    push_opt(&mut out, &r.frag_review);
    push_tab(&mut out);
    let n = escape_tsv_field(r.nikaya.as_str());
    out.append(n.as_str());
    push_tab(&mut out);
    push_opt(&mut out, &r.cst_code);
    push_tab(&mut out);
    push_opt(&mut out, &r.sc_code);
    push_tab(&mut out);
    push_opt(&mut out, &r.cst_vagga);
    push_tab(&mut out);
    push_opt(&mut out, &r.cst_sutta);
    push_tab(&mut out);
    push_opt(&mut out, &r.cst_paranum);
    push_tab(&mut out);
    push_opt(&mut out, &r.sc_sutta);
    push_tab(&mut out);
    push_i32_decimal(&mut out, r.start_line);
    push_tab(&mut out);
    push_i32_decimal(&mut out, r.start_char);
    push_tab(&mut out);
    push_i32_decimal(&mut out, r.end_line);
    push_tab(&mut out);
    push_i32_decimal(&mut out, r.end_char);
    push_tab(&mut out);
    let g = escape_tsv_field(r.group_levels.as_str());
    out.append(g.as_str());
    assert(out@ =~= tsv_row_spec(*r));
    out
}

/// An escaped field holds no tab, newline or carriage return, so it stays
/// one field of one line.
pub proof fn law_escaped_field_has_no_separators(s: Seq<char>)
    ensures
        forall|i: int|
            0 <= i < escaped_tsv(s).len() ==> #[trigger] escaped_tsv(s)[i] != '\t' && escaped_tsv(
                s,
            )[i] != '\n' && escaped_tsv(s)[i] != '\r',
    decreases s.len(),
{
    if s.len() > 0 {
        law_escaped_field_has_no_separators(s.drop_last());
        let a = escaped_tsv(s.drop_last());
        let b = escaped_tsv_char(s.last());
        assert forall|i: int| 0 <= i < escaped_tsv(s).len() implies #[trigger] escaped_tsv(s)[i]
            != '\t' && escaped_tsv(s)[i] != '\n' && escaped_tsv(s)[i] != '\r' by {
            if i < a.len() {
                assert(escaped_tsv(s)[i] == a[i]);
            } else {
                assert(escaped_tsv(s)[i] == b[i - a.len()]);
            }
        }
    }
}

} // verus!
