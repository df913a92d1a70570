//! The import of one XML file: its fragments are parsed, checked (first and
//! last are headers, their number matches a reference, they give the file
//! back when put together) and handed out for storing.

use vstd::prelude::*;
use vstd::string::*;
use vstd::utf8::*;
use crate::hierarchy::is_commentary;
use crate::nikaya::{detect_nikaya_structure, nikaya_marker_text, nikaya_name_class, NikayaStructure};
use crate::parser::{blank_text, clean_input, placed_in};
use crate::fragment_edit::{frag_code, frag_code_string};
use crate::text::{
    chars_vec, lowercase, nat_decimal, push_char, push_nat_decimal, str_eq, substr_bytes, trim_spec,
};
use crate::types::{
    parse_failure, CorrectionFragmentOverrides, FragmentAdjustments, FragmentType, ParserError, ParserOverrides,
    XmlFragment,
};

verus! {

/// Statistics for the import of one file.
#[derive(Debug, Clone, Default)]
pub struct FileImportStats {
    pub filename: String,
    pub nikaya: String,
    pub fragments_parsed: usize,
    pub suttas_total: usize,
    pub suttas_inserted: usize,
    pub suttas_failed: usize,
}

/// Statistics of a run over several files.
#[derive(Debug, Clone, Default)]
pub struct ProcessingStats {
    /// Files processed.
    pub files_processed: usize,
    /// Suttas stored.
    pub suttas_inserted: usize,
    /// Errors met.
    pub errors: usize,
}

/// The fragments of an XML file: a commentary or sub-commentary file is read
/// by the commentary parser, any other by the root text parser.
pub fn parse_fragments(
    xml_content: &str,
    nikaya_structure: &NikayaStructure,
    cst_file: &str,
    overrides: &ParserOverrides,
    populate_sc_fields: bool,
) -> (r: Result<Vec<XmlFragment>, ParserError>)
    requires
        xml_content.spec_bytes().len() < usize::MAX,
    ensures
        r matches Ok(frags) ==> placed_in(
            frags@,
            xml_content.spec_bytes(),
            cst_file@,
            nikaya_structure.nikaya@,
            overrides.correction_overrides is None && overrides.adjustments is None,
        ),
        r matches Err(e) ==> parse_failure(e),
        clean_input(xml_content@, *overrides, populate_sc_fields) ==> r is Ok,
        overrides.correction_overrides is None && overrides.adjustments is None ==> (r matches Ok(
            frags,
        ) && frags@.len() == 0 ==> blank_text(xml_content@)),
{
    if is_commentary(cst_file) {
        crate::tika::parse_into_fragments(
            xml_content,
            nikaya_structure,
            cst_file,
            overrides,
            populate_sc_fields,
        )
    } else {
        crate::mula::parse_into_fragments(
            xml_content,
            nikaya_structure,
            cst_file,
            overrides,
            populate_sc_fields,
        )
    }
}

/// No overrides move fragment boundaries.
pub open spec fn no_position_overrides(o: ParserOverrides) -> bool {
    o.correction_overrides is None && o.adjustments is None
}

/// How `{:?}` writes a fragment type.
pub open spec fn fragment_type_name(t: FragmentType) -> Seq<char> {
    match t {
        FragmentType::Header => "Header"@,
        FragmentType::Sutta => "Sutta"@,
    }
}

/// The details of a fragment at the start or end of a file that is not a header.
pub open spec fn not_header_details(which: Seq<char>, f: XmlFragment) -> Seq<char> {
    which + " fragment (frag_idx_code "@ + frag_code(f.frag_idx as nat, 0) + ") is "@
        + fragment_type_name(f.frag_type) + ", expected Header"@
}

/// The first and the last fragment are headers.
pub open spec fn headers_ok(frags: Seq<XmlFragment>) -> bool {
    frags.len() > 0 && frags[0].frag_type is Header && frags.last().frag_type is Header
}

/// The details of the header check of a list of fragments that fails it.
pub open spec fn header_details(frags: Seq<XmlFragment>) -> Seq<char> {
    if frags.len() == 0 {
        "no fragments found"@
    } else if !(frags[0].frag_type is Header) {
        not_header_details("first"@, frags[0])
    } else {
        not_header_details("last"@, frags.last())
    }
}

fn push_not_header(s: &mut String, f: &XmlFragment)
    ensures
        final(s)@ == old(s)@ + " fragment (frag_idx_code "@ + frag_code(f.frag_idx as nat, 0) + ") is "@
            + fragment_type_name(f.frag_type) + ", expected Header"@,
{
    s.append(" fragment (frag_idx_code ");
    let code = frag_code_string(f.frag_idx as u64, 0);
    s.append(code.as_str());
    s.append(") is ");
    match f.frag_type {
        FragmentType::Header => s.append("Header"),
        FragmentType::Sutta => s.append("Sutta"),
    }
    s.append(", expected Header");
    assert(s@ =~= old(s)@ + " fragment (frag_idx_code "@ + frag_code(f.frag_idx as nat, 0) + ") is "@
        + fragment_type_name(f.frag_type) + ", expected Header"@);
}

/// Checks that a file's fragments start and end with a header.
pub fn validate_first_last_headers(fragments: &Vec<XmlFragment>, filename: &str) -> (r: Result<
    (),
    ParserError,
>)
    ensures
        r is Ok <==> headers_ok(fragments@),
        r matches Err(e) ==> e == (ParserError::HeaderValidationFailed {
            filename: e->HeaderValidationFailed_filename,
            details: e->HeaderValidationFailed_details,
        }) && e->HeaderValidationFailed_filename@ == filename@
            && e->HeaderValidationFailed_details@ == header_details(fragments@),
{
    if fragments.len() == 0 {
        return Err(
            ParserError::HeaderValidationFailed {
                filename: String::from_str(filename),
                details: String::from_str("no fragments found"),
            },
        );
    }
    let first = &fragments[0];
    if first.frag_type != FragmentType::Header {
        let mut d = String::from_str("first");
        push_not_header(&mut d, first);
        return Err(ParserError::HeaderValidationFailed { filename: String::from_str(filename), details: d });
    }
    let last = &fragments[fragments.len() - 1];
    if last.frag_type != FragmentType::Header {
        let mut d = String::from_str("last");
        push_not_header(&mut d, last);
        return Err(ParserError::HeaderValidationFailed { filename: String::from_str(filename), details: d });
    }
    Ok(())
}

/// Checks the number of fragments against that of the reference, when there is one.
pub fn check_row_count(filename: &str, new_count: usize, ref_count: Option<usize>) -> (r: Result<
    (),
    ParserError,
>)
    ensures
        match ref_count {
            Some(n) => if new_count == n {
                r is Ok
            } else {
                r matches Err(e) && e == (ParserError::RowCountMismatch {
                    filename: e->RowCountMismatch_filename,
                    new_count,
                    ref_count: n,
                }) && e->RowCountMismatch_filename@ == filename@
            },
            None => r is Ok,
        },
{
    match ref_count {
        Some(n) => if new_count != n {
            Err(
                ParserError::RowCountMismatch {
                    filename: String::from_str(filename),
                    new_count,
                    ref_count: n,
                },
            )
        } else {
            Ok(())
        },
        None => Ok(()),
    }
}

/// The contents of the fragments, one after the other.
pub open spec fn concat_contents(frags: Seq<XmlFragment>) -> Seq<char>
    decreases frags.len(),
{
    if frags.len() == 0 {
        Seq::empty()
    } else {
        concat_contents(frags.drop_last()) + frags.last().content_xml@
    }
}

/// The XML that the fragments give when put back together.
pub fn reconstruct_xml(fragments: &Vec<XmlFragment>) -> (r: String)
    ensures
        r@ == concat_contents(fragments@),
{
    let mut s = String::new();
    let mut i: usize = 0;
    while i < fragments.len()
        invariant
            i <= fragments@.len(),
            s@ == concat_contents(fragments@.take(i as int)),
        decreases fragments@.len() - i,
    {
        assert(fragments@.take(i + 1).drop_last() =~= fragments@.take(i as int));
        s.append(fragments[i].content_xml.as_str());
        i = i + 1;
    }
    assert(fragments@.take(fragments@.len() as int) =~= fragments@);
    s
}

/// The first index from `i` on where two texts differ, within the shorter one.
pub open spec fn first_difference(a: Seq<char>, b: Seq<char>, i: int) -> Option<int>
    decreases a.len() - i,
{
    if i < 0 || i >= a.len() || i >= b.len() {
        None
    } else if a[i] != b[i] {
        Some(i)
    } else {
        first_difference(a, b, i + 1)
    }
}

/// The details of a failed reconstruction: the byte lengths when they differ;
/// otherwise the first differing character, with up to 50 bytes of the
/// original on each side (when those bounds fall between characters).
pub open spec fn reconstruction_details(orig: Seq<char>, recon: Seq<char>) -> Seq<char> {
    let ob = encode_utf8(orig);
    let rb = encode_utf8(recon);
    if ob.len() != rb.len() {
        "length mismatch (original: "@ + nat_decimal(ob.len()) + " bytes, reconstructed: "@
            + nat_decimal(rb.len()) + " bytes)"@
    } else {
        match first_difference(orig, recon, 0) {
            Some(i) => {
                let cs = if i >= 50 {
                    i - 50
                } else {
                    0
                };
                let ce = if i + 50 < ob.len() {
                    i + 50
                } else {
                    ob.len() as int
                };
                if cs <= ce && is_char_boundary(ob, cs) && is_char_boundary(ob, ce) {
                    "at position "@ + nat_decimal(i as nat) + ": expected '"@ + seq![orig[i]]
                        + "', got '"@ + seq![recon[i]] + "'\nContext: "@ + decode_utf8(
                        ob.subrange(cs, ce),
                    )
                } else {
                    "content mismatch (details unknown)"@
                }
            },
            None => "content mismatch (details unknown)"@,
        }
    }
}

fn find_first_difference(a: &Vec<char>, b: &Vec<char>) -> (r: Option<usize>)
    ensures
        match r {
            Some(i) => first_difference(a@, b@, 0) == Some(i as int) && i < a@.len() && i < b@.len(),
            None => first_difference(a@, b@, 0) is None,
        },
{
    let mut i: usize = 0;
    while i < a.len() && i < b.len()
        invariant
            i <= a@.len(),
            first_difference(a@, b@, 0) == first_difference(a@, b@, i as int),
        decreases a@.len() - i,
    {
        if a[i] != b[i] {
            return Some(i);
        }
        i = i + 1;
    }
    None
}

fn mismatch_details(original: &str, reconstructed: &str) -> (r: String)
    ensures
        r@ == reconstruction_details(original@, reconstructed@),
{
    let olen = original.as_bytes().len();
    let rlen = reconstructed.as_bytes().len();
    if olen != rlen {
        let mut d = String::from_str("length mismatch (original: ");
        push_nat_decimal(&mut d, olen as u64);
        d.append(" bytes, reconstructed: ");
        push_nat_decimal(&mut d, rlen as u64);
        d.append(" bytes)");
        assert(d@ =~= reconstruction_details(original@, reconstructed@));
        return d;
    }
    let a = chars_vec(original);
    let b = chars_vec(reconstructed);
    match find_first_difference(&a, &b) {
        Some(i) => {
            let cs: usize = if i >= 50 {
                i - 50
            } else {
                0
            };
            let ce: usize = if i < olen && olen - i > 50 {
                i + 50
            } else {
                olen
            };
            if cs <= ce && original.is_char_boundary(cs) && original.is_char_boundary(ce) {
                let ctx = substr_bytes(original, cs, ce);
                proof {
                    encode_utf8_decode_utf8(ctx@);
                }
                let mut d = String::from_str("at position ");
                push_nat_decimal(&mut d, i as u64);
                d.append(": expected '");
                push_char(&mut d, a[i]);
                d.append("', got '");
                push_char(&mut d, b[i]);
                d.append("'\nContext: ");
                d.append(ctx);
                assert(d@ =~= reconstruction_details(original@, reconstructed@));
                d
            } else {
                String::from_str("content mismatch (details unknown)")
            }
        },
        None => String::from_str("content mismatch (details unknown)"),
    }
}

/// Compares a file's XML with the XML its stored fragments give back.
pub fn verify_reconstruction(filename: &str, original: &str, reconstructed: &str) -> (r: Result<
    (),
    ParserError,
>)
    ensures
        r is Ok <==> original@ == reconstructed@,
        r matches Err(e) ==> e == (ParserError::ReconstructionVerificationFailed {
            filename: e->ReconstructionVerificationFailed_filename,
            details: e->ReconstructionVerificationFailed_details,
        }) && e->ReconstructionVerificationFailed_filename@ == filename@
            && e->ReconstructionVerificationFailed_details@ == reconstruction_details(
            original@,
            reconstructed@,
        ),
{
    if str_eq(original, reconstructed) {
        return Ok(());
    }
    Err(
        ParserError::ReconstructionVerificationFailed {
            filename: String::from_str(filename),
            details: mismatch_details(original, reconstructed),
        },
    )
}

/// Fragments of a file that may be stored: the first and last are headers,
/// there are as many as the reference has (when there is one), they give the
/// file back when put together, and they lie where the parser found them.
pub open spec fn export_ok(
    frags: Seq<XmlFragment>,
    filename: Seq<char>,
    xml: Seq<char>,
    reference_count: Option<usize>,
    plain: bool,
) -> bool {
    &&& headers_ok(frags)
    &&& reference_count matches Some(n) ==> frags.len() == n
    &&& concat_contents(frags) == xml
    &&& exists|nikaya: Seq<char>| #[trigger] placed_in(frags, encode_utf8(xml), filename, nikaya, plain)
}

/// What an import error tells: a count mismatch carries the file, its new
/// count and the reference count, which differ; a header or reconstruction
/// failure carries the file; any other error is one of the parser.
pub open spec fn export_error_ok(e: ParserError, filename: Seq<char>, reference_count: Option<usize>) -> bool {
    match e {
        ParserError::RowCountMismatch { filename: f, new_count, ref_count } => f@ == filename
            && reference_count == Some(ref_count) && new_count != ref_count,
        ParserError::HeaderValidationFailed { filename: f, .. } => f@ == filename,
        ParserError::ReconstructionVerificationFailed { filename: f, .. } => f@ == filename,
        _ => parse_failure(e),
    }
}

/// The text names a nikaya whose structure is known (see `detect_nikaya_structure`).
pub open spec fn nikaya_detected(b: Seq<u8>) -> bool {
    nikaya_marker_text(b) matches Some(t) && nikaya_name_class(lowercase(trim_spec(trim_spec(t)))) is Some
}

/// The importer: parser overrides and the path of a reference database.
pub struct TipitakaImporter {
    overrides: ParserOverrides,
    reference_db_path: Option<String>,
}

impl TipitakaImporter {
    /// The overrides the importer parses with.
    pub closed spec fn overrides_view(&self) -> ParserOverrides {
        self.overrides
    }

    /// The path of the reference database, if any.
    pub closed spec fn reference_db_view(&self) -> Option<String> {
        self.reference_db_path
    }

    /// A new importer, without overrides or reference database.
    pub fn new() -> (r: Result<Self, ParserError>)
        ensures
            r matches Ok(imp) && imp.overrides_view().correction_overrides is None
                && imp.overrides_view().adjustments is None
                && imp.overrides_view().pali_titles is None
                && imp.overrides_view().sc_code_map is None && imp.reference_db_view() is None,
    {
        Ok(TipitakaImporter { overrides: ParserOverrides::default(), reference_db_path: None })
    }

    /// The importer with these boundary adjustments.
    pub fn with_adjustments(self, adjustments: FragmentAdjustments) -> (r: Self)
        ensures
            r.overrides_view() == (ParserOverrides {
                adjustments: Some(adjustments),
                ..self.overrides_view()
            }),
            r.reference_db_view() == self.reference_db_view(),
    {
        let mut s = self;
        s.overrides.adjustments = Some(adjustments);
        s
    }

    /// The importer with these correction overrides.
    pub fn with_correction_overrides(self, correction_overrides: CorrectionFragmentOverrides) -> (r:
        Self)
        ensures
            r.overrides_view() == (ParserOverrides {
                correction_overrides: Some(correction_overrides),
                ..self.overrides_view()
            }),
            r.reference_db_view() == self.reference_db_view(),
    {
        let mut s = self;
        s.overrides.correction_overrides = Some(correction_overrides);
        s
    }

    /// The importer with these parser overrides.
    pub fn with_overrides(self, overrides: ParserOverrides) -> (r: Self)
        ensures
            r.overrides_view() == overrides,
            r.reference_db_view() == self.reference_db_view(),
    {
        let mut s = self;
        s.overrides = overrides;
        s
    }

    /// The importer with a reference database to check fragment counts against.
    pub fn with_reference_db(self, path: String) -> (r: Self)
        ensures
            r.overrides_view() == self.overrides_view(),
            r.reference_db_view() == Some(path),
    {
        let mut s = self;
        s.reference_db_path = Some(path);
        s
    }

    /// The overrides the importer parses with.
    pub fn overrides(&self) -> (r: &ParserOverrides)
        ensures
            *r == self.overrides_view(),
    {
        &self.overrides
    }

    /// The path of the reference database, if any.
    pub fn reference_db_path(&self) -> (r: Option<&String>)
        ensures
            match r {
                Some(p) => self.reference_db_view() == Some(*p),
                None => self.reference_db_view() is None,
            },
    {
        match &self.reference_db_path {
            Some(p) => Some(p),
            None => None,
        }
    }

    #[verifier::spinoff_prover]
    #[verifier::rlimit(40)]
    /// The fragments of a file, ready to be stored: parsed with the SC fields
    /// filled, the first and last a header, as many as the reference has (when
    /// there is one), and giving the file back when put together.
    pub fn export_fragments(&self, filename: &str, xml_content: &str, reference_count: Option<usize>) -> (r:
        Result<Vec<XmlFragment>, ParserError>)
        requires
            xml_content.spec_bytes().len() < usize::MAX,
        ensures
            r matches Ok(frags) ==> export_ok(frags@, filename@, xml_content@, reference_count, no_position_overrides(self.overrides_view())),
            r matches Err(e) ==> export_error_ok(e, filename@, reference_count),
            r matches Err(e) ==> (nikaya_detected(xml_content.spec_bytes()) && clean_input(
                xml_content@,
                self.overrides_view(),
                true,
            ) ==> !parse_failure(e)),
    {
        let structure = match detect_nikaya_structure(xml_content) {
            Ok(s) => s,
            Err(e) => return Err(e),
        };
        let frags = match parse_fragments(xml_content, &structure, filename, &self.overrides, true) {
            Ok(f) => f,
            Err(e) => return Err(e),
        };
        match validate_first_last_headers(&frags, filename) {
            Ok(()) => {},
            Err(e) => return Err(e),
        }
        match check_row_count(filename, frags.len(), reference_count) {
            Ok(()) => {},
            Err(e) => return Err(e),
        }
        let recon = reconstruct_xml(&frags);
        match verify_reconstruction(filename, xml_content, recon.as_str()) {
            Ok(()) => {},
            Err(e) => return Err(e),
        }
        assert(placed_in(
            frags@,
            xml_content.spec_bytes(),
            filename@,
            structure.nikaya@,
            no_position_overrides(self.overrides_view()),
        ));
        Ok(frags)
    }
}

} // verus!
