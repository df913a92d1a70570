//! Line/character positions in XML text and fragment boundary overrides.

use vstd::prelude::*;
use vstd::string::*;
use crate::text::{push_nat_decimal, nat_decimal};
use crate::types::{parse_failure, 
    CorrectionFragmentOverrides, FragmentAdjustments, ParserError,
};

verus! {

/// The `(line, char)` position reached after reading the first `p` bytes:
/// lines are 1-indexed, the character position counts bytes since the last newline.
pub open spec fn line_col(b: Seq<u8>, p: int) -> (int, int)
    decreases p,
{
    if p <= 0 {
        (1, 0)
    } else {
        let prev = line_col(b, p - 1);
        if b[p - 1] == 10u8 {
            (prev.0 + 1, 0)
        } else {
            (prev.0, prev.1 + 1)
        }
    }
}

pub proof fn lemma_line_col_bounds(b: Seq<u8>, p: int)
    requires
        0 <= p,
    ensures
        1 <= line_col(b, p).0 <= p + 1,
        0 <= line_col(b, p).1 <= p,
    decreases p,
{
    if p > 0 {
        lemma_line_col_bounds(b, p - 1);
    }
}

pub proof fn lemma_line_col_mono(b: Seq<u8>, p: int, q: int)
    requires
        0 <= p <= q,
    ensures
        line_col(b, p).0 <= line_col(b, q).0,
    decreases q - p,
{
    if p < q {
        lemma_line_col_mono(b, p, q - 1);
    }
}

/// Converts a `(line, char)` position to a byte position: the first byte index
/// whose position is `(target_line, target_char)`, or the length when none is.
pub fn line_char_to_byte_pos(xml_content: &str, target_line: usize, target_char: usize) -> (r:
    usize)
    ensures
        r <= xml_content.spec_bytes().len(),
        r < xml_content.spec_bytes().len() ==> line_col(xml_content.spec_bytes(), r as int) == (
        target_line as int, target_char as int),
        forall|q: int|
            0 <= q < r ==> line_col(xml_content.spec_bytes(), q) != (
            target_line as int,
            target_char as int,
            ),
{
    let bytes = xml_content.as_bytes();
    let ghost b = bytes@;
    let n = bytes.len();
    let mut current_line: usize = 1;
    let mut current_char: usize = 0;
    let mut idx: usize = 0;
    while idx < n
        invariant
            b == bytes@,
            b == xml_content.spec_bytes(),
            n == b.len(),
            idx <= n,
            line_col(b, idx as int) == (current_line as int, current_char as int),
            current_line <= idx + 1,
            current_char <= idx,
            forall|q: int|
                0 <= q < idx ==> line_col(b, q) != (target_line as int, target_char as int),
        decreases n - idx,
    {
        if current_line == target_line && current_char == target_char {
            return idx;
        }
        if bytes[idx] == 10u8 {
            if current_line == usize::MAX {
                assert forall|q: int| 0 <= q < n implies line_col(b, q) != (
                    target_line as int,
                    target_char as int,
                ) by {
                    if q > idx {
                        lemma_line_col_mono(b, idx + 1, q);
                    }
                }
                return n;
            }
            current_line = current_line + 1;
            current_char = 0;
        } else {
            current_char = current_char + 1;
        }
        idx = idx + 1;
    }
    n
}

/// The override for `(file, idx)`: a correction override with an end line
/// wins, then a legacy adjustment with an end line; a missing end character is 0.
pub open spec fn boundary_override_spec(
    file: Seq<char>,
    idx: usize,
    correction_overrides: Option<CorrectionFragmentOverrides>,
    adjustments: Option<FragmentAdjustments>,
) -> Option<(usize, usize)> {
    let from_correction = match correction_overrides {
        Some(m) => match m.spec_get(file, idx) {
            Some(o) => match o.end_line {
                Some(l) => Some((l, o.end_char.unwrap_or(0))),
                None => None,
            },
            None => None,
        },
        None => None,
    };
    if from_correction is Some {
        from_correction
    } else {
        match adjustments {
            Some(m) => match m.spec_get(file, idx) {
                Some(a) => match a.end_line {
                    Some(l) => Some((l, a.end_char.unwrap_or(0))),
                    None => None,
                },
                None => None,
            },
            None => None,
        }
    }
}

/// True when a correction override collapses fragment `(file, idx)`.
pub open spec fn collapse_spec(
    file: Seq<char>,
    idx: usize,
    correction_overrides: Option<CorrectionFragmentOverrides>,
) -> bool {
    match correction_overrides {
        Some(m) => match m.spec_get(file, idx) {
            Some(o) => o.collapse,
            None => false,
        },
        None => false,
    }
}

/// Gets the boundary override `(end_line, end_char)` for a fragment.
pub fn get_boundary_override(
    cst_file: &str,
    frag_idx: usize,
    correction_overrides: Option<&CorrectionFragmentOverrides>,
    adjustments: Option<&FragmentAdjustments>,
) -> (r: Option<(usize, usize)>)
    ensures
        r == boundary_override_spec(
            cst_file@,
            frag_idx,
            match correction_overrides {
                Some(m) => Some(*m),
                None => None,
            },
            match adjustments {
                Some(m) => Some(*m),
                None => None,
            },
        ),
{
    if let Some(overrides) = correction_overrides {
        if let Some(override_data) = overrides.get(cst_file, frag_idx) {
            if let Some(end_line) = override_data.end_line {
                let end_char = match override_data.end_char {
                    Some(c) => c,
                    None => 0,
                };
                return Some((end_line, end_char));
            }
        }
    }
    if let Some(adjustments_map) = adjustments {
        if let Some(adjustment) = adjustments_map.get(cst_file, frag_idx) {
            if let Some(end_line) = adjustment.end_line {
                let end_char = match adjustment.end_char {
                    Some(c) => c,
                    None => 0,
                };
                return Some((end_line, end_char));
            }
        }
    }
    None
}

/// The details of the error for an override that ends before its fragment starts.
pub open spec fn override_error_details(
    end_pos: usize,
    start_pos: usize,
    file: Seq<char>,
    idx: usize,
    end_line: usize,
    end_char: usize,
) -> Seq<char> {
    "end position ("@ + nat_decimal(end_pos as nat) + ") is before fragment start position ("@
        + nat_decimal(start_pos as nat) + ")\n  File: "@ + file + "\n  Fragment index: "@
        + nat_decimal(idx as nat) + "\n  Override: end_line="@ + nat_decimal(end_line as nat)
        + ", end_char="@ + nat_decimal(end_char as nat)
        + "\n\nThis indicates the override is being applied to the wrong fragment, likely due to frag_idx shifting between parse runs. Please adjust the fragment boundary in the UI."@
}

fn override_error(
    end_pos: usize,
    start_pos: usize,
    cst_file: &str,
    frag_idx: usize,
    end_line: usize,
    end_char: usize,
) -> (r: ParserError)
    ensures
        r is InvalidBoundaryOverride,
        r->InvalidBoundaryOverride_details@ == override_error_details(
            end_pos,
            start_pos,
            cst_file@,
            frag_idx,
            end_line,
            end_char,
        ),
{
    let mut s = String::from_str("end position (");
    push_nat_decimal(&mut s, end_pos as u64);
    s.append(") is before fragment start position (");
    push_nat_decimal(&mut s, start_pos as u64);
    s.append(")\n  File: ");
    s.append(cst_file);
    s.append("\n  Fragment index: ");
    push_nat_decimal(&mut s, frag_idx as u64);
    s.append("\n  Override: end_line=");
    push_nat_decimal(&mut s, end_line as u64);
    s.append(", end_char=");
    push_nat_decimal(&mut s, end_char as u64);
    s.append(
        "\n\nThis indicates the override is being applied to the wrong fragment, likely due to frag_idx shifting between parse runs. Please adjust the fragment boundary in the UI.",
    );
    ParserError::InvalidBoundaryOverride { details: s }
}

pub open spec fn opt_ref<T>(o: Option<&T>) -> Option<T> {
    match o {
        Some(m) => Some(*m),
        None => None,
    }
}

/// Applies the overrides to the end of a fragment.
///
/// Returns `(end_pos, end_line, end_char, collapsed)`: the fragment start for a
/// collapsed fragment, the converted override position when one exists, and the
/// defaults otherwise. An override that ends before the fragment start is an error.
pub fn apply_fragment_adjustment(
    xml_content: &str,
    default_end_pos: usize,
    default_end_line: usize,
    default_end_char: usize,
    cst_file: &str,
    frag_idx: usize,
    frag_start_pos: usize,
    frag_start_line: usize,
    frag_start_char: usize,
    correction_overrides: Option<&CorrectionFragmentOverrides>,
    adjustments: Option<&FragmentAdjustments>,
) -> (r: Result<(usize, usize, usize, bool), ParserError>)
    ensures
        r matches Err(e) ==> parse_failure(e),
        collapse_spec(cst_file@, frag_idx, opt_ref(correction_overrides)) ==> r == Ok::<
            (usize, usize, usize, bool),
            ParserError,
        >((frag_start_pos, frag_start_line, frag_start_char, true)),
        !collapse_spec(cst_file@, frag_idx, opt_ref(correction_overrides)) ==> match
            boundary_override_spec(
            cst_file@,
            frag_idx,
            opt_ref(correction_overrides),
            opt_ref(adjustments),
        ) {
            None => r == Ok::<(usize, usize, usize, bool), ParserError>(
                (default_end_pos, default_end_line, default_end_char, false),
            ),
            Some((l, c)) => {
                let p = line_char_to_byte_pos_spec(xml_content.spec_bytes(), l, c);
                if p < frag_start_pos {
                    r is Err && r->Err_0 is InvalidBoundaryOverride
                        && r->Err_0->InvalidBoundaryOverride_details@ == override_error_details(
                        p as usize,
                        frag_start_pos,
                        cst_file@,
                        frag_idx,
                        l,
                        c,
                    )
                } else {
                    r == Ok::<(usize, usize, usize, bool), ParserError>((p as usize, l, c, false))
                }
            },
        },
{
    if let Some(overrides) = correction_overrides {
        if let Some(override_data) = overrides.get(cst_file, frag_idx) {
            if override_data.collapse {
                return Ok((frag_start_pos, frag_start_line, frag_start_char, true));
            }
        }
    }
    match apply_boundary_override(
        xml_content,
        default_end_pos,
        default_end_line,
        default_end_char,
        cst_file,
        frag_idx,
        frag_start_pos,
        correction_overrides,
        adjustments,
    ) {
        Ok((p, l, c)) => Ok((p, l, c, false)),
        Err(e) => Err(e),
    }
}

/// The byte position `line_char_to_byte_pos` gives.
pub open spec fn line_char_to_byte_pos_spec(b: Seq<u8>, l: usize, c: usize) -> int {
    if exists|q: int| 0 <= q < b.len() && line_col(b, q) == (l as int, c as int) {
        choose|q: int|
            0 <= q < b.len() && line_col(b, q) == (l as int, c as int) && forall|q2: int|
                0 <= q2 < q ==> line_col(b, q2) != (l as int, c as int)
    } else {
        b.len() as int
    }
}

proof fn lemma_line_char_pos_unique(b: Seq<u8>, l: usize, c: usize, r: int)
    requires
        0 <= r <= b.len(),
        r < b.len() ==> line_col(b, r) == (l as int, c as int),
        forall|q: int| 0 <= q < r ==> line_col(b, q) != (l as int, c as int),
    ensures
        line_char_to_byte_pos_spec(b, l, c) == r,
{
    if r < b.len() {
        let q = choose|q: int|
            0 <= q < b.len() && line_col(b, q) == (l as int, c as int) && forall|q2: int|
                0 <= q2 < q ==> line_col(b, q2) != (l as int, c as int);
        assert(line_col(b, r) == (l as int, c as int));
        if q < r {
        } else if q > r {
        }
    }
}

/// Applies a boundary override to the end of a fragment: `(end_pos, end_line, end_char)`.
pub fn apply_boundary_override(
    xml_content: &str,
    default_end_pos: usize,
    default_end_line: usize,
    default_end_char: usize,
    cst_file: &str,
    frag_idx: usize,
    frag_start_pos: usize,
    correction_overrides: Option<&CorrectionFragmentOverrides>,
    adjustments: Option<&FragmentAdjustments>,
) -> (r: Result<(usize, usize, usize), ParserError>)
    ensures
        r matches Err(e) ==> parse_failure(e),
        match boundary_override_spec(
            cst_file@,
            frag_idx,
            opt_ref(correction_overrides),
            opt_ref(adjustments),
        ) {
            None => r == Ok::<(usize, usize, usize), ParserError>(
                (default_end_pos, default_end_line, default_end_char),
            ),
            Some((l, c)) => {
                let p = line_char_to_byte_pos_spec(xml_content.spec_bytes(), l, c);
                if p < frag_start_pos {
                    r is Err && r->Err_0 is InvalidBoundaryOverride
                        && r->Err_0->InvalidBoundaryOverride_details@ == override_error_details(
                        p as usize,
                        frag_start_pos,
                        cst_file@,
                        frag_idx,
                        l,
                        c,
                    )
                } else {
                    r == Ok::<(usize, usize, usize), ParserError>((p as usize, l, c))
                }
            },
        },
{
    if let Some((end_line, end_char)) = get_boundary_override(
        cst_file,
        frag_idx,
        correction_overrides,
        adjustments,
    ) {
        let end_pos = line_char_to_byte_pos(xml_content, end_line, end_char);
        proof {
            lemma_line_char_pos_unique(xml_content.spec_bytes(), end_line, end_char, end_pos as int);
        }
        if end_pos < frag_start_pos {
            return Err(
                override_error(end_pos, frag_start_pos, cst_file, frag_idx, end_line, end_char),
            );
        }
        return Ok((end_pos, end_line, end_char));
    }
    Ok((default_end_pos, default_end_line, default_end_char))
}

} // verus!
