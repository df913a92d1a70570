//! Correction overrides from reviewed fragments of a reference database: a
//! fragment marked "moved" is collapsed; any other reviewed fragment keeps
//! its end position and its CST and SC fields. Fragments inserted by hand
//! (sub-index above 0) give no override: they are listed apart, ordered by
//! code, and each reviewed fragment's status is kept by its code.

use vstd::prelude::*;
use vstd::string::*;
use crate::text::{opt_view, str_eq};
use crate::fragment_edit::{frag_code, frag_code_string};
use crate::types::{
    clone_opt_string, CorrectionFragmentOverride, CorrectionFragmentOverrides, FragmentKey,
    FragmentKeyMap, FragmentType, StringMap,
};

verus! {

/// A stored fragment as the correction overrides read it.
#[derive(Debug, Clone)]
pub struct CorrectionRow {
    pub cst_file: String,
    pub frag_idx: i32,
    /// The sub-index: 0 for a fragment of the parse, above 0 for one that was
    /// inserted after it (code `frag_idx.frag_sub`).
    pub frag_sub: i32,
    pub end_line: i32,
    pub end_char: i32,
    pub sc_code: Option<String>,
    pub sc_sutta: Option<String>,
    pub cst_code: Option<String>,
    pub cst_vagga: Option<String>,
    pub cst_sutta: Option<String>,
    pub cst_paranum: Option<String>,
    pub frag_review: Option<String>,
    pub frag_type: String,
}

/// A fragment counts as reviewed when its review status is neither absent,
/// empty nor "unchecked".
pub open spec fn reviewed(r: CorrectionRow) -> bool {
    r.frag_review matches Some(s) && s@.len() > 0 && s@ != "unchecked"@
}

/// A reviewed fragment of the parse (sub-index 0) gives a correction
/// override.
pub open spec fn gives_override(r: CorrectionRow) -> bool {
    reviewed(r) && r.frag_sub == 0
}

/// A reviewed fragment with a sub-index above 0 was inserted by hand.
pub open spec fn is_inserted(r: CorrectionRow) -> bool {
    reviewed(r) && r.frag_sub > 0
}

/// The fragment type a stored type names: "Header", or else a sutta.
pub open spec fn type_named(t: Seq<char>) -> FragmentType {
    if t == "Header"@ {
        FragmentType::Header
    } else {
        FragmentType::Sutta
    }
}

/// The view of an override: collapse, end line and character, the texts
/// (SC code and title, CST code, vagga, title and paragraph number, review
/// status) and the type.
pub type OverrideView = (bool, Option<usize>, Option<usize>, Seq<Option<Seq<char>>>, Option<FragmentType>);

pub open spec fn override_view(o: CorrectionFragmentOverride) -> OverrideView {
    (
        o.collapse,
        o.end_line,
        o.end_char,
        seq![
            opt_view(o.sc_code),
            opt_view(o.sc_sutta),
            opt_view(o.cst_code),
            opt_view(o.cst_vagga),
            opt_view(o.cst_sutta),
            opt_view(o.cst_paranum),
            opt_view(o.frag_review),
        ],
        o.frag_type,
    )
}

/// The override a reviewed fragment gives: a moved one is collapsed and
/// keeps only its review status and type; any other keeps its end position
/// and all its fields.
pub open spec fn override_of_row(r: CorrectionRow) -> OverrideView {
    let moved = r.frag_review matches Some(s) && s@ == "moved"@;
    if moved {
        (true, None, None, seq![None, None, None, None, None, None, opt_view(r.frag_review)], Some(
            type_named(r.frag_type@),
        ))
    } else {
        (
            false,
            Some(r.end_line as usize),
            Some(r.end_char as usize),
            seq![
                opt_view(r.sc_code),
                opt_view(r.sc_sutta),
                opt_view(r.cst_code),
                opt_view(r.cst_vagga),
                opt_view(r.cst_sutta),
                opt_view(r.cst_paranum),
                opt_view(r.frag_review),
            ],
            Some(type_named(r.frag_type@)),
        )
    }
}

/// The override for a fragment: that of the last reviewed row of its file
/// and index with sub-index 0.
pub open spec fn override_for(rows: Seq<CorrectionRow>, file: Seq<char>, idx: usize) -> Option<OverrideView>
    decreases rows.len(),
{
    if rows.len() == 0 {
        None
    } else {
        let r = rows.last();
        if gives_override(r) && r.cst_file@ == file && r.frag_idx as usize == idx {
            Some(override_of_row(r))
        } else {
            override_for(rows.drop_last(), file, idx)
        }
    }
}

/// The keys `(file, idx)` that the rows give overrides for.
pub open spec fn override_keys(rows: Seq<CorrectionRow>) -> Set<(Seq<char>, usize)> {
    Set::new(
        |k: (Seq<char>, usize)|
            exists|j: int|
                0 <= j < rows.len() && gives_override(#[trigger] rows[j]) && k == (
                    rows[j].cst_file@,
                    rows[j].frag_idx as usize,
                ),
    )
}

fn is_reviewed(r: &CorrectionRow) -> (b: bool)
    ensures
        b == reviewed(*r),
{
    match &r.frag_review {
        Some(s) => {
            !s.as_str().is_empty() && !str_eq(s.as_str(), "unchecked")
        },
        None => false,
    }
}

/// The override a reviewed fragment gives (see `override_of_row`).
pub fn override_from_row(r: &CorrectionRow) -> (o: CorrectionFragmentOverride)
    ensures
        override_view(o) == override_of_row(*r),
{
    let frag_type = if str_eq(r.frag_type.as_str(), "Header") {
        FragmentType::Header
    } else {
        FragmentType::Sutta
    };
    let moved = match &r.frag_review {
        Some(s) => str_eq(s.as_str(), "moved"),
        None => false,
    };
    let o = if moved {
        CorrectionFragmentOverride {
            collapse: true,
            end_line: None,
            end_char: None,
            sc_code: None,
            sc_sutta: None,
            cst_code: None,
            cst_vagga: None,
            cst_sutta: None,
            cst_paranum: None,
            frag_review: clone_opt_string(&r.frag_review),
            frag_type: Some(frag_type),
        }
    } else {
        CorrectionFragmentOverride {
            collapse: false,
            end_line: Some(r.end_line as usize),
            end_char: Some(r.end_char as usize),
            sc_code: clone_opt_string(&r.sc_code),
            sc_sutta: clone_opt_string(&r.sc_sutta),
            cst_code: clone_opt_string(&r.cst_code),
            cst_vagga: clone_opt_string(&r.cst_vagga),
            cst_sutta: clone_opt_string(&r.cst_sutta),
            cst_paranum: clone_opt_string(&r.cst_paranum),
            frag_review: clone_opt_string(&r.frag_review),
            frag_type: Some(frag_type),
        }
    };
    assert(override_view(o).3 =~= override_of_row(*r).3);
    o
}

/// The correction overrides of the stored fragments: each reviewed fragment
/// of the parse (sub-index 0) gives the override for its file and index (see
/// `override_of_row`), a later one replacing an earlier one. The map holds
/// one entry for each such `(file, idx)` and no other.
pub fn correction_overrides_from_rows(rows: &Vec<CorrectionRow>) -> (m: CorrectionFragmentOverrides)
    ensures
        forall|f: Seq<char>, i: usize|
            #![trigger m.spec_get(f, i)]
            match m.spec_get(f, i) {
                Some(o) => override_for(rows@, f, i) == Some(override_view(o)),
                None => override_for(rows@, f, i) is None,
            },
        m.spec_keys() == override_keys(rows@),
{
    let mut m: CorrectionFragmentOverrides = FragmentKeyMap::new();
    let mut k: usize = 0;
    while k < rows.len()
        invariant
            k <= rows@.len(),
            forall|f: Seq<char>, i: usize|
                #![trigger m.spec_get(f, i)]
                match m.spec_get(f, i) {
                    Some(o) => override_for(rows@.take(k as int), f, i) == Some(override_view(o)),
                    None => override_for(rows@.take(k as int), f, i) is None,
                },
            m.spec_keys() == override_keys(rows@.take(k as int)),
        decreases rows@.len() - k,
    {
        let r = &rows[k];
        let ghost prev = rows@.take(k as int);
        let ghost next = rows@.take(k + 1);
        assert(next.drop_last() =~= prev);
        assert(next.last() == *r);
        assert(next[k as int] == *r);
        assert forall|j: int| 0 <= j < k implies next[j] == prev[j] by {}
        if is_reviewed(r) && r.frag_sub == 0 {
            let o = override_from_row(r);
            m.insert(FragmentKey { cst_file: r.cst_file.clone(), frag_idx: r.frag_idx as usize }, o);
            assert(override_keys(next) =~= override_keys(prev).insert(
                (r.cst_file@, r.frag_idx as usize),
            ));
        } else {
            assert(override_keys(next) =~= override_keys(prev));
        }
        k = k + 1;
    }
    assert(rows@.take(rows@.len() as int) =~= rows@);
    m
}

/// The order of fragment codes `idx.sub`: by index, then by sub-index.
pub open spec fn code_le(a: CorrectionRow, b: CorrectionRow) -> bool {
    a.frag_idx < b.frag_idx || (a.frag_idx == b.frag_idx && a.frag_sub <= b.frag_sub)
}

fn row_code_le(a: &CorrectionRow, b: &CorrectionRow) -> (r: bool)
    ensures
        r == code_le(*a, *b),
{
    a.frag_idx < b.frag_idx || (a.frag_idx == b.frag_idx && a.frag_sub <= b.frag_sub)
}

/// The inserted fragments of `file`, as positions in `rows`: each reviewed
/// row of that file with a sub-index above 0 appears once, and they are
/// ordered by code (rows with equal codes keep their order).
pub fn inserted_rows(rows: &Vec<CorrectionRow>, file: &str) -> (r: Vec<usize>)
    ensures
        r@.no_duplicates(),
        forall|p: usize|
            r@.contains(p) <==> (p < rows@.len() && is_inserted(rows@[p as int]) && rows@[p as int].cst_file@
                == file@),
        forall|a: int, b: int|
            0 <= a < b < r@.len() ==> code_le(rows@[r@[a] as int], rows@[r@[b] as int])
                && (code_le(rows@[r@[b] as int], rows@[r@[a] as int]) ==> r@[a] < r@[b]),
{
    let mut r: Vec<usize> = Vec::new();
    let mut k: usize = 0;
    while k < rows.len()
        invariant
            k <= rows@.len(),
            r@.no_duplicates(),
            forall|p: usize|
                r@.contains(p) <==> (p < k && is_inserted(rows@[p as int]) && rows@[p as int].cst_file@
                    == file@),
            forall|a: int, b: int|
                0 <= a < b < r@.len() ==> code_le(rows@[r@[a] as int], rows@[r@[b] as int])
                    && (code_le(rows@[r@[b] as int], rows@[r@[a] as int]) ==> r@[a] < r@[b]),
        decreases rows@.len() - k,
    {
        let row = &rows[k];
        if is_reviewed(row) && row.frag_sub > 0 && str_eq(row.cst_file.as_str(), file) {
            let mut pos = r.len();
            assert forall|b: int| 0 <= b < r@.len() implies #[trigger] r@[b] < k by {
                assert(r@.contains(r@[b]));
            }
            while pos > 0 && !row_code_le(&rows[r[pos - 1]], row)
                invariant
                    pos <= r@.len(),
                    k < rows@.len(),
                    *row == rows@[k as int],
                    forall|b: int| 0 <= b < r@.len() ==> #[trigger] r@[b] < k,
                    forall|b: int| pos <= b < r@.len() ==> !code_le(rows@[#[trigger] r@[b] as int], *row),
                decreases pos,
            {
                pos = pos - 1;
            }
            let ghost before = r@;
            proof {
                if pos > 0 {
                    assert(before.contains(before[pos - 1]));
                }
                assert forall|a: int| 0 <= a < pos implies code_le(rows@[#[trigger] before[a] as int], *row) by {
                    assert(code_le(rows@[before[a] as int], rows@[before[pos - 1] as int]));
                }
                assert forall|b: int| 0 <= b < before.len() implies before[b] < k by {
                    assert(before.contains(before[b]));
                }
            }
            r.insert(pos, k);
            proof {
                let after = r@;
                assert(after =~= before.subrange(0, pos as int).push(k).add(before.subrange(pos as int, before.len() as int)));
                assert forall|a: int| 0 <= a < after.len() implies #[trigger] after[a] == (if a < pos {
                    before[a]
                } else if a == pos {
                    k
                } else {
                    before[a - 1]
                }) by {}
                assert forall|p: usize|
                    after.contains(p) <==> (p < k + 1 && is_inserted(rows@[p as int]) && rows@[p as int].cst_file@
                        == file@) by {
                    if after.contains(p) {
                        let a = choose|a: int| 0 <= a < after.len() && after[a] == p;
                        if a < pos {
                            assert(before.contains(before[a]));
                        } else if a > pos {
                            assert(before.contains(before[a - 1]));
                        }
                    }
                    if p < k && is_inserted(rows@[p as int]) && rows@[p as int].cst_file@ == file@ {
                        assert(before.contains(p));
                        let a = choose|a: int| 0 <= a < before.len() && before[a] == p;
                        if a < pos {
                            assert(after[a] == p);
                        } else {
                            assert(after[a + 1] == p);
                        }
                    }
                    if p == k {
                        assert(after[pos as int] == p);
                    }
                }
                assert forall|a: int, b: int| 0 <= a < b < after.len() implies after[a] != after[b] by {
                    if a < pos && b > pos {
                        assert(before[b - 1] < k);
                    } else if a == pos {
                        assert(before[b - 1] < k);
                    } else if b == pos {
                        assert(before[a] < k);
                    }
                }
                assert forall|a: int, b: int|
                    0 <= a < b < after.len() implies code_le(rows@[after[a] as int], rows@[after[b] as int])
                        && (code_le(rows@[after[b] as int], rows@[after[a] as int]) ==> after[a] < after[b]) by {
                    if b == pos {
                        assert(before[a] < k);
                    } else if a == pos {
                        assert(!code_le(rows@[before[b - 1] as int], *row));
                    } else if a < pos && b > pos {
                        assert(code_le(rows@[before[a] as int], *row));
                        assert(!code_le(rows@[before[b - 1] as int], *row));
                        assert(before[a] < k && before[b - 1] < k);
                    }
                }
            }
        }
        k = k + 1;
    }
    r
}

/// The review status of the fragment of `file` with code `code`: that of
/// the last reviewed row of the file whose indices (both at least 0) make
/// that code.
pub open spec fn status_for(rows: Seq<CorrectionRow>, file: Seq<char>, code: Seq<char>) -> Option<Seq<char>>
    decreases rows.len(),
{
    if rows.len() == 0 {
        None
    } else {
        let r = rows.last();
        if reviewed(r) && r.cst_file@ == file && r.frag_idx >= 0 && r.frag_sub >= 0 && frag_code(
            r.frag_idx as nat,
            r.frag_sub as nat,
        ) == code {
            opt_view(r.frag_review)
        } else {
            status_for(rows.drop_last(), file, code)
        }
    }
}

/// The review status of each reviewed fragment of `file`, keyed by its code
/// `idx.sub` (a later row replacing an earlier one).
pub fn review_statuses(rows: &Vec<CorrectionRow>, file: &str) -> (m: StringMap<String>)
    ensures
        forall|c: Seq<char>|
            #![trigger m.spec_get(c)]
            match m.spec_get(c) {
                Some(v) => status_for(rows@, file@, c) == Some(v@),
                None => status_for(rows@, file@, c) is None,
            },
{
    let mut m: StringMap<String> = StringMap::new();
    let mut k: usize = 0;
    while k < rows.len()
        invariant
            k <= rows@.len(),
            forall|c: Seq<char>|
                #![trigger m.spec_get(c)]
                match m.spec_get(c) {
                    Some(v) => status_for(rows@.take(k as int), file@, c) == Some(v@),
                    None => status_for(rows@.take(k as int), file@, c) is None,
                },
        decreases rows@.len() - k,
    {
        let r = &rows[k];
        assert(rows@.take(k + 1).drop_last() =~= rows@.take(k as int));
        assert(rows@.take(k + 1).last() == *r);
        if is_reviewed(r) && r.frag_idx >= 0 && r.frag_sub >= 0 && str_eq(r.cst_file.as_str(), file) {
            match &r.frag_review {
                Some(status) => {
                    let code = frag_code_string(r.frag_idx as u64, r.frag_sub as u64);
                    m.insert(code, status.clone());
                },
                None => {},
            }
        }
        k = k + 1;
    }
    assert(rows@.take(rows@.len() as int) =~= rows@);
    m
}

} // verus!
