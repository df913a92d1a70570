//! The check that a new export of fragments only improves on an old one: a
//! row whose CST sutta title was right must stay right.

use vstd::prelude::*;
use vstd::string::*;
use crate::text::{chars_vec, opt_view, parse_i32_chars, parse_i32_spec, str_eq, trim_spec, trim_str};
use crate::tsv::{
    column_of, load_cst_sc_references, mapping_records_spec, read_tsv_table, reference_of,
    rows_view, strings_view, table_view, tsv_table_spec,
};
use crate::types::{ParserError, StringMap};

verus! {

/// A fragment row of a TSV export (empty fields read as none).
#[derive(Debug, Clone, PartialEq)]
pub struct FragmentTsvRow {
    pub cst_file: String,
    pub frag_idx: i32,
    pub cst_code: Option<String>,
    pub cst_vagga: Option<String>,
    pub cst_sutta: Option<String>,
    pub sc_code: Option<String>,
    pub sc_sutta: Option<String>,
}

/// The result of comparing two exports.
#[derive(Debug)]
pub struct DiffCheckResult {
    pub total_rows: usize,
    pub differing_rows: usize,
    pub validation_errors: Vec<ValidationError>,
}

/// A row whose right CST sutta title went wrong.
#[derive(Debug)]
pub struct ValidationError {
    pub cst_file: String,
    pub frag_idx: i32,
    pub cst_code: String,
    pub actual_cst_sutta: Option<String>,
    pub expected_cst_sutta: String,
}

/// The view of a row.
pub type RowView = (Seq<char>, i32, Seq<Option<Seq<char>>>);

pub open spec fn row_view(r: FragmentTsvRow) -> RowView {
    (
        r.cst_file@,
        r.frag_idx,
        seq![
            opt_view(r.cst_code),
            opt_view(r.cst_vagga),
            opt_view(r.cst_sutta),
            opt_view(r.sc_code),
            opt_view(r.sc_sutta),
        ],
    )
}

pub open spec fn rows_of(v: Seq<FragmentTsvRow>) -> Seq<RowView> {
    v.map_values(|r: FragmentTsvRow| row_view(r))
}

/// An optional field: none when blank.
pub open spec fn optional_field(s: Seq<char>) -> Option<Seq<char>> {
    if trim_spec(s).len() == 0 {
        None
    } else {
        Some(s)
    }
}

/// The names of the optional columns, in field order.
pub open spec fn optional_columns() -> Seq<Seq<char>> {
    seq!["cst_code"@, "cst_vagga"@, "cst_sutta"@, "sc_code"@, "sc_sutta"@]
}

/// The field of a record in column `name`.
pub open spec fn field_in(headers: Seq<Seq<char>>, row: Seq<Seq<char>>, name: Seq<char>) -> Option<
    Seq<char>,
> {
    match column_of(headers, name) {
        Some(i) => if i < row.len() {
            Some(row[i])
        } else {
            None
        },
        None => None,
    }
}

/// A row read from a record: the file, the index (an `i32`) and the optional
/// fields; none when a column is missing or the index does not parse.
pub open spec fn row_from_record(headers: Seq<Seq<char>>, row: Seq<Seq<char>>) -> Option<RowView> {
    match (field_in(headers, row, "cst_file"@), field_in(headers, row, "frag_idx"@)) {
        (Some(f), Some(i)) => match parse_i32_spec(i) {
            Some(idx) => if forall|c: int|
                0 <= c < 5 ==> #[trigger] field_in(headers, row, optional_columns()[c]) is Some {
                Some(
                    (
                        f,
                        idx,
                        Seq::new(
                            5,
                            |c: int| optional_field(field_in(headers, row, optional_columns()[c])->0),
                        ),
                    ),
                )
            } else {
                None
            },
            None => None,
        },
        _ => None,
    }
}

/// The rows read from a table; none when any record cannot be read.
pub open spec fn rows_from_table(headers: Seq<Seq<char>>, rows: Seq<Seq<Seq<char>>>) -> Option<Seq<RowView>> {
    if forall|r: int| 0 <= r < rows.len() ==> #[trigger] row_from_record(headers, rows[r]) is Some {
        Some(Seq::new(rows.len(), |r: int| row_from_record(headers, rows[r])->0))
    } else {
        None
    }
}

fn find_col(headers: &Vec<String>, name: &str) -> (r: Option<usize>)
    ensures
        match r {
            Some(i) => i < headers@.len() && column_of(strings_view(headers@), name@) == Some(i as int),
            None => column_of(strings_view(headers@), name@) is None,
        },
{
    crate::tsv::find_column(headers, name)
}

fn get_field(headers: &Vec<String>, row: &Vec<String>, name: &str) -> (r: Option<String>)
    ensures
        opt_view(r) == field_in(strings_view(headers@), strings_view(row@), name@),
{
    match find_col(headers, name) {
        Some(i) => if i < row.len() {
            Some(row[i].clone())
        } else {
            None
        },
        None => None,
    }
}

fn optional(s: String) -> (r: Option<String>)
    ensures
        opt_view(r) == optional_field(s@),
{
    if trim_str(s.as_str()).is_empty() {
        None
    } else {
        Some(s)
    }
}

fn optional_column(c: usize) -> (r: &'static str)
    requires
        c < 5,
    ensures
        r@ == optional_columns()[c as int],
{
    if c == 0 {
        "cst_code"
    } else if c == 1 {
        "cst_vagga"
    } else if c == 2 {
        "cst_sutta"
    } else if c == 3 {
        "sc_code"
    } else {
        "sc_sutta"
    }
}

fn row_from(headers: &Vec<String>, row: &Vec<String>) -> (r: Option<FragmentTsvRow>)
    ensures
        match r {
            Some(x) => row_from_record(strings_view(headers@), strings_view(row@)) == Some(row_view(x)),
            None => row_from_record(strings_view(headers@), strings_view(row@)) is None,
        },
{
    let ghost hv = strings_view(headers@);
    let ghost rv = strings_view(row@);
    let f = match get_field(headers, row, "cst_file") {
        Some(f) => f,
        None => return None,
    };
    let i = match get_field(headers, row, "frag_idx") {
        Some(i) => i,
        None => return None,
    };
    let iv = chars_vec(i.as_str());
    assert(iv@.subrange(0, iv@.len() as int) =~= iv@);
    let idx = match parse_i32_chars(iv.as_slice(), 0, iv.len()) {
        Some(x) => x,
        None => return None,
    };
    let mut opts: Vec<Option<String>> = Vec::new();
    let mut c: usize = 0;
    while c < 5
        invariant
            c <= 5,
            opts@.len() == c,
            hv == strings_view(headers@),
            rv == strings_view(row@),
            forall|k: int|
                0 <= k < c ==> field_in(hv, rv, optional_columns()[k]) is Some && opt_view(
                    #[trigger] opts@[k],
                ) == optional_field(field_in(hv, rv, optional_columns()[k])->0),
        decreases 5 - c,
    {
        match get_field(headers, row, optional_column(c)) {
            Some(v) => {
                opts.push(optional(v));
            },
            None => {
                assert(field_in(hv, rv, optional_columns()[c as int]) is None);
                return None;
            },
        }
        c = c + 1;
    }
    let r = FragmentTsvRow {
        cst_file: f,
        frag_idx: idx,
        cst_code: crate::types::clone_opt_string(&opts[0]),
        cst_vagga: crate::types::clone_opt_string(&opts[1]),
        cst_sutta: crate::types::clone_opt_string(&opts[2]),
        sc_code: crate::types::clone_opt_string(&opts[3]),
        sc_sutta: crate::types::clone_opt_string(&opts[4]),
    };
    assert(row_view(r).2 =~= Seq::new(
        5,
        |k: int| optional_field(field_in(hv, rv, optional_columns()[k])->0),
    ));
    Some(r)
}

/// The rows of a TSV export: those of the table the csv crate reads from it
/// (see `rows_from_table`).
pub fn parse_tsv_rows(text: &str) -> (r: Result<Vec<FragmentTsvRow>, ParserError>)
    ensures
        match r {
            Ok(rows) => tsv_table_spec(text@) matches Some(t) && rows_from_table(t.0, t.1) == Some(
                rows_of(rows@),
            ),
            Err(e) => e is GeneralError && match tsv_table_spec(text@) {
                Some(t) => rows_from_table(t.0, t.1) is None,
                None => true,
            },
        },
{
    let t = match read_tsv_table(text) {
        Some(t) => t,
        None => return Err(
            ParserError::GeneralError {
                message: String::from_str("Failed to deserialize TSV records"),
            },
        ),
    };
    let ghost tt = table_view(t);
    let (headers, table) = t;
    let ghost hv = strings_view(headers@);
    let ghost tv = rows_view(table@);
    assert(tt == (hv, tv));
    let mut out: Vec<FragmentTsvRow> = Vec::new();
    let mut i: usize = 0;
    while i < table.len()
        invariant
            i <= table@.len() == tv.len(),
            hv == strings_view(headers@),
            tv == rows_view(table@),
            tsv_table_spec(text@) == Some((hv, tv)),
            out@.len() == i,
            forall|q: int|
                0 <= q < i ==> row_from_record(hv, tv[q]) == Some(#[trigger] rows_of(out@)[q]),
        decreases table@.len() - i,
    {
        assert(tv[i as int] == strings_view(table@[i as int]@));
        match row_from(&headers, &table[i]) {
            Some(r) => {
                let ghost before = out@;
                out.push(r);
                assert forall|q: int| 0 <= q < i + 1 implies row_from_record(hv, tv[q]) == Some(
                    #[trigger] rows_of(out@)[q],
                ) by {
                    if q < i {
                        assert(rows_of(out@)[q] == rows_of(before)[q]);
                    }
                }
            },
            None => {
                assert(!(forall|r: int|
                    0 <= r < tv.len() ==> #[trigger] row_from_record(hv, tv[r]) is Some));
                return Err(
                    ParserError::GeneralError {
                        message: String::from_str("Failed to deserialize TSV records"),
                    },
                );
            },
        }
        i = i + 1;
    }
    assert forall|r: int| 0 <= r < tv.len() implies #[trigger] row_from_record(hv, tv[r]) is Some by {
        assert(row_from_record(hv, tv[r]) == Some(rows_of(out@)[r]));
    }
    assert(rows_of(out@) =~= Seq::new(tv.len(), |r: int| row_from_record(hv, tv[r])->0));
    Ok(out)
}


/// The row of `old` with the given file and index: the last such row.
pub open spec fn old_row_for(old: Seq<RowView>, file: Seq<char>, idx: i32) -> Option<RowView>
    decreases old.len(),
{
    if old.len() == 0 {
        None
    } else if old.last().0 == file && old.last().1 == idx {
        Some(old.last())
    } else {
        old_row_for(old.drop_last(), file, idx)
    }
}

/// A new row differs from the old export: an old row has its file and index,
/// and some field differs.
pub open spec fn row_differs(old: Seq<RowView>, n: RowView) -> bool {
    old_row_for(old, n.0, n.1) matches Some(o) && o != n
}

/// The view of a validation error: file, index, old CST code, new CST sutta
/// title, expected title.
pub type ErrorView = (Seq<char>, i32, Seq<char>, Option<Seq<char>>, Seq<char>);

pub open spec fn error_view(e: ValidationError) -> ErrorView {
    (e.cst_file@, e.frag_idx, e.cst_code@, opt_view(e.actual_cst_sutta), e.expected_cst_sutta@)
}

pub open spec fn errors_view(v: Seq<ValidationError>) -> Seq<ErrorView> {
    v.map_values(|e: ValidationError| error_view(e))
}

/// The new row keeps a right title: it has a CST code and a title, and the
/// title is the reference one of the old code when the code is unchanged, or
/// that of the new code when the reference knows it.
pub open spec fn stays_right(
    refs: spec_fn(Seq<char>) -> Option<Seq<char>>,
    old_code: Seq<char>,
    expected: Seq<char>,
    n: RowView,
) -> bool {
    match (n.2[0], n.2[2]) {
        (Some(nc), Some(ns)) => if nc == old_code {
            ns == expected
        } else {
            match refs(nc) {
                Some(nr) => ns == nr,
                None => true,
            }
        },
        _ => false,
    }
}

/// The regression in going from old row `o` to new row `n`: the old row had a
/// CST code that the reference knows and the reference title, and the new row
/// does not stay right.
pub open spec fn regression(
    refs: spec_fn(Seq<char>) -> Option<Seq<char>>,
    o: RowView,
    n: RowView,
) -> Option<ErrorView> {
    match o.2[0] {
        Some(oc) => match refs(oc) {
            Some(expected) => if o.2[2] == Some(expected) && !stays_right(refs, oc, expected, n) {
                Some((n.0, n.1, oc, n.2[2], expected))
            } else {
                None
            },
            None => None,
        },
        None => None,
    }
}

/// The number of new rows that differ from the old export.
pub open spec fn diff_count(old: Seq<RowView>, new: Seq<RowView>) -> nat
    decreases new.len(),
{
    if new.len() == 0 {
        0
    } else {
        diff_count(old, new.drop_last()) + if row_differs(old, new.last()) {
            1nat
        } else {
            0nat
        }
    }
}

/// The regressions among the differing rows, in the order of the new export.
pub open spec fn regressions(
    refs: spec_fn(Seq<char>) -> Option<Seq<char>>,
    old: Seq<RowView>,
    new: Seq<RowView>,
) -> Seq<ErrorView>
    decreases new.len(),
{
    if new.len() == 0 {
        Seq::empty()
    } else {
        let n = new.last();
        let before = regressions(refs, old, new.drop_last());
        if row_differs(old, n) && regression(refs, old_row_for(old, n.0, n.1)->0, n) is Some {
            before.push(regression(refs, old_row_for(old, n.0, n.1)->0, n)->0)
        } else {
            before
        }
    }
}

/// The result of comparing the rows `new` with the rows `old`.
pub open spec fn diff_result(
    refs: spec_fn(Seq<char>) -> Option<Seq<char>>,
    old: Seq<RowView>,
    new: Seq<RowView>,
    r: DiffCheckResult,
) -> bool {
    &&& r.total_rows == new.len()
    &&& r.differing_rows == diff_count(old, new)
    &&& errors_view(r.validation_errors@) == regressions(refs, old, new)
}

/// The reference lookup of a map from CST code to CST sutta title.
pub open spec fn map_lookup(m: StringMap<String>) -> spec_fn(Seq<char>) -> Option<Seq<char>> {
    |k: Seq<char>| opt_view(m.spec_get(k))
}

/// The reference lookup of the mapping records (see `reference_of`).
pub open spec fn records_lookup(recs: Seq<Seq<Seq<char>>>) -> spec_fn(Seq<char>) -> Option<
    Seq<char>,
> {
    |k: Seq<char>| reference_of(recs, k)
}

fn opt_eq(a: &Option<String>, b: &Option<String>) -> (r: bool)
    ensures
        r == (opt_view(*a) == opt_view(*b)),
{
    match (a, b) {
        (Some(x), Some(y)) => str_eq(x.as_str(), y.as_str()),
        (None, None) => true,
        _ => false,
    }
}

fn rows_equal(a: &FragmentTsvRow, b: &FragmentTsvRow) -> (r: bool)
    ensures
        r == (row_view(*a) == row_view(*b)),
{
    let r = str_eq(a.cst_file.as_str(), b.cst_file.as_str()) && a.frag_idx == b.frag_idx && opt_eq(
        &a.cst_code,
        &b.cst_code,
    ) && opt_eq(&a.cst_vagga, &b.cst_vagga) && opt_eq(&a.cst_sutta, &b.cst_sutta) && opt_eq(
        &a.sc_code,
        &b.sc_code,
    ) && opt_eq(&a.sc_sutta, &b.sc_sutta);
    proof {
        if !r && row_view(*a) == row_view(*b) {
            assert(row_view(*a).2[0] == row_view(*b).2[0]);
            assert(row_view(*a).2[1] == row_view(*b).2[1]);
            assert(row_view(*a).2[2] == row_view(*b).2[2]);
            assert(row_view(*a).2[3] == row_view(*b).2[3]);
            assert(row_view(*a).2[4] == row_view(*b).2[4]);
        }
        if r {
            assert(row_view(*a).2 =~= row_view(*b).2);
        }
    }
    r
}

fn find_old_row(old: &Vec<FragmentTsvRow>, file: &str, idx: i32) -> (r: Option<usize>)
    ensures
        match r {
            Some(i) => i < old@.len() && old_row_for(rows_of(old@), file@, idx) == Some(
                row_view(old@[i as int]),
            ),
            None => old_row_for(rows_of(old@), file@, idx) is None,
        },
{
    let ghost ov = rows_of(old@);
    let n = old.len();
    let mut i = n;
    assert(ov.take(n as int) =~= ov);
    while i > 0
        invariant
            i <= n == old@.len() == ov.len(),
            ov == rows_of(old@),
            old_row_for(ov, file@, idx) == old_row_for(ov.take(i as int), file@, idx),
        decreases i,
    {
        let row = &old[i - 1];
        assert(ov.take(i as int).drop_last() =~= ov.take(i - 1));
        assert(ov.take(i as int).last() == row_view(*row));
        if str_eq(row.cst_file.as_str(), file) && row.frag_idx == idx {
            return Some(i - 1);
        }
        i = i - 1;
    }
    None
}

fn lookup_ref(refs: &StringMap<String>, code: &String) -> (r: Option<String>)
    ensures
        opt_view(r) == map_lookup(*refs)(code@),
{
    match refs.get(code.as_str()) {
        Some(s) => Some(s.clone()),
        None => None,
    }
}

fn regression_of(refs: &StringMap<String>, o: &FragmentTsvRow, n: &FragmentTsvRow) -> (r: Option<
    ValidationError,
>)
    ensures
        match r {
            Some(e) => regression(map_lookup(*refs), row_view(*o), row_view(*n)) == Some(
                error_view(e),
            ),
            None => regression(map_lookup(*refs), row_view(*o), row_view(*n)) is None,
        },
{
    let ghost lk = map_lookup(*refs);
    let old_code = match &o.cst_code {
        Some(c) => c,
        None => return None,
    };
    let expected = match lookup_ref(refs, old_code) {
        Some(e) => e,
        None => return None,
    };
    let old_right = match &o.cst_sutta {
        Some(s) => str_eq(s.as_str(), expected.as_str()),
        None => false,
    };
    if !old_right {
        return None;
    }
    let new_right = match (&n.cst_code, &n.cst_sutta) {
        (Some(nc), Some(ns)) => if str_eq(nc.as_str(), old_code.as_str()) {
            str_eq(ns.as_str(), expected.as_str())
        } else {
            match lookup_ref(refs, nc) {
                Some(nr) => str_eq(ns.as_str(), nr.as_str()),
                None => true,
            }
        },
        _ => false,
    };
    assert(new_right == stays_right(lk, old_code@, expected@, row_view(*n)));
    if new_right {
        None
    } else {
        Some(
            ValidationError {
                cst_file: n.cst_file.clone(),
                frag_idx: n.frag_idx,
                cst_code: old_code.clone(),
                actual_cst_sutta: crate::types::clone_opt_string(&n.cst_sutta),
                expected_cst_sutta: expected,
            },
        )
    }
}

/// Compares the rows of a new export with those of an old one: counts the new
/// rows, those that differ from the old row with their file and index, and
/// lists the regressions among them (see `regression`).
pub fn check_rows(
    refs: &StringMap<String>,
    old: &Vec<FragmentTsvRow>,
    new: &Vec<FragmentTsvRow>,
) -> (r: DiffCheckResult)
    ensures
        diff_result(map_lookup(*refs), rows_of(old@), rows_of(new@), r),
{
    let ghost lk = map_lookup(*refs);
    let ghost ov = rows_of(old@);
    let ghost nv = rows_of(new@);
    let mut differing: usize = 0;
    let mut errors: Vec<ValidationError> = Vec::new();
    let mut i: usize = 0;
    while i < new.len()
        invariant
            i <= new@.len() == nv.len(),
            lk == map_lookup(*refs),
            ov == rows_of(old@),
            nv == rows_of(new@),
            differing == diff_count(ov, nv.take(i as int)),
            differing <= i,
            errors_view(errors@) == regressions(lk, ov, nv.take(i as int)),
        decreases new@.len() - i,
    {
        let n = &new[i];
        assert(nv.take(i + 1).drop_last() =~= nv.take(i as int));
        assert(nv.take(i + 1).last() == row_view(*n));
        match find_old_row(old, n.cst_file.as_str(), n.frag_idx) {
            Some(j) => {
                let o = &old[j];
                if !rows_equal(n, o) {
                    differing = differing + 1;
                    match regression_of(refs, o, n) {
                        Some(e) => {
                            let ghost before = errors@;
                            errors.push(e);
                            assert(errors_view(errors@) =~= errors_view(before).push(error_view(e)));
                        },
                        None => {},
                    }
                }
            },
            None => {},
        }
        i = i + 1;
    }
    assert(nv.take(nv.len() as int) =~= nv);
    DiffCheckResult { total_rows: new.len(), differing_rows: differing, validation_errors: errors }
}

/// Checks that the differences of a new export from an old one are
/// improvements, against the CST sutta titles of the mapping text: reads the
/// references and both exports, then compares the rows (see `check_rows`).
pub fn check_tsv_improvements(reference_tsv: &str, old_tsv: &str, new_tsv: &str) -> (r: Result<
    DiffCheckResult,
    ParserError,
>)
    ensures
        match r {
            Ok(res) => {
                &&& tsv_table_spec(reference_tsv@) matches Some(rt)
                &&& mapping_records_spec(rt.0, rt.1) matches Some(recs)
                &&& tsv_table_spec(old_tsv@) matches Some(ot)
                &&& rows_from_table(ot.0, ot.1) matches Some(ov)
                &&& tsv_table_spec(new_tsv@) matches Some(nt)
                &&& rows_from_table(nt.0, nt.1) matches Some(nv)
                &&& diff_result(records_lookup(recs), ov, nv, res)
            },
            Err(e) => e is GeneralError && {
                ||| !(tsv_table_spec(reference_tsv@) matches Some(rt) && mapping_records_spec(
                    rt.0,
                    rt.1,
                ) is Some)
                ||| !(tsv_table_spec(old_tsv@) matches Some(ot) && rows_from_table(ot.0, ot.1) is Some)
                ||| !(tsv_table_spec(new_tsv@) matches Some(nt) && rows_from_table(nt.0, nt.1) is Some)
            },
        },
{
    let refs = match load_cst_sc_references(reference_tsv) {
        Ok(m) => m,
        Err(e) => return Err(e),
    };
    let old_rows = match parse_tsv_rows(old_tsv) {
        Ok(v) => v,
        Err(e) => return Err(e),
    };
    let new_rows = match parse_tsv_rows(new_tsv) {
        Ok(v) => v,
        Err(e) => return Err(e),
    };
    let res = check_rows(&refs, &old_rows, &new_rows);
    proof {
        let rt = tsv_table_spec(reference_tsv@)->0;
        let recs = mapping_records_spec(rt.0, rt.1)->0;
        assert(map_lookup(refs) =~= records_lookup(recs));
    }
    Ok(res)
}

/// A row whose CST code changed is held to the reference title of its new
/// code: when the old row had a CST code the reference knows and its
/// reference title, and the new row of the same file and index has another
/// CST code that the reference knows but not its title, the comparison
/// counts the row and reports it, with the old code and title expected.
pub proof fn law_changed_code_checked_against_reference(
    refs: spec_fn(Seq<char>) -> Option<Seq<char>>,
    old: Seq<RowView>,
    new: Seq<RowView>,
    n: RowView,
    old_code: Seq<char>,
    expected: Seq<char>,
    new_code: Seq<char>,
    new_ref: Seq<char>,
)
    requires
        old_row_for(old, n.0, n.1) matches Some(o) && o.2[0] == Some(old_code) && o.2[2] == Some(
            expected,
        ),
        refs(old_code) == Some(expected),
        n.2[0] == Some(new_code),
        new_code != old_code,
        refs(new_code) == Some(new_ref),
        n.2[2] != Some(new_ref),
    ensures
        diff_count(old, new.push(n)) == diff_count(old, new) + 1,
        regressions(refs, old, new.push(n)) == regressions(refs, old, new).push(
            (n.0, n.1, old_code, n.2[2], expected),
        ),
{
    let o = old_row_for(old, n.0, n.1)->0;
    assert(o.2[0] != n.2[0]);
    assert(o != n);
    assert(new.push(n).drop_last() =~= new);
    assert(new.push(n).last() == n);
    assert(!stays_right(refs, old_code, expected, n));
}

/// No two rows share their file and index.
pub open spec fn keys_unique(rows: Seq<RowView>) -> bool {
    forall|i: int, j: int|
        0 <= i < j < rows.len() ==> !(#[trigger] rows[i].0 == #[trigger] rows[j].0 && rows[i].1
            == rows[j].1)
}

proof fn lemma_own_row_found(rows: Seq<RowView>, k: int)
    requires
        keys_unique(rows),
        0 <= k < rows.len(),
    ensures
        old_row_for(rows, rows[k].0, rows[k].1) == Some(rows[k]),
    decreases rows.len(),
{
    if k < rows.len() - 1 {
        assert(!(rows[k].0 == rows.last().0 && rows[k].1 == rows.last().1));
        assert(keys_unique(rows.drop_last()));
        assert(rows.drop_last()[k] == rows[k]);
        lemma_own_row_found(rows.drop_last(), k);
    }
}

/// An export compared with itself has no differing row and no regression,
/// when no two of its rows share their file and index.
pub proof fn law_unchanged_export_has_no_differences(
    refs: spec_fn(Seq<char>) -> Option<Seq<char>>,
    rows: Seq<RowView>,
)
    requires
        keys_unique(rows),
    ensures
        diff_count(rows, rows) == 0,
        regressions(refs, rows, rows) == Seq::<ErrorView>::empty(),
{
    lemma_no_differences_prefix(refs, rows, rows.len() as int);
    assert(rows.take(rows.len() as int) =~= rows);
}

proof fn lemma_no_differences_prefix(
    refs: spec_fn(Seq<char>) -> Option<Seq<char>>,
    rows: Seq<RowView>,
    k: int,
)
    requires
        keys_unique(rows),
        0 <= k <= rows.len(),
    ensures
        diff_count(rows, rows.take(k)) == 0,
        regressions(refs, rows, rows.take(k)) == Seq::<ErrorView>::empty(),
    decreases k,
{
    if k > 0 {
        lemma_no_differences_prefix(refs, rows, k - 1);
        assert(rows.take(k).drop_last() =~= rows.take(k - 1));
        lemma_own_row_found(rows, k - 1);
        assert(!row_differs(rows, rows.take(k).last()));
    }
}

} // verus!
