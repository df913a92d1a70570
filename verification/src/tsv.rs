//! The CST to SC mapping: its records read from tab-separated text, the map
//! from CST code to SC code and title, and the reference CST sutta titles.

use vstd::prelude::*;
use vstd::string::*;
use crate::text::{opt_view, str_eq};
use crate::types::{ParserError, StringMap};

verus! {

/// What the csv crate reads from a tab-separated text with a header line:
/// the header fields and the fields of each record, or `None` on a read error
/// (records of unequal length, for one).
pub uninterp spec fn tsv_table_spec(text: Seq<char>) -> Option<
    (Seq<Seq<char>>, Seq<Seq<Seq<char>>>),
>;

/// The views of a list of strings.
pub open spec fn strings_view(v: Seq<String>) -> Seq<Seq<char>> {
    v.map_values(|s: String| s@)
}

/// The views of the records of a table.
pub open spec fn rows_view(v: Seq<Vec<String>>) -> Seq<Seq<Seq<char>>> {
    v.map_values(|r: Vec<String>| strings_view(r@))
}

/// The views of a table.
pub open spec fn table_view(t: (Vec<String>, Vec<Vec<String>>)) -> (Seq<Seq<char>>, Seq<Seq<Seq<char>>>) {
    (strings_view(t.0@), rows_view(t.1@))
}

/// `csv::ReaderBuilder` with a tab delimiter: the headers and the records.
#[verifier::external_body]
pub(crate) fn read_tsv_table(text: &str) -> (r: Option<(Vec<String>, Vec<Vec<String>>)>)
    ensures
        match r {
            Some(t) => tsv_table_spec(text@) == Some(table_view(t)),
            None => tsv_table_spec(text@) is None,
        },
{
    let mut rdr = csv::ReaderBuilder::new().delimiter(b'\t').from_reader(text.as_bytes());
    let headers: Vec<String> = rdr.headers().ok()?.iter().map(|h| h.to_string()).collect();
    let rows: Result<Vec<Vec<String>>, csv::Error> = rdr.records().map(
        |r| r.map(|rec| rec.iter().map(|f| f.to_string()).collect()),
    ).collect();
    Some((headers, rows.ok()?))
}

/// Index of the first header named `name`.
pub open spec fn column_of(headers: Seq<Seq<char>>, name: Seq<char>) -> Option<int>
    decreases headers.len(),
{
    if headers.len() == 0 {
        None
    } else if headers[0] == name {
        Some(0)
    } else {
        match column_of(headers.drop_first(), name) {
            Some(i) => Some(i + 1),
            None => None,
        }
    }
}

proof fn lemma_column_of_bounds(headers: Seq<Seq<char>>, name: Seq<char>)
    ensures
        column_of(headers, name) matches Some(i) ==> 0 <= i < headers.len(),
    decreases headers.len(),
{
    if headers.len() > 0 && headers[0] != name {
        lemma_column_of_bounds(headers.drop_first(), name);
    }
}

pub(crate) fn find_column(headers: &Vec<String>, name: &str) -> (r: Option<usize>)
    ensures
        match r {
            Some(i) => i < headers@.len() && column_of(
                strings_view(headers@),
                name@,
            ) == Some(i as int),
            None => column_of(strings_view(headers@), name@) is None,
        },
{
    let ghost hv = strings_view(headers@);
    let n = headers.len();
    let mut i: usize = 0;
    assert(hv.subrange(0, n as int) =~= hv);
    while i < n
        invariant
            i <= n == headers@.len() == hv.len(),
            hv == strings_view(headers@),
            column_of(hv, name@) == match column_of(hv.subrange(i as int, n as int), name@) {
                Some(j) => Some(j + i),
                None => None,
            },
        decreases n - i,
    {
        let ghost rest = hv.subrange(i as int, n as int);
        assert(rest.drop_first() =~= hv.subrange(i + 1, n as int));
        assert(rest[0] == headers@[i as int]@);
        if str_eq(headers[i].as_str(), name) {
            return Some(i);
        }
        i = i + 1;
    }
    None
}

/// A record of the CST to SC mapping (columns `cst_file`, `cst_code`,
/// `cst_vagga`, `cst_sutta`, `cst_paranum`, `code`, `sutta`).
#[derive(Debug, Clone)]
pub struct TsvRecord {
    pub tsv_cst_file: String,
    pub tsv_cst_code: String,
    pub tsv_cst_vagga: String,
    pub tsv_cst_sutta: String,
    pub tsv_cst_paranum: String,
    pub tsv_sc_code: String,
    pub tsv_sc_sutta: String,
}

/// The column names of a mapping record, in field order.
pub open spec fn mapping_columns() -> Seq<Seq<char>> {
    seq!["cst_file"@, "cst_code"@, "cst_vagga"@, "cst_sutta"@, "cst_paranum"@, "code"@, "sutta"@]
}

/// The field of a record in the column named `name` (none when there is no
/// such column, or the record is too short).
pub open spec fn field_of(headers: Seq<Seq<char>>, row: Seq<Seq<char>>, name: Seq<char>) -> Option<
    Seq<char>,
> {
    match column_of(headers, name) {
        Some(i) => if i < row.len() {
            Some(row[i])
        } else {
            None
        },
        None => None,
    }
}

/// The view of a mapping record: its fields in order.
pub open spec fn record_view(r: TsvRecord) -> Seq<Seq<char>> {
    seq![
        r.tsv_cst_file@,
        r.tsv_cst_code@,
        r.tsv_cst_vagga@,
        r.tsv_cst_sutta@,
        r.tsv_cst_paranum@,
        r.tsv_sc_code@,
        r.tsv_sc_sutta@,
    ]
}

/// The views of mapping records.
pub open spec fn records_view(v: Seq<TsvRecord>) -> Seq<Seq<Seq<char>>> {
    v.map_values(|x: TsvRecord| record_view(x))
}

/// The mapping records of a table: each record's fields by column name;
/// `None` when a column is missing or a record lacks a field.
pub open spec fn mapping_records_spec(headers: Seq<Seq<char>>, rows: Seq<Seq<Seq<char>>>) -> Option<
    Seq<Seq<Seq<char>>>,
> {
    if forall|r: int, c: int|
        0 <= r < rows.len() && 0 <= c < 7 ==> #[trigger] field_of(
            headers,
            rows[r],
            mapping_columns()[c],
        ) is Some {
        Some(
            Seq::new(
                rows.len(),
                |r: int| Seq::new(7, |c: int| field_of(headers, rows[r], mapping_columns()[c])->0),
            ),
        )
    } else {
        None
    }
}

fn field_at(row: &Vec<String>, col: Option<usize>) -> (r: Option<String>)
    ensures
        match col {
            Some(i) => if i < row@.len() {
                r matches Some(s) && s@ == row@[i as int]@
            } else {
                r is None
            },
            None => r is None,
        },
{
    match col {
        Some(i) => if i < row.len() {
            Some(row[i].clone())
        } else {
            None
        },
        None => None,
    }
}

fn column_name(c: usize) -> (r: &'static str)
    requires
        c < 7,
    ensures
        r@ == mapping_columns()[c as int],
{
    if c == 0 {
        "cst_file"
    } else if c == 1 {
        "cst_code"
    } else if c == 2 {
        "cst_vagga"
    } else if c == 3 {
        "cst_sutta"
    } else if c == 4 {
        "cst_paranum"
    } else if c == 5 {
        "code"
    } else {
        "sutta"
    }
}

/// The mapping records of a table (see `mapping_records_spec`).
pub fn mapping_records_from_table(headers: &Vec<String>, rows: &Vec<Vec<String>>) -> (r: Result<
    Vec<TsvRecord>,
    ParserError,
>)
    ensures
        match r {
            Ok(recs) => mapping_records_spec(
                strings_view(headers@),
                rows_view(rows@),
            ) == Some(records_view(recs@)),
            Err(e) => e is GeneralError && mapping_records_spec(
                strings_view(headers@),
                rows_view(rows@),
            ) is None,
        },
{
    let ghost hv = strings_view(headers@);
    let ghost rv = rows_view(rows@);
    let mut cols: Vec<Option<usize>> = Vec::new();
    let mut c: usize = 0;
    while c < 7
        invariant
            c <= 7,
            cols@.len() == c,
            hv == strings_view(headers@),
            forall|k: int| 0 <= k < c ==> match #[trigger] cols@[k] {
                Some(i) => i < headers@.len() && column_of(hv, mapping_columns()[k]) == Some(i as int),
                None => column_of(hv, mapping_columns()[k]) is None,
            },
        decreases 7 - c,
    {
        let name = column_name(c);
        cols.push(find_column(headers, name));
        c = c + 1;
    }
    let mut out: Vec<TsvRecord> = Vec::new();
    let mut r: usize = 0;
    while r < rows.len()
        invariant
            r <= rows@.len() == rv.len(),
            cols@.len() == 7,
            hv == strings_view(headers@),
            rv == rows_view(rows@),
            forall|k: int| 0 <= k < 7 ==> match #[trigger] cols@[k] {
                Some(i) => i < headers@.len() && column_of(hv, mapping_columns()[k]) == Some(i as int),
                None => column_of(hv, mapping_columns()[k]) is None,
            },
            out@.len() == r,
            forall|q: int, k: int|
                0 <= q < r && 0 <= k < 7 ==> #[trigger] field_of(hv, rv[q], mapping_columns()[k]) is Some,
            forall|q: int|
                0 <= q < r ==> #[trigger] record_view(out@[q]) == Seq::new(
                    7,
                    |k: int| field_of(hv, rv[q], mapping_columns()[k])->0,
                ),
        decreases rows@.len() - r,
    {
        let row = &rows[r];
        assert(rv[r as int] == strings_view(row@));
        let mut fields: Vec<String> = Vec::new();
        let mut k: usize = 0;
        while k < 7
            invariant
                k <= 7,
                cols@.len() == 7,
                hv == strings_view(headers@),
                rv == rows_view(rows@),
                r < rv.len(),
                rv[r as int] == strings_view(row@),
                forall|j: int| 0 <= j < 7 ==> match #[trigger] cols@[j] {
                    Some(i) => i < headers@.len() && column_of(hv, mapping_columns()[j]) == Some(
                        i as int,
                    ),
                    None => column_of(hv, mapping_columns()[j]) is None,
                },
                fields@.len() == k,
                forall|j: int|
                    0 <= j < k ==> field_of(hv, rv[r as int], mapping_columns()[j]) == Some(
                        #[trigger] fields@[j]@,
                    ),
            decreases 7 - k,
        {
            match field_at(row, cols[k]) {
                Some(f) => {
                    fields.push(f);
                },
                None => {
                    proof {
                        let q = r as int;
                        let kk = k as int;
                        assert(field_of(hv, rv[q], mapping_columns()[kk]) is None);
                        assert(!(forall|a: int, b: int|
                            0 <= a < rv.len() && 0 <= b < 7 ==> #[trigger] field_of(
                                hv,
                                rv[a],
                                mapping_columns()[b],
                            ) is Some));
                        assert(mapping_records_spec(hv, rv) is None);
                    }
                    return Err(
                        ParserError::GeneralError {
                            message: String::from_str("Failed to deserialize TSV records"),
                        },
                    );
                },
            }
            k = k + 1;
        }
        let rec = TsvRecord {
            tsv_cst_file: fields[0].clone(),
            tsv_cst_code: fields[1].clone(),
            tsv_cst_vagga: fields[2].clone(),
            tsv_cst_sutta: fields[3].clone(),
            tsv_cst_paranum: fields[4].clone(),
            tsv_sc_code: fields[5].clone(),
            tsv_sc_sutta: fields[6].clone(),
        };
        assert(record_view(rec) =~= Seq::new(
            7,
            |k: int| field_of(hv, rv[r as int], mapping_columns()[k])->0,
        ));
        out.push(rec);
        r = r + 1;
    }
    proof {
        let want = Seq::new(
            rv.len(),
            |q: int| Seq::new(7, |k: int| field_of(hv, rv[q], mapping_columns()[k])->0),
        );
        assert(records_view(out@) =~= want);
    }
    Ok(out)
}

/// The mapping records of a tab-separated text: those of the table the csv
/// crate reads from it (see `mapping_records_spec`).
pub fn load_tsv_mapping(tsv_text: &str) -> (r: Result<Vec<TsvRecord>, ParserError>)
    ensures
        match r {
            Ok(recs) => tsv_table_spec(tsv_text@) matches Some(t) && mapping_records_spec(t.0, t.1)
                == Some(records_view(recs@)),
            Err(e) => e is GeneralError && match tsv_table_spec(tsv_text@) {
                Some(t) => mapping_records_spec(t.0, t.1) is None,
                None => true,
            },
        },
{
    match read_tsv_table(tsv_text) {
        Some((headers, rows)) => mapping_records_from_table(&headers, &rows),
        None => Err(
            ParserError::GeneralError {
                message: String::from_str("Failed to deserialize TSV records"),
            },
        ),
    }
}


/// The SC code and title the mapping records give a CST code: those of the
/// last record with that (non-empty) CST code and a non-empty SC code.
pub open spec fn sc_mapping_of(recs: Seq<Seq<Seq<char>>>, code: Seq<char>) -> Option<
    (Seq<char>, Seq<char>),
>
    decreases recs.len(),
{
    if recs.len() == 0 {
        None
    } else {
        let r = recs.last();
        if r[1].len() > 0 && r[5].len() > 0 && r[1] == code {
            Some((r[5], r[6]))
        } else {
            sc_mapping_of(recs.drop_last(), code)
        }
    }
}

/// The views of the values of a map to pairs of strings.
pub open spec fn pair_map_get(m: StringMap<(String, String)>, k: Seq<char>) -> Option<(Seq<char>, Seq<char>)> {
    match m.spec_get(k) {
        Some(p) => Some((p.0@, p.1@)),
        None => None,
    }
}

/// The map from CST code to `(sc_code, sc_sutta)` of mapping records (see `sc_mapping_of`).
pub fn sc_map_from_records(records: &Vec<TsvRecord>) -> (r: StringMap<(String, String)>)
    ensures
        forall|k: Seq<char>|
            #![trigger r.spec_get(k)]
            pair_map_get(r, k) == sc_mapping_of(records_view(records@), k),
{
    let mut m: StringMap<(String, String)> = StringMap::new();
    let mut i: usize = 0;
    while i < records.len()
        invariant
            i <= records@.len(),
            forall|k: Seq<char>|
                #![trigger m.spec_get(k)]
                pair_map_get(m, k) == sc_mapping_of(records_view(records@.take(i as int)), k),
        decreases records@.len() - i,
    {
        let rec = &records[i];
        let ghost pre = records_view(records@.take(i as int));
        assert(records_view(records@.take(i + 1)) =~= pre.push(record_view(*rec)));
        assert(records_view(records@.take(i + 1)).drop_last() =~= pre);
        if !rec.tsv_cst_code.as_str().is_empty() && !rec.tsv_sc_code.as_str().is_empty() {
            m.insert(rec.tsv_cst_code.clone(), (rec.tsv_sc_code.clone(), rec.tsv_sc_sutta.clone()));
        }
        i = i + 1;
    }
    assert(records@.take(records@.len() as int) =~= records@);
    m
}

/// The map from CST code to `(sc_code, sc_sutta)` of a mapping text.
pub fn cst_code_to_sc_code_map(tsv_text: &str) -> (r: Result<StringMap<(String, String)>, ParserError>)
    ensures
        match r {
            Ok(m) => tsv_table_spec(tsv_text@) matches Some(t) && mapping_records_spec(t.0, t.1)
                matches Some(recs) && forall|k: Seq<char>|
                #![trigger m.spec_get(k)]
                pair_map_get(m, k) == sc_mapping_of(recs, k),
            Err(e) => e is GeneralError && match tsv_table_spec(tsv_text@) {
                Some(t) => mapping_records_spec(t.0, t.1) is None,
                None => true,
            },
        },
{
    match load_tsv_mapping(tsv_text) {
        Ok(records) => Ok(sc_map_from_records(&records)),
        Err(e) => Err(e),
    }
}

/// The CST sutta title the mapping records give a CST code: that of the last
/// record with that (non-empty) CST code.
pub open spec fn reference_of(recs: Seq<Seq<Seq<char>>>, code: Seq<char>) -> Option<Seq<char>>
    decreases recs.len(),
{
    if recs.len() == 0 {
        None
    } else {
        let r = recs.last();
        if r[1].len() > 0 && r[1] == code {
            Some(r[3])
        } else {
            reference_of(recs.drop_last(), code)
        }
    }
}

/// The map from CST code to CST sutta title of a mapping text (see `reference_of`).
pub fn load_cst_sc_references(tsv_text: &str) -> (r: Result<StringMap<String>, ParserError>)
    ensures
        match r {
            Ok(m) => tsv_table_spec(tsv_text@) matches Some(t) && mapping_records_spec(t.0, t.1)
                matches Some(recs) && forall|k: Seq<char>|
                #![trigger m.spec_get(k)]
                opt_view(m.spec_get(k)) == reference_of(recs, k),
            Err(e) => e is GeneralError && match tsv_table_spec(tsv_text@) {
                Some(t) => mapping_records_spec(t.0, t.1) is None,
                None => true,
            },
        },
{
    let records = match load_tsv_mapping(tsv_text) {
        Ok(r) => r,
        Err(e) => return Err(e),
    };
    let mut m: StringMap<String> = StringMap::new();
    let mut i: usize = 0;
    while i < records.len()
        invariant
            i <= records@.len(),
            forall|k: Seq<char>|
                #![trigger m.spec_get(k)]
                opt_view(m.spec_get(k)) == reference_of(records_view(records@.take(i as int)), k),
        decreases records@.len() - i,
    {
        let rec = &records[i];
        let ghost pre = records_view(records@.take(i as int));
        assert(records_view(records@.take(i + 1)) =~= pre.push(record_view(*rec)));
        assert(records_view(records@.take(i + 1)).drop_last() =~= pre);
        if !rec.tsv_cst_code.as_str().is_empty() {
            m.insert(rec.tsv_cst_code.clone(), rec.tsv_cst_sutta.clone());
        }
        i = i + 1;
    }
    assert(records@.take(records@.len() as int) =~= records@);
    Ok(m)
}

/// The text of an optional title, empty for none.
pub fn consistent_niggahita(text: Option<String>) -> (r: String)
    ensures
        r@ == match text {
            Some(t) => t@,
            None => Seq::<char>::empty(),
        },
{
    match text {
        Some(t) => t,
        None => String::new(),
    }
}

} // verus!
