//! Finding the SuttaCentral code of a sutta in the CST to SC mapping, by its
//! file, title and vagga.

use vstd::prelude::*;
use vstd::string::*;
use crate::sc::{first_index_of, take_range};
use crate::text::{
    chars_match_at, chars_vec, ends_with, occurs_at, seq_contains, starts_with, str_eq,
    trim_bounds, trim_spec, chars_contain,
};
use crate::cst::opt_str_view;
use crate::text::opt_view;
use crate::tsv::{record_view, records_view, strings_view, TsvRecord};

verus! {

/// `str::trim_start_matches`: `p` removed from the front as often as it occurs there.
pub open spec fn strip_prefix_all(s: Seq<char>, p: Seq<char>) -> Seq<char>
    decreases s.len(),
{
    if p.len() > 0 && starts_with(s, p) {
        strip_prefix_all(s.skip(p.len() as int), p)
    } else {
        s
    }
}

/// `str::trim_end_matches`: `p` removed from the end as often as it occurs there.
pub open spec fn strip_suffix_all(s: Seq<char>, p: Seq<char>) -> Seq<char>
    decreases s.len(),
{
    if p.len() > 0 && ends_with(s, p) {
        strip_suffix_all(s.take(s.len() - p.len()), p)
    } else {
        s
    }
}

/// `str::replace`: each occurrence of `from`, left to right and not
/// overlapping, replaced by `to`.
pub open spec fn replace_all(s: Seq<char>, from: Seq<char>, to: Seq<char>) -> Seq<char>
    decreases s.len(),
{
    if s.len() == 0 {
        s
    } else if from.len() > 0 && starts_with(s, from) {
        to + replace_all(s.skip(from.len() as int), from, to)
    } else {
        seq![s[0]] + replace_all(s.skip(1), from, to)
    }
}

/// A file name without its leading `romn/` and `mula/` directories.
pub open spec fn normalized_file(f: Seq<char>) -> Seq<char> {
    strip_prefix_all(strip_prefix_all(f, "romn/"@), "mula/"@)
}

/// The root text file of a file: a commentary's `a.att.xml` or a
/// sub-commentary's `t.tik.xml` becomes `m.mul.xml`.
pub open spec fn base_file(f: Seq<char>, is_commentary: bool) -> Seq<char> {
    let n = normalized_file(f);
    if is_commentary && ends_with(n, ".att.xml"@) {
        replace_all(n, "a.att.xml"@, "m.mul.xml"@)
    } else if is_commentary && ends_with(n, ".tik.xml"@) {
        replace_all(n, "t.tik.xml"@, "m.mul.xml"@)
    } else {
        n
    }
}

/// What `char::to_lowercase` gives for a character (full Unicode mapping).
pub uninterp spec fn char_lowercase(c: char) -> Seq<char>;

/// `char::to_lowercase`, collected into a string.
#[verifier::external_body]
fn lowercase_of_char(c: char) -> (r: String)
    ensures
        r@ == char_lowercase(c),
{
    c.to_lowercase().collect()
}

/// `str::split_once('.')`: the text before the first dot and the text after it.
pub open spec fn split_at_dot(s: Seq<char>) -> Option<(Seq<char>, Seq<char>)> {
    match first_index_of(s, '.') {
        Some(k) => Some((s.take(k), s.skip(k + 1))),
        None => None,
    }
}

/// The titles a sutta may have in the mapping. For a commentary title ending
/// in "vaṇṇanā", the base title without that ending, with and without a final
/// "ṃ" (with "sutta" added when the base does not end in it); for the
/// Vanapatthapariyāya sutta also "Vanapatthasutta(ṃ)" with the number; and the
/// "Mahā" form of a numbered base ending in "sutta" (its first letter in lower
/// case). Otherwise the title itself.
pub open spec fn title_candidates(title: Seq<char>, is_commentary: bool) -> Seq<Seq<char>> {
    if is_commentary && ends_with(title, "vaṇṇanā"@) {
        let base = strip_suffix_all(title, "vaṇṇanā"@);
        let plain = if ends_with(base, "sutta"@) {
            seq![base, base + "ṃ"@]
        } else {
            seq![base + "sutta"@, base + "suttaṃ"@]
        };
        let vanapattha = if seq_contains(base, "Vanapatthapariyāyasutta"@) {
            match split_at_dot(base) {
                Some(parts) => seq![
                    parts.0 + ". Vanapatthasutta"@,
                    parts.0 + ". Vanapatthasuttaṃ"@,
                ],
                None => seq!["Vanapatthasutta"@, "Vanapatthasuttaṃ"@],
            }
        } else {
            Seq::empty()
        };
        let maha = match split_at_dot(base) {
            Some(parts) => {
                let part = trim_spec(parts.1);
                if ends_with(part, "sutta"@) {
                    let name = "Mahā"@ + char_lowercase(part[0]) + part.skip(1);
                    seq![parts.0 + ". "@ + name, parts.0 + ". "@ + name + "ṃ"@]
                } else {
                    Seq::empty()
                }
            },
            None => Seq::empty(),
        };
        plain + vanapattha + maha
    } else {
        seq![title]
    }
}

/// What a search looks for: the root file, the candidate titles, the vagga
/// if given, and the codes already used.
pub type SearchView = (Seq<char>, Seq<Seq<char>>, Option<Seq<char>>, Seq<Seq<char>>);

/// A mapping record (see `record_view`) of the searched file whose title is a
/// candidate.
pub open spec fn title_matches(rec: Seq<Seq<char>>, q: SearchView) -> bool {
    normalized_file(rec[0]) == q.0 && q.1.contains(rec[3])
}

/// A record that answers the search: the title matches, the vagga too when
/// one is given, and its SC code is not used yet.
pub open spec fn exact_match(rec: Seq<Seq<char>>, q: SearchView) -> bool {
    &&& title_matches(rec, q)
    &&& match q.2 {
        Some(v) => rec[2] == v,
        None => true,
    }
    &&& !q.3.contains(rec[5])
}

/// A record that answers the search when none matches exactly: the title
/// matches and, when a vagga is given, the vagga differs and the code is
/// not used yet.
pub open spec fn fallback_match(rec: Seq<Seq<char>>, q: SearchView) -> bool {
    &&& title_matches(rec, q)
    &&& match q.2 {
        Some(v) => rec[2] != v && !q.3.contains(rec[5]),
        None => true,
    }
}

/// The index of the first record that matches the search exactly (`exact`)
/// or as a fallback.
pub open spec fn first_match(recs: Seq<Seq<Seq<char>>>, q: SearchView, exact: bool) -> Option<int>
    decreases recs.len(),
{
    if recs.len() == 0 {
        None
    } else {
        match first_match(recs.drop_last(), q, exact) {
            Some(i) => Some(i),
            None => if (exact && exact_match(recs.last(), q)) || (!exact && fallback_match(
                recs.last(),
                q,
            )) {
                Some(recs.len() - 1)
            } else {
                None
            },
        }
    }
}

/// The SC code found: that of the first exact match, else that of the first
/// fallback match.
pub open spec fn found_code(recs: Seq<Seq<Seq<char>>>, q: SearchView) -> Option<Seq<char>> {
    match first_match(recs, q, true) {
        Some(i) => Some(recs[i][5]),
        None => match first_match(recs, q, false) {
            Some(j) => Some(recs[j][5]),
            None => None,
        },
    }
}

/// The search of a sutta with the given file, title and vagga.
pub open spec fn search_of(
    cst_file: Seq<char>,
    title: Seq<char>,
    vagga: Option<Seq<char>>,
    is_commentary: bool,
    used: Seq<Seq<char>>,
) -> SearchView {
    (base_file(cst_file, is_commentary), title_candidates(title, is_commentary), vagga, used)
}

fn concat(a: &Vec<char>, b: &Vec<char>) -> (r: Vec<char>)
    ensures
        r@ == a@ + b@,
{
    let mut r = a.clone();
    let mut i: usize = 0;
    while i < b.len()
        invariant
            i <= b@.len(),
            r@ == a@ + b@.take(i as int),
        decreases b@.len() - i,
    {
        r.push(b[i]);
        assert(b@.take(i + 1) =~= b@.take(i as int).push(b@[i as int]));
        i = i + 1;
    }
    assert(b@.take(b@.len() as int) =~= b@);
    r
}

fn concat_str(a: &Vec<char>, b: &str) -> (r: Vec<char>)
    ensures
        r@ == a@ + b@,
{
    concat(a, &chars_vec(b))
}

proof fn lemma_starts_with_skip(s: Seq<char>, p: Seq<char>, i: int)
    requires
        0 <= i <= s.len(),
    ensures
        starts_with(s.skip(i), p) == occurs_at(s, p, i),
{
    if i + p.len() <= s.len() {
        assert(s.skip(i).subrange(0, p.len() as int) =~= s.subrange(i, i + p.len()));
    }
}

fn strip_prefix_all_exec(v: &Vec<char>, p: &str) -> (r: Vec<char>)
    ensures
        r@ == strip_prefix_all(v@, p@),
{
    let pv = chars_vec(p);
    let n = v.len();
    let mut a: usize = 0;
    assert(v@.skip(0) =~= v@);
    while pv.len() > 0 && pv.len() <= n - a && chars_match_at(v.as_slice(), pv.as_slice(), a)
        invariant
            a <= n == v@.len(),
            pv@ == p@,
            strip_prefix_all(v@, p@) == strip_prefix_all(v@.skip(a as int), p@),
        decreases n - a,
    {
        proof {
            lemma_starts_with_skip(v@, p@, a as int);
            assert(v@.skip(a as int).skip(p@.len() as int) =~= v@.skip(a + p@.len()));
        }
        a = a + pv.len();
    }
    proof {
        lemma_starts_with_skip(v@, p@, a as int);
    }
    take_range(v, a, n)
}

fn strip_suffix_all_exec(v: &Vec<char>, p: &str) -> (r: Vec<char>)
    ensures
        r@ == strip_suffix_all(v@, p@),
{
    let pv = chars_vec(p);
    let mut b: usize = v.len();
    assert(v@.take(b as int) =~= v@);
    while pv.len() > 0 && pv.len() <= b && chars_match_at(v.as_slice(), pv.as_slice(), b - pv.len())
        invariant
            b <= v@.len(),
            pv@ == p@,
            strip_suffix_all(v@, p@) == strip_suffix_all(v@.take(b as int), p@),
        decreases b,
    {
        proof {
            let t = v@.take(b as int);
            assert(t.subrange(t.len() - p@.len(), t.len() as int) =~= v@.subrange(
                b - p@.len(),
                b as int,
            ));
            assert(t.take(t.len() - p@.len()) =~= v@.take(b - p@.len()));
        }
        b = b - pv.len();
    }
    proof {
        let t = v@.take(b as int);
        if pv@.len() > 0 && pv@.len() <= b {
            assert(t.subrange(t.len() - p@.len(), t.len() as int) =~= v@.subrange(
                b - p@.len(),
                b as int,
            ));
        }
    }
    take_range(v, 0, b)
}

fn replace_all_exec(v: &Vec<char>, from: &str, to: &str) -> (r: Vec<char>)
    ensures
        r@ == replace_all(v@, from@, to@),
{
    let fv = chars_vec(from);
    let tv = chars_vec(to);
    let n = v.len();
    let mut out: Vec<char> = Vec::new();
    let mut i: usize = 0;
    assert(v@.skip(0) =~= v@);
    while i < n
        invariant
            i <= n == v@.len(),
            fv@ == from@,
            tv@ == to@,
            replace_all(v@, from@, to@) == out@ + replace_all(v@.skip(i as int), from@, to@),
        decreases n - i,
    {
        let ghost rest = v@.skip(i as int);
        proof {
            lemma_starts_with_skip(v@, from@, i as int);
        }
        if fv.len() > 0 && fv.len() <= n - i && chars_match_at(v.as_slice(), fv.as_slice(), i) {
            assert(rest.skip(from@.len() as int) =~= v@.skip(i + from@.len()));
            let ghost before = out@;
            out = concat(&out, &tv);
            assert(before + (to@ + replace_all(v@.skip(i + from@.len()), from@, to@)) =~= out@
                + replace_all(v@.skip(i + from@.len()), from@, to@));
            i = i + fv.len();
        } else {
            assert(rest.skip(1) =~= v@.skip(i + 1));
            let ghost before = out@;
            out.push(v[i]);
            assert(before + (seq![rest[0]] + replace_all(v@.skip(i + 1), from@, to@)) =~= out@
                + replace_all(v@.skip(i + 1), from@, to@));
            i = i + 1;
        }
    }
    assert(v@.skip(n as int).len() == 0);
    assert(out@ + v@.skip(n as int) =~= out@);
    out
}

fn chars_end_with(v: &Vec<char>, suffix: &str) -> (r: bool)
    ensures
        r == ends_with(v@, suffix@),
{
    let sv = chars_vec(suffix);
    if sv.len() > v.len() {
        return false;
    }
    let r = chars_match_at(v.as_slice(), sv.as_slice(), v.len() - sv.len());
    r
}

fn base_file_exec(cst_file: &str, is_commentary: bool) -> (r: Vec<char>)
    ensures
        r@ == base_file(cst_file@, is_commentary),
{
    let f = chars_vec(cst_file);
    let a = strip_prefix_all_exec(&f, "romn/");
    let n = strip_prefix_all_exec(&a, "mula/");
    if is_commentary && chars_end_with(&n, ".att.xml") {
        replace_all_exec(&n, "a.att.xml", "m.mul.xml")
    } else if is_commentary && chars_end_with(&n, ".tik.xml") {
        replace_all_exec(&n, "t.tik.xml", "m.mul.xml")
    } else {
        n
    }
}

fn find_dot(v: &Vec<char>) -> (r: Option<usize>)
    ensures
        match r {
            Some(k) => first_index_of(v@, '.') == Some(k as int) && k < v@.len(),
            None => first_index_of(v@, '.') is None,
        },
{
    let n = v.len();
    let mut i: usize = 0;
    assert(v@.skip(0) =~= v@);
    while i < n
        invariant
            i <= n == v@.len(),
            first_index_of(v@, '.') == match first_index_of(v@.skip(i as int), '.') {
                Some(k) => Some(k + i),
                None => None,
            },
        decreases n - i,
    {
        assert(v@.skip(i as int).drop_first() =~= v@.skip(i + 1));
        if v[i] == '.' {
            return Some(i);
        }
        i = i + 1;
    }
    None
}

fn title_candidates_exec(title: &str, is_commentary: bool) -> (r: Vec<Vec<char>>)
    ensures
        r@.map_values(|c: Vec<char>| c@) == title_candidates(title@, is_commentary),
{
    let t = chars_vec(title);
    if !(is_commentary && chars_end_with(&t, "vaṇṇanā")) {
        let r = vec![t];
        assert(r@.map_values(|c: Vec<char>| c@) =~= seq![title@]);
        return r;
    }
    let base = strip_suffix_all_exec(&t, "vaṇṇanā");
    let mut out: Vec<Vec<char>> = Vec::new();
    if chars_end_with(&base, "sutta") {
        out.push(base.clone());
        out.push(concat_str(&base, "ṃ"));
    } else {
        out.push(concat_str(&base, "sutta"));
        out.push(concat_str(&base, "suttaṃ"));
    }
    let ghost plain = out@.map_values(|c: Vec<char>| c@);
    let dot = find_dot(&base);
    let vp = chars_vec("Vanapatthapariyāyasutta");
    let mut vanapattha: Vec<Vec<char>> = Vec::new();
    if chars_contain(base.as_slice(), vp.as_slice()) {
        match dot {
            Some(k) => {
                let num = take_range(&base, 0, k);
                vanapattha.push(concat_str(&num, ". Vanapatthasutta"));
                vanapattha.push(concat_str(&num, ". Vanapatthasuttaṃ"));
            },
            None => {
                vanapattha.push(chars_vec("Vanapatthasutta"));
                vanapattha.push(chars_vec("Vanapatthasuttaṃ"));
            },
        }
    }
    let mut maha: Vec<Vec<char>> = Vec::new();
    match dot {
        Some(k) => {
            let num = take_range(&base, 0, k);
            let after = take_range(&base, k + 1, base.len());
            assert(after@ =~= base@.skip(k + 1));
            assert(num@ =~= base@.take(k as int));
            let (a, b) = trim_bounds(&after);
            let part = take_range(&after, a, b);
            if chars_end_with(&part, "sutta") {
                proof {
                    reveal_strlit("sutta");
                }
                let first = lowercase_of_char(part[0]);
                let rest = take_range(&part, 1, part.len());
                assert(rest@ =~= part@.skip(1));
                let name = concat(&concat(&chars_vec("Mahā"), &chars_vec(first.as_str())), &rest);
                let head = concat_str(&num, ". ");
                let c1 = concat(&head, &name);
                let c2 = concat_str(&c1, "ṃ");
                maha.push(c1);
                maha.push(c2);
            }
        },
        None => {},
    }
    let ghost vpv = vanapattha@.map_values(|c: Vec<char>| c@);
    let ghost mv = maha@.map_values(|c: Vec<char>| c@);
    let mut all = out;
    let mut i: usize = 0;
    while i < vanapattha.len()
        invariant
            i <= vanapattha@.len(),
            vpv == vanapattha@.map_values(|c: Vec<char>| c@),
            all@.map_values(|c: Vec<char>| c@) == plain + vpv.take(i as int),
        decreases vanapattha@.len() - i,
    {
        let ghost before = all@;
        all.push(vanapattha[i].clone());
        assert(all@.map_values(|c: Vec<char>| c@) =~= before.map_values(|c: Vec<char>| c@).push(
            vanapattha@[i as int]@,
        ));
        assert(vpv.take(i + 1) =~= vpv.take(i as int).push(vpv[i as int]));
        assert(plain + vpv.take(i + 1) =~= (plain + vpv.take(i as int)).push(vpv[i as int]));
        i = i + 1;
    }
    assert(vpv.take(vpv.len() as int) =~= vpv);
    let mut j: usize = 0;
    while j < maha.len()
        invariant
            j <= maha@.len(),
            mv == maha@.map_values(|c: Vec<char>| c@),
            all@.map_values(|c: Vec<char>| c@) == plain + vpv + mv.take(j as int),
        decreases maha@.len() - j,
    {
        let ghost before = all@;
        all.push(maha[j].clone());
        assert(all@.map_values(|c: Vec<char>| c@) =~= before.map_values(|c: Vec<char>| c@).push(
            maha@[j as int]@,
        ));
        assert(mv.take(j + 1) =~= mv.take(j as int).push(mv[j as int]));
        assert(plain + vpv + mv.take(j + 1) =~= (plain + vpv + mv.take(j as int)).push(
            mv[j as int],
        ));
        j = j + 1;
    }
    assert(mv.take(mv.len() as int) =~= mv);
    assert(all@.map_values(|c: Vec<char>| c@) =~= title_candidates(title@, is_commentary));
    all
}

proof fn lemma_first_match_prefix(s: Seq<Seq<Seq<char>>>, k: int, q: SearchView, exact: bool)
    requires
        0 <= k <= s.len(),
        first_match(s.take(k), q, exact) is Some,
    ensures
        first_match(s, q, exact) == first_match(s.take(k), q, exact),
    decreases s.len(),
{
    if k == s.len() {
        assert(s.take(k) =~= s);
    } else {
        assert(s.drop_last().take(k) =~= s.take(k));
        lemma_first_match_prefix(s.drop_last(), k, q, exact);
    }
}

fn chars_eq(a: &Vec<char>, b: &Vec<char>) -> (r: bool)
    ensures
        r == (a@ == b@),
{
    if a.len() != b.len() {
        return false;
    }
    let r = chars_match_at(a.as_slice(), b.as_slice(), 0);
    assert(a@.subrange(0, b@.len() as int) =~= a@);
    r
}

fn contains_chars(cands: &Vec<Vec<char>>, t: &Vec<char>) -> (r: bool)
    ensures
        r == cands@.map_values(|c: Vec<char>| c@).contains(t@),
{
    let ghost cv = cands@.map_values(|c: Vec<char>| c@);
    let mut i: usize = 0;
    while i < cands.len()
        invariant
            i <= cands@.len() == cv.len(),
            cv == cands@.map_values(|c: Vec<char>| c@),
            forall|k: int| 0 <= k < i ==> cv[k] != t@,
        decreases cands@.len() - i,
    {
        if chars_eq(&cands[i], t) {
            assert(cv[i as int] == t@);
            return true;
        }
        i = i + 1;
    }
    false
}

fn contains_code(used: &Vec<String>, code: &String) -> (r: bool)
    ensures
        r == strings_view(used@).contains(code@),
{
    let ghost uv = strings_view(used@);
    let mut i: usize = 0;
    while i < used.len()
        invariant
            i <= used@.len() == uv.len(),
            uv == strings_view(used@),
            forall|k: int| 0 <= k < i ==> uv[k] != code@,
        decreases used@.len() - i,
    {
        if str_eq(used[i].as_str(), code.as_str()) {
            assert(uv[i as int] == code@);
            return true;
        }
        i = i + 1;
    }
    false
}

/// Finds the SC code of a sutta in the mapping records: the first record of
/// the sutta's root file whose title is one of the sutta's candidate titles
/// (see `title_candidates`), whose vagga is the given one (when given) and
/// whose code is not used yet; failing that, the first such record of
/// another vagga with an unused code (when a vagga is given) or with any code
/// (when none is).
pub fn find_code_for_sutta(
    tsv_records: &Vec<TsvRecord>,
    cst_file: &str,
    sutta_title: &str,
    vagga_title: Option<&str>,
    is_commentary: bool,
    used_codes: &Vec<String>,
) -> (r: Option<String>)
    ensures
        opt_view(r) == found_code(
            records_view(tsv_records@),
            search_of(
                cst_file@,
                sutta_title@,
                opt_str_view(vagga_title),
                is_commentary,
                strings_view(used_codes@),
            ),
        ),
{
    let ghost recs = records_view(tsv_records@);
    let ghost q = search_of(
        cst_file@,
        sutta_title@,
        opt_str_view(vagga_title),
        is_commentary,
        strings_view(used_codes@),
    );
    let base = base_file_exec(cst_file, is_commentary);
    let cands = title_candidates_exec(sutta_title, is_commentary);
    let vagga: Option<Vec<char>> = match vagga_title {
        Some(v) => Some(chars_vec(v)),
        None => None,
    };
    let mut fallback: Option<usize> = None;
    let mut i: usize = 0;
    while i < tsv_records.len()
        invariant
            i <= tsv_records@.len() == recs.len(),
            recs == records_view(tsv_records@),
            q == search_of(
                cst_file@,
                sutta_title@,
                opt_str_view(vagga_title),
                is_commentary,
                strings_view(used_codes@),
            ),
            base@ == q.0,
            cands@.map_values(|c: Vec<char>| c@) == q.1,
            match vagga {
                Some(v) => q.2 == Some(v@),
                None => q.2 is None,
            },
            first_match(recs.take(i as int), q, true) is None,
            match fallback {
                Some(j) => j < i && first_match(recs.take(i as int), q, false) == Some(j as int),
                None => first_match(recs.take(i as int), q, false) is None,
            },
        decreases tsv_records@.len() - i,
    {
        let rec = &tsv_records[i];
        let ghost rv = record_view(*rec);
        assert(recs.take(i + 1).drop_last() =~= recs.take(i as int));
        assert(recs.take(i + 1).last() == rv);
        let f0 = chars_vec(rec.tsv_cst_file.as_str());
        let f1 = strip_prefix_all_exec(&f0, "romn/");
        let f2 = strip_prefix_all_exec(&f1, "mula/");
        let title_ok = chars_eq(&f2, &base) && contains_chars(
            &cands,
            &chars_vec(rec.tsv_cst_sutta.as_str()),
        );
        assert(title_ok == title_matches(rv, q));
        if title_ok {
            let used = contains_code(used_codes, &rec.tsv_sc_code);
            let vagga_same = match &vagga {
                Some(v) => chars_eq(&chars_vec(rec.tsv_cst_vagga.as_str()), v),
                None => true,
            };
            if vagga_same && !used {
                assert(exact_match(rv, q));
                proof {
                    lemma_first_match_prefix(recs, i + 1, q, true);
                }
                return Some(rec.tsv_sc_code.clone());
            }
            assert(!exact_match(rv, q));
            let fb_ok = match &vagga {
                Some(_) => !vagga_same && !used,
                None => true,
            };
            assert(fb_ok == fallback_match(rv, q));
            if fallback.is_none() && fb_ok {
                fallback = Some(i);
            }
        }
        i = i + 1;
    }
    assert(recs.take(recs.len() as int) =~= recs);
    match fallback {
        Some(j) => {
            assert(record_view(tsv_records@[j as int]) == recs[j as int]);
            Some(tsv_records[j].tsv_sc_code.clone())
        },
        None => None,
    }
}

} // verus!
