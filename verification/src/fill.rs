//! Filling the SuttaCentral fields of fragments: from the CST to SC mapping,
//! from corrected fragments, and from the fragment before.

use vstd::prelude::*;
use vstd::string::*;
use crate::sc::{
    components_from_groups, components_view, convert_sc_code_to_range, convert_to_range_spec,
    derive_from_context_spec, derive_from_previous_spec, derive_sc_code_from_context,
    derive_sc_code_from_previous, find_in_titles_spec, find_sc_code_in_pali_titles,
    is_cst_code_range, is_range_code, lookup_range_cst_code, lookup_range_spec, pair_view,
    parse_sc_code, regex_captures_spec, sc_code_pattern, split_on,
};
use crate::text::opt_view;
use crate::types::{parse_failure, 
    ParserError, ParserOverrides,
    CorrectionFragmentOverride, CorrectionFragmentOverrides, ScCodeComponents,
    StringMap, XmlFragment,
};

verus! {

/// The fragment with new SC fields.
pub open spec fn with_sc(f: XmlFragment, sc_code: Option<String>, sc_sutta: Option<String>) -> XmlFragment {
    XmlFragment { sc_code, sc_sutta, ..f }
}

/// Two fragments that differ at most in their SC fields.
pub open spec fn same_but_sc(a: XmlFragment, b: XmlFragment) -> bool {
    b == with_sc(a, b.sc_code, b.sc_sutta)
}

/// The fragment with the SC fields `(code, title)` given as views.
pub open spec fn sc_set(f: XmlFragment, a: XmlFragment, code: Seq<char>, title: Seq<char>) -> bool {
    &&& same_but_sc(f, a)
    &&& a.sc_code matches Some(c) && c@ == code
    &&& a.sc_sutta matches Some(t) && t@ == title
}

fn set_sc(fragments: &mut Vec<XmlFragment>, i: usize, sc_code: Option<String>, sc_sutta: Option<String>)
    requires
        i < old(fragments)@.len(),
    ensures
        final(fragments)@ == old(fragments)@.update(
            i as int,
            with_sc(old(fragments)@[i as int], sc_code, sc_sutta),
        ),
{
    fragments[i].sc_code = sc_code;
    fragments[i].sc_sutta = sc_sutta;
}


/// The fragments differ at most in their SC fields.
pub open spec fn sc_only_changes(a: Seq<XmlFragment>, b: Seq<XmlFragment>) -> bool {
    &&& a.len() == b.len()
    &&& forall|i: int| 0 <= i < a.len() ==> same_but_sc(a[i], #[trigger] b[i])
}

/// Populating the SC fields from the mapping only changes SC fields.
pub proof fn lemma_conditional_only_sc(
    a: Seq<XmlFragment>,
    b: Seq<XmlFragment>,
    map: StringMap<(String, String)>,
)
    requires
        b.len() == a.len(),
        forall|i: int|
            0 <= i < a.len() ==> match mapped_sc_conditional(a[i], map) {
                Some((c, t)) => sc_set(a[i], #[trigger] b[i], c, t),
                None => b[i] == a[i],
            },
    ensures
        sc_only_changes(a, b),
{
    assert forall|i: int| 0 <= i < a.len() implies same_but_sc(a[i], #[trigger] b[i]) by {
        match mapped_sc_conditional(a[i], map) {
            Some((c, t)) => {},
            None => {
                assert(with_sc(a[i], a[i].sc_code, a[i].sc_sutta) == a[i]);
            },
        }
    }
}

/// Propagating SC codes from the fragment before only changes SC fields.
pub proof fn lemma_propagation_only_sc(
    a: Seq<XmlFragment>,
    b: Seq<XmlFragment>,
    titles: Option<StringMap<String>>,
    map: StringMap<(String, String)>,
)
    requires
        b.len() == a.len(),
        a.len() > 0 ==> b[0] == a[0],
        forall|i: int|
            0 < i < a.len() ==> match propagated_sc(b[i - 1].sc_code, a[i], titles, map) {
                Some((c, t)) => sc_set(a[i], #[trigger] b[i], c, t),
                None => b[i] == a[i],
            },
    ensures
        sc_only_changes(a, b),
{
    assert forall|i: int| 0 <= i < a.len() implies same_but_sc(a[i], #[trigger] b[i]) by {
        if i == 0 {
            assert(with_sc(a[i], a[i].sc_code, a[i].sc_sutta) == a[i]);
        } else {
            match propagated_sc(b[i - 1].sc_code, a[i], titles, map) {
                Some((c, t)) => {},
                None => {
                    assert(with_sc(a[i], a[i].sc_code, a[i].sc_sutta) == a[i]);
                },
            }
        }
    }
}

/// The SC fields the mapping gives a fragment: those of its CST code, when mapped.
pub open spec fn mapped_sc(f: XmlFragment, map: StringMap<(String, String)>) -> XmlFragment {
    match f.cst_code {
        Some(c) => match map.spec_get(c@) {
            Some(p) => with_sc(f, Some(p.0), Some(p.1)),
            None => f,
        },
        None => f,
    }
}

/// Sets the SC fields of every fragment whose CST code the mapping has.
pub fn populate_sc_fields_from_tsv(
    fragments: &mut Vec<XmlFragment>,
    tsv_map: &StringMap<(String, String)>,
)
    ensures
        final(fragments)@.len() == old(fragments)@.len(),
        forall|i: int|
            0 <= i < old(fragments)@.len() ==> #[trigger] final(fragments)@[i] == mapped_sc(
                old(fragments)@[i],
                *tsv_map,
            ),
{
    let ghost before = fragments@;
    let mut i: usize = 0;
    while i < fragments.len()
        invariant
            i <= fragments@.len() == before.len(),
            forall|j: int| 0 <= j < i ==> #[trigger] fragments@[j] == mapped_sc(before[j], *tsv_map),
            forall|j: int| i <= j < before.len() ==> #[trigger] fragments@[j] == before[j],
        decreases before.len() - i,
    {
        let found = match &fragments[i].cst_code {
            Some(c) => match tsv_map.get(c.as_str()) {
                Some(p) => Some((p.0.clone(), p.1.clone())),
                None => None,
            },
            None => None,
        };
        if let Some((sc, sutta)) = found {
            set_sc(fragments, i, Some(sc), Some(sutta));
        }
        i = i + 1;
    }
}

/// The SC fields the mapping gives a fragment without an SC code: those of its
/// CST code, or of its range (see `lookup_range_spec`); the SC code takes the
/// range of a CST range code (see `convert_to_range_spec`).
pub open spec fn mapped_sc_conditional(f: XmlFragment, map: StringMap<(String, String)>) -> Option<
    (Seq<char>, Seq<char>),
> {
    if f.sc_code is Some {
        None
    } else {
        match f.cst_code {
            Some(c) => {
                let found = match map.spec_get(c@) {
                    Some(p) => Some((p.0@, p.1@)),
                    None => lookup_range_spec(c@, map),
                };
                match found {
                    Some((sc, title)) => Some(
                        (
                            if is_range_code(c@) {
                                convert_to_range_spec(sc, c@)
                            } else {
                                sc
                            },
                            title,
                        ),
                    ),
                    None => None,
                }
            },
            None => None,
        }
    }
}

/// Filling the SC fields only where they are missing leaves a fragment that
/// has an SC code as it is.
pub proof fn law_conditional_fill_keeps_sc_codes(f: XmlFragment, map: StringMap<(String, String)>)
    requires
        f.sc_code is Some,
    ensures
        mapped_sc_conditional(f, map) is None,
{
}

/// Sets the SC fields of the fragments that have no SC code yet, from the mapping
/// (see `mapped_sc_conditional`).
pub fn populate_sc_fields_from_tsv_conditional(
    fragments: &mut Vec<XmlFragment>,
    tsv_map: &StringMap<(String, String)>,
)
    ensures
        final(fragments)@.len() == old(fragments)@.len(),
        forall|i: int|
            0 <= i < old(fragments)@.len() ==> match mapped_sc_conditional(
                old(fragments)@[i],
                *tsv_map,
            ) {
                Some((c, t)) => sc_set(old(fragments)@[i], #[trigger] final(fragments)@[i], c, t),
                None => final(fragments)@[i] == old(fragments)@[i],
            },
{
    let ghost before = fragments@;
    let mut i: usize = 0;
    while i < fragments.len()
        invariant
            i <= fragments@.len() == before.len(),
            forall|j: int|
                0 <= j < i ==> match mapped_sc_conditional(before[j], *tsv_map) {
                    Some((c, t)) => sc_set(before[j], #[trigger] fragments@[j], c, t),
                    None => fragments@[j] == before[j],
                },
            forall|j: int| i <= j < before.len() ==> #[trigger] fragments@[j] == before[j],
        decreases before.len() - i,
    {
        if fragments[i].sc_code.is_none() {
            let found = match &fragments[i].cst_code {
                Some(c) => {
                    let hit = match tsv_map.get(c.as_str()) {
                        Some(p) => Some((p.0.clone(), p.1.clone())),
                        None => lookup_range_cst_code(c.as_str(), tsv_map),
                    };
                    match hit {
                        Some((sc, title)) => {
                            let code = if is_cst_code_range(c.as_str()) {
                                convert_sc_code_to_range(sc.as_str(), c.as_str())
                            } else {
                                sc
                            };
                            Some((code, title))
                        },
                        None => None,
                    }
                },
                None => None,
            };
            if let Some((code, title)) = found {
                set_sc(fragments, i, Some(code), Some(title));
            }
        }
        i = i + 1;
    }
}

/// The SC fields derived for a fragment without an SC code from the SC code of
/// the fragment before it (see `derive_from_previous_spec`); the derived code
/// takes the range of a CST range code. With titles, a range code needs a title
/// for itself or its base, and any other code is looked up in the titles (see
/// `find_in_titles_spec`); without them, the mapping must have the CST code,
/// and gives the title.
pub open spec fn propagated_sc(
    prev_sc: Option<String>,
    f: XmlFragment,
    titles: Option<StringMap<String>>,
    map: StringMap<(String, String)>,
) -> Option<(Seq<char>, Seq<char>)> {
    match (f.sc_code, f.cst_code, prev_sc) {
        (None, Some(cst), Some(prev)) => match derive_from_previous_spec(cst@, prev@) {
            Some(derived) => {
                let is_range = is_range_code(cst@);
                let code = if is_range {
                    convert_to_range_spec(derived, cst@)
                } else {
                    derived
                };
                match titles {
                    Some(t) => if is_range {
                        match t.spec_get(code) {
                            Some(title) => Some((code, title@)),
                            None => match t.spec_get(split_on(code, '-')[0]) {
                                Some(title) => Some((code, title@)),
                                None => None,
                            },
                        }
                    } else {
                        find_in_titles_spec(code, t)
                    },
                    None => match map.spec_get(cst@) {
                        Some(p) => Some((code, p.1@)),
                        None => None,
                    },
                }
            },
            None => None,
        },
        _ => None,
    }
}

/// Gives the fragments after the first one without an SC code the SC fields
/// derived from the fragment before them, in order (see `propagated_sc`).
pub fn propagate_sc_codes_from_previous(
    fragments: &mut Vec<XmlFragment>,
    pali_titles: Option<&StringMap<String>>,
    tsv_map: &StringMap<(String, String)>,
)
    ensures
        final(fragments)@.len() == old(fragments)@.len(),
        old(fragments)@.len() > 0 ==> final(fragments)@[0] == old(fragments)@[0],
        forall|i: int|
            0 < i < old(fragments)@.len() ==> match propagated_sc(
                final(fragments)@[i - 1].sc_code,
                old(fragments)@[i],
                match pali_titles {
                    Some(t) => Some(*t),
                    None => None,
                },
                *tsv_map,
            ) {
                Some((c, t)) => sc_set(old(fragments)@[i], #[trigger] final(fragments)@[i], c, t),
                None => final(fragments)@[i] == old(fragments)@[i],
            },
{
    let ghost before = fragments@;
    let ghost titles = match pali_titles {
        Some(t) => Some(*t),
        None => None,
    };
    let n = fragments.len();
    if n == 0 {
        return ;
    }
    let mut i: usize = 1;
    while i < n
        invariant
            1 <= i <= n == fragments@.len() == before.len(),
            fragments@[0] == before[0],
            titles == match pali_titles {
                Some(t) => Some(*t),
                None => None,
            },
            forall|j: int|
                0 < j < i ==> match propagated_sc(fragments@[j - 1].sc_code, before[j], titles, *tsv_map) {
                    Some((c, t)) => sc_set(before[j], #[trigger] fragments@[j], c, t),
                    None => fragments@[j] == before[j],
                },
            forall|j: int| i <= j < n ==> #[trigger] fragments@[j] == before[j],
        decreases n - i,
    {
        let found = self_propagated(&fragments[i - 1].sc_code, &fragments[i], pali_titles, tsv_map);
        if let Some((code, title)) = found {
            set_sc(fragments, i, Some(code), Some(title));
        }
        i = i + 1;
    }
}

fn self_propagated(
    prev_sc: &Option<String>,
    f: &XmlFragment,
    pali_titles: Option<&StringMap<String>>,
    tsv_map: &StringMap<(String, String)>,
) -> (r: Option<(String, String)>)
    ensures
        pair_view(r) == propagated_sc(
            *prev_sc,
            *f,
            match pali_titles {
                Some(t) => Some(*t),
                None => None,
            },
            *tsv_map,
        ),
{
    if f.sc_code.is_some() {
        return None;
    }
    let cst = match &f.cst_code {
        Some(c) => c,
        None => return None,
    };
    let prev = match prev_sc {
        Some(p) => p,
        None => return None,
    };
    let derived = match derive_sc_code_from_previous(cst.as_str(), prev.as_str()) {
        Some(d) => d,
        None => return None,
    };
    let is_range = is_cst_code_range(cst.as_str());
    let code = if is_range {
        convert_sc_code_to_range(derived.as_str(), cst.as_str())
    } else {
        derived
    };
    match pali_titles {
        Some(t) => if is_range {
            match t.get(code.as_str()) {
                Some(title) => Some((code.clone(), title.clone())),
                None => {
                    let base = first_dash_part(code.as_str());
                    match t.get(base.as_str()) {
                        Some(title) => Some((code.clone(), title.clone())),
                        None => None,
                    }
                },
            }
        } else {
            find_sc_code_in_pali_titles(code.as_str(), t)
        },
        None => match tsv_map.get(cst.as_str()) {
            Some(p) => Some((code, p.1.clone())),
            None => None,
        },
    }
}

/// The part before the first dash (`split('-').next()`).
fn first_dash_part(s: &str) -> (r: String)
    ensures
        r@ == split_on(s@, '-')[0],
{
    let v = crate::text::chars_vec(s);
    let parts = crate::sc::split_ranges(&v, '-');
    proof {
        assert(split_on(v@, '-').len() >= 1) by {
            crate::sc::lemma_split_nonempty(v@, '-');
        }
        assert(split_on(v@, '-')[0] == v@.subrange(parts@[0].0 as int, parts@[0].1 as int));
    }
    let mut out = String::new();
    let mut k = parts[0].0;
    while k < parts[0].1
        invariant
            parts@.len() >= 1,
            parts@[0].0 <= k <= parts@[0].1 <= v@.len(),
            out@ == v@.subrange(parts@[0].0 as int, k as int),
        decreases parts@[0].1 - k,
    {
        crate::text::push_char(&mut out, v[k]);
        assert(v@.subrange(parts@[0].0 as int, k + 1) =~= v@.subrange(parts@[0].0 as int, k as int).push(
            v@[k as int],
        ));
        k = k + 1;
    }
    out
}


/// A fragment with the fields of its correction override applied: an SC code
/// that is not empty, an SC title, and the CST fields, review status and type
/// that the override has.
pub open spec fn overridden(f: XmlFragment, o: CorrectionFragmentOverride) -> XmlFragment {
    XmlFragment {
        sc_code: match o.sc_code {
            Some(c) => if c@.len() > 0 {
                Some(c)
            } else {
                f.sc_code
            },
            None => f.sc_code,
        },
        sc_sutta: if o.sc_sutta is Some {
            o.sc_sutta
        } else {
            f.sc_sutta
        },
        cst_code: if o.cst_code is Some {
            o.cst_code
        } else {
            f.cst_code
        },
        cst_vagga: if o.cst_vagga is Some {
            o.cst_vagga
        } else {
            f.cst_vagga
        },
        cst_sutta: if o.cst_sutta is Some {
            o.cst_sutta
        } else {
            f.cst_sutta
        },
        cst_paranum: if o.cst_paranum is Some {
            o.cst_paranum
        } else {
            f.cst_paranum
        },
        frag_review: if o.frag_review is Some {
            o.frag_review
        } else {
            f.frag_review
        },
        frag_type: match o.frag_type {
            Some(t) => t,
            None => f.frag_type,
        },
        ..f
    }
}

/// A fragment with its correction override applied, if it has one.
pub open spec fn with_override(f: XmlFragment, ovs: CorrectionFragmentOverrides, file: Seq<char>) -> XmlFragment {
    match ovs.spec_get(file, f.frag_idx) {
        Some(o) => overridden(f, o),
        None => f,
    }
}

/// The positions whose override has an SC code that parses, from `k` on, with
/// the components of that code.
pub open spec fn propagation_points(
    frags: Seq<XmlFragment>,
    ovs: CorrectionFragmentOverrides,
    file: Seq<char>,
    k: int,
) -> Seq<(int, (Seq<char>, Option<i32>, Option<i32>, Option<i32>))>
    decreases frags.len() - k,
{
    if k < 0 || k >= frags.len() {
        Seq::empty()
    } else {
        let rest = propagation_points(frags, ovs, file, k + 1);
        match ovs.spec_get(file, frags[k].frag_idx) {
            Some(o) => match o.sc_code {
                Some(c) => match components_from_groups(regex_captures_spec(sc_code_pattern(), c@)) {
                    Some(comps) => seq![(k, comps)] + rest,
                    None => rest,
                },
                None => rest,
            },
            None => rest,
        }
    }
}

/// The SC fields derived for a fragment from a context (see
/// `derive_from_context_spec`); the code takes the range of a CST range code.
/// With titles, the code and title are set when found in them (see
/// `find_in_titles_spec`); without them, the code alone is set.
pub open spec fn context_update(
    f: XmlFragment,
    comps: (Seq<char>, Option<i32>, Option<i32>, Option<i32>),
    titles: Option<StringMap<String>>,
) -> (bool, Option<Seq<char>>, Option<Seq<char>>) {
    match f.cst_code {
        Some(c) => match derive_from_context_spec(c@, comps) {
            Some(d) => {
                let code = if is_range_code(c@) {
                    convert_to_range_spec(d, c@)
                } else {
                    d
                };
                match titles {
                    Some(t) => match find_in_titles_spec(code, t) {
                        Some((found, title)) => (true, Some(found), Some(title)),
                        None => (false, None, None),
                    },
                    None => (true, Some(code), None),
                }
            },
            None => (false, None, None),
        },
        None => (false, None, None),
    }
}

/// The fragments are `a` with, at each position, the SC fields of `upd`.
pub open spec fn sc_updated(
    a: XmlFragment,
    b: XmlFragment,
    upd: (bool, Option<Seq<char>>, Option<Seq<char>>),
) -> bool {
    if !upd.0 {
        b == a
    } else {
        &&& same_but_sc(a, b)
        &&& opt_view(b.sc_code) == upd.1
        &&& (upd.2 is Some ==> opt_view(b.sc_sutta) == upd.2)
        &&& (upd.2 is None ==> b.sc_sutta == a.sc_sutta)
    }
}

/// Propagation from position `j` on: the fragments before the first one (from
/// `j` on) that has an SC code get the SC fields derived from the context; no
/// other fragment changes.
pub open spec fn propagation_ok(
    before: Seq<XmlFragment>,
    after: Seq<XmlFragment>,
    j: int,
    comps: (Seq<char>, Option<i32>, Option<i32>, Option<i32>),
    titles: Option<StringMap<String>>,
) -> bool {
    &&& after.len() == before.len()
    &&& exists|stop: int|
        {
            &&& j <= stop <= before.len()
            &&& forall|m: int| j <= m < stop ==> (#[trigger] before[m]).sc_code is None
            &&& stop < before.len() ==> before[stop].sc_code is Some
            &&& forall|m: int|
                0 <= m < before.len() && (m < j || m >= stop) ==> #[trigger] after[m] == before[m]
            &&& forall|m: int|
                j <= m < stop ==> sc_updated(
                    before[m],
                    #[trigger] after[m],
                    context_update(before[m], comps, titles),
                )
        }
}

/// The run of `apply_sc_overrides` through the list of fragment states: the
/// first applies each fragment's override, and each next one propagates from
/// one of the propagation points, in order.
pub open spec fn sc_overrides_run(
    before: Seq<XmlFragment>,
    states: Seq<Seq<XmlFragment>>,
    ovs: CorrectionFragmentOverrides,
    file: Seq<char>,
    titles: Option<StringMap<String>>,
) -> bool {
    let pts = propagation_points(before, ovs, file, 0);
    &&& states.len() == pts.len() + 1
    &&& states[0].len() == before.len()
    &&& forall|i: int|
        0 <= i < before.len() ==> #[trigger] states[0][i] == with_override(before[i], ovs, file)
    &&& forall|k: int|
        0 <= k < pts.len() ==> propagation_ok(
            #[trigger] states[k],
            states[k + 1],
            pts[k].0 + 1,
            pts[k].1,
            titles,
        )
}

fn apply_override_at(fragments: &mut Vec<XmlFragment>, i: usize, o: &CorrectionFragmentOverride)
    requires
        i < old(fragments)@.len(),
    ensures
        final(fragments)@ == old(fragments)@.update(i as int, overridden(old(fragments)@[i as int], *o)),
{
    if let Some(sc) = &o.sc_code {
        if !sc.as_str().is_empty() {
            fragments[i].sc_code = Some(sc.clone());
        }
    }
    if o.sc_sutta.is_some() {
        fragments[i].sc_sutta = crate::types::clone_opt_string(&o.sc_sutta);
    }
    if o.cst_code.is_some() {
        fragments[i].cst_code = crate::types::clone_opt_string(&o.cst_code);
    }
    if o.cst_vagga.is_some() {
        fragments[i].cst_vagga = crate::types::clone_opt_string(&o.cst_vagga);
    }
    if o.cst_sutta.is_some() {
        fragments[i].cst_sutta = crate::types::clone_opt_string(&o.cst_sutta);
    }
    if o.cst_paranum.is_some() {
        fragments[i].cst_paranum = crate::types::clone_opt_string(&o.cst_paranum);
    }
    if o.frag_review.is_some() {
        fragments[i].frag_review = crate::types::clone_opt_string(&o.frag_review);
    }
    if let Some(t) = o.frag_type {
        fragments[i].frag_type = t;
    }
}

fn context_update_exec(
    f: &XmlFragment,
    comps: &ScCodeComponents,
    titles: Option<&StringMap<String>>,
) -> (r: (bool, Option<String>, Option<String>))
    ensures
        (r.0, opt_view(r.1), opt_view(r.2)) == context_update(
            *f,
            components_view(*comps),
            match titles {
                Some(t) => Some(*t),
                None => None,
            },
        ),
{
    let c = match &f.cst_code {
        Some(c) => c,
        None => return (false, None, None),
    };
    let d = match derive_sc_code_from_context(c.as_str(), comps) {
        Some(d) => d,
        None => return (false, None, None),
    };
    let code = if is_cst_code_range(c.as_str()) {
        convert_sc_code_to_range(d.as_str(), c.as_str())
    } else {
        d
    };
    match titles {
        Some(t) => match find_sc_code_in_pali_titles(code.as_str(), t) {
            Some((found, title)) => (true, Some(found), Some(title)),
            None => (false, None, None),
        },
        None => (true, Some(code), None),
    }
}


/// Applies the correction overrides of a file to its fragments: each
/// fragment's override first, then, from each fragment whose override has an
/// SC code that parses, the SC fields of the following fragments are derived
/// from that code's context until a fragment with an SC code (see
/// `sc_overrides_run`).
pub fn apply_sc_overrides(
    fragments: &mut Vec<XmlFragment>,
    correction_overrides: &CorrectionFragmentOverrides,
    cst_file: &str,
    pali_titles: Option<&StringMap<String>>,
)
    ensures
        exists|states: Seq<Seq<XmlFragment>>|
            sc_overrides_run(
                old(fragments)@,
                states,
                *correction_overrides,
                cst_file@,
                match pali_titles {
                    Some(t) => Some(*t),
                    None => None,
                },
            ) && states.last() == final(fragments)@,
{
    let ghost before = fragments@;
    let ghost titles = match pali_titles {
        Some(t) => Some(*t),
        None => None,
    };
    let ghost pts = propagation_points(before, *correction_overrides, cst_file@, 0);
    let n = fragments.len();
    let mut points: Vec<(usize, ScCodeComponents)> = Vec::new();
    let mut i: usize = 0;
    while i < n
        invariant
            i <= n == fragments@.len() == before.len(),
            pts == propagation_points(before, *correction_overrides, cst_file@, 0),
            points@.map_values(
                |p: (usize, ScCodeComponents)| (p.0 as int, components_view(p.1)),
            ) + propagation_points(before, *correction_overrides, cst_file@, i as int) == pts,
            forall|k: int| 0 <= k < points@.len() ==> #[trigger] points@[k].0 < i,
            forall|j: int|
                0 <= j < i ==> #[trigger] fragments@[j] == with_override(
                    before[j],
                    *correction_overrides,
                    cst_file@,
                ),
            forall|j: int| i <= j < n ==> #[trigger] fragments@[j] == before[j],
        decreases n - i,
    {
        let ghost prev_points = points@;
        if let Some(o) = correction_overrides.get(cst_file, fragments[i].frag_idx) {
            if let Some(sc) = &o.sc_code {
                if let Some(c) = parse_sc_code(sc.as_str()) {
                    points.push((i, c));
                }
            }
            apply_override_at(fragments, i, o);
        }
        proof {
            let f = |p: (usize, ScCodeComponents)| (p.0 as int, components_view(p.1));
            let rest = propagation_points(before, *correction_overrides, cst_file@, i + 1);
            if points@.len() > prev_points.len() {
                assert(points@.map_values(f) =~= prev_points.map_values(f) + seq![
                    (i as int, components_view(points@.last().1)),
                ]);
            } else {
                assert(points@ == prev_points);
            }
        }
        i = i + 1;
    }
    let ghost mut states: Seq<Seq<XmlFragment>> = seq![fragments@];
    assert(points@.map_values(|p: (usize, ScCodeComponents)| (p.0 as int, components_view(p.1)))
        =~= pts);
    let mut k: usize = 0;
    while k < points.len()
        invariant
            k <= points@.len(),
            n == fragments@.len() == before.len(),
            pts == propagation_points(before, *correction_overrides, cst_file@, 0),
            points@.map_values(|p: (usize, ScCodeComponents)| (p.0 as int, components_view(p.1)))
                == pts,
            forall|q: int| 0 <= q < points@.len() ==> #[trigger] points@[q].0 < n,
            states.len() == k + 1,
            states[0].len() == before.len(),
            forall|j: int|
                0 <= j < before.len() ==> #[trigger] states[0][j] == with_override(
                    before[j],
                    *correction_overrides,
                    cst_file@,
                ),
            forall|q: int|
                0 <= q < k ==> propagation_ok(
                    #[trigger] states[q],
                    states[q + 1],
                    pts[q].0 + 1,
                    pts[q].1,
                    titles,
                ),
            states.last() == fragments@,
            titles == match pali_titles {
                Some(t) => Some(*t),
                None => None,
            },
        decreases points@.len() - k,
    {
        let p = points[k].0;
        let comps = &points[k].1;
        assert(pts[k as int] == (p as int, components_view(*comps)));
        let ghost start = fragments@;
        let mut j = p + 1;
        while j < n
            invariant
                titles == match pali_titles {
                    Some(t) => Some(*t),
                    None => None,
                },
                p + 1 <= j <= n == fragments@.len() == start.len(),
                forall|m: int| p + 1 <= m < j ==> (#[trigger] start[m]).sc_code is None,
                forall|m: int|
                    0 <= m < n && (m < p + 1 || m >= j) ==> #[trigger] fragments@[m] == start[m],
                forall|m: int|
                    p + 1 <= m < j ==> sc_updated(
                        start[m],
                        #[trigger] fragments@[m],
                        context_update(start[m], components_view(*comps), titles),
                    ),
            ensures
                p + 1 <= j <= n,
                j < n ==> start[j as int].sc_code is Some,
            decreases n - j,
        {
            if fragments[j].sc_code.is_some() {
                break;
            }
            let ghost cur = fragments@;
            let (ok, code, title) = context_update_exec(&fragments[j], comps, pali_titles);
            let ghost upd = context_update(start[j as int], components_view(*comps), titles);
            assert(cur[j as int] == start[j as int]);
            assert(upd == (ok, opt_view(code), opt_view(title)));
            if ok {
                let sutta = if title.is_some() {
                    title
                } else {
                    crate::types::clone_opt_string(&fragments[j].sc_sutta)
                };
                set_sc(fragments, j, code, sutta);
            }
            assert(sc_updated(start[j as int], fragments@[j as int], upd));
            assert forall|m: int| p + 1 <= m < j + 1 implies sc_updated(
                start[m],
                #[trigger] fragments@[m],
                context_update(start[m], components_view(*comps), titles),
            ) by {
                if m < j {
                    assert(fragments@[m] == cur[m]);
                }
            }
            j = j + 1;
        }
        proof {
            assert(propagation_ok(start, fragments@, p + 1, components_view(*comps), titles)) by {
                let stop = j as int;
                assert(stop < start.len() ==> start[stop].sc_code is Some);
            }
            states = states.push(fragments@);
        }
        k = k + 1;
    }
    assert(states.len() == pts.len() + 1);
}


/// Fills the SC fields of parsed fragments from the CST to SC mapping of the
/// overrides (see `populate_sc_fields_from_tsv_conditional`), and with
/// `propagate` from the fragment before (see `propagate_sc_codes_from_previous`).
/// Only SC fields change; without a mapping nothing changes and an error comes back.
pub fn fill_sc_fields(fragments: &mut Vec<XmlFragment>, overrides: &ParserOverrides, propagate: bool) -> (r:
    Result<(), ParserError>)
    ensures
        r matches Err(e) ==> parse_failure(e),
        sc_only_changes(old(fragments)@, final(fragments)@),
        r is Err <==> overrides.sc_code_map is None,
        r is Err ==> final(fragments)@ == old(fragments)@,
{
    let m = match &overrides.sc_code_map {
        Some(m) => m,
        None => {
            proof {
                assert forall|i: int| 0 <= i < fragments@.len() implies same_but_sc(
                    fragments@[i],
                    #[trigger] fragments@[i],
                ) by {
                    assert(with_sc(fragments@[i], fragments@[i].sc_code, fragments@[i].sc_sutta)
                        == fragments@[i]);
                }
            }
            return Err(
                ParserError::GeneralError {
                    message: String::from_str("The CST to SC code mapping is not available"),
                },
            );
        },
    };
    let ghost before = fragments@;
    populate_sc_fields_from_tsv_conditional(fragments, m);
    proof {
        lemma_conditional_only_sc(before, fragments@, *m);
    }
    if propagate {
        let ghost mid = fragments@;
        let titles = match &overrides.pali_titles {
            Some(t) => Some(t),
            None => None,
        };
        propagate_sc_codes_from_previous(fragments, titles, m);
        proof {
            lemma_propagation_only_sc(
                mid,
                fragments@,
                match titles {
                    Some(t) => Some(*t),
                    None => None,
                },
                *m,
            );
            assert forall|i: int| 0 <= i < before.len() implies same_but_sc(
                before[i],
                #[trigger] fragments@[i],
            ) by {
                assert(same_but_sc(before[i], mid[i]));
                assert(same_but_sc(mid[i], fragments@[i]));
            }
        }
    }
    Ok(())
}

} // verus!
