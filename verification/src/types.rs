//! Core data structures: fragments, group hierarchy levels, override data and
//! parser errors.

use vstd::prelude::*;
use vstd::string::*;
use crate::text::{str_eq, push_nat_decimal, nat_decimal};

verus! {

/// Type of XML fragment.
#[derive(Debug, Clone, Copy, PartialEq, Eq, Structural)]
pub enum FragmentType {
    /// Header fragment (metadata, not sutta content).
    Header,
    /// Sutta fragment (actual sutta text).
    Sutta,
}

/// Type of group in the hierarchy.
#[derive(Debug, Clone, Copy, PartialEq, Eq, Structural)]
pub enum GroupType {
    Nikaya,
    Book,
    Pannasaka,
    Vagga,
    Samyutta,
    Sutta,
}

/// A level in the group hierarchy.
#[derive(Debug, Clone)]
pub struct GroupLevel {
    pub group_type: GroupType,
    pub group_number: Option<i32>,
    pub title: String,
    pub id: Option<String>,
}

/// Copies an optional string.
pub fn clone_opt_string(s: &Option<String>) -> (r: Option<String>)
    ensures
        r == *s,
{
    match s {
        Some(x) => Some(x.clone()),
        None => None,
    }
}

impl GroupLevel {
    /// A copy of this level.
    pub fn duplicate(&self) -> (r: GroupLevel)
        ensures
            r == *self,
    {
        GroupLevel {
            group_type: self.group_type,
            group_number: self.group_number,
            title: self.title.clone(),
            id: clone_opt_string(&self.id),
        }
    }
}

/// A copy of a list of levels.
pub fn clone_levels(v: &Vec<GroupLevel>) -> (r: Vec<GroupLevel>)
    ensures
        r@ == v@,
{
    let mut out: Vec<GroupLevel> = Vec::new();
    let mut i: usize = 0;
    while i < v.len()
        invariant
            i <= v@.len(),
            out@ == v@.take(i as int),
        decreases v@.len() - i,
    {
        out.push(v[i].duplicate());
        assert(v@.take(i + 1) =~= v@.take(i as int).push(v@[i as int]));
        i = i + 1;
    }
    assert(v@.take(v@.len() as int) =~= v@);
    out
}

/// A fragment of XML with its metadata.
#[derive(Debug, Clone)]
pub struct XmlFragment {
    /// Nikaya name (e.g. "digha").
    pub nikaya: String,
    /// Source XML file name.
    pub cst_file: String,
    /// Index of this fragment in the list parsed from its file.
    pub frag_idx: usize,
    pub frag_type: FragmentType,
    /// Review status.
    pub frag_review: Option<String>,
    /// Raw XML content.
    pub content_xml: String,
    /// Start line (1-indexed).
    pub start_line: usize,
    /// Start byte within the start line (0-indexed).
    pub start_char: usize,
    /// End line (1-indexed).
    pub end_line: usize,
    /// End byte within the end line (0-indexed, exclusive).
    pub end_char: usize,
    pub cst_code: Option<String>,
    pub cst_vagga: Option<String>,
    pub cst_sutta: Option<String>,
    pub cst_paranum: Option<String>,
    pub sc_code: Option<String>,
    pub sc_sutta: Option<String>,
    /// Hierarchy levels when the fragment was created.
    pub group_levels: Vec<GroupLevel>,
}

impl XmlFragment {
    /// A copy of this fragment.
    pub fn clone_fragment(&self) -> (r: XmlFragment)
        ensures
            r.nikaya == self.nikaya,
            r.cst_file == self.cst_file,
            r.frag_idx == self.frag_idx,
            r.frag_type == self.frag_type,
            r.frag_review == self.frag_review,
            r.content_xml == self.content_xml,
            r.start_line == self.start_line,
            r.start_char == self.start_char,
            r.end_line == self.end_line,
            r.end_char == self.end_char,
            r.cst_code == self.cst_code,
            r.cst_vagga == self.cst_vagga,
            r.cst_sutta == self.cst_sutta,
            r.cst_paranum == self.cst_paranum,
            r.sc_code == self.sc_code,
            r.sc_sutta == self.sc_sutta,
            r.group_levels@ == self.group_levels@,
    {
        XmlFragment {
            nikaya: self.nikaya.clone(),
            cst_file: self.cst_file.clone(),
            frag_idx: self.frag_idx,
            frag_type: self.frag_type,
            frag_review: clone_opt_string(&self.frag_review),
            content_xml: self.content_xml.clone(),
            start_line: self.start_line,
            start_char: self.start_char,
            end_line: self.end_line,
            end_char: self.end_char,
            cst_code: clone_opt_string(&self.cst_code),
            cst_vagga: clone_opt_string(&self.cst_vagga),
            cst_sutta: clone_opt_string(&self.cst_sutta),
            cst_paranum: clone_opt_string(&self.cst_paranum),
            sc_code: clone_opt_string(&self.sc_code),
            sc_sutta: clone_opt_string(&self.sc_sutta),
            group_levels: clone_levels(&self.group_levels),
        }
    }
}

/// Key for looking up fragment adjustments and overrides.
#[derive(Debug, Clone, PartialEq, Eq, Hash)]
pub struct FragmentKey {
    pub cst_file: String,
    pub frag_idx: usize,
}

/// A boundary adjustment (legacy, TSV based).
#[derive(Debug, Clone)]
pub struct FragmentAdjustment {
    pub cst_file: String,
    pub frag_idx: usize,
    pub end_line: Option<usize>,
    pub end_char: Option<usize>,
}

/// Override data from a corrected fragment.
///
/// `collapse` makes the fragment zero-width; `end_line`/`end_char` override the
/// end boundary; the remaining fields override metadata after parsing.
#[derive(Debug, Clone)]
pub struct CorrectionFragmentOverride {
    pub collapse: bool,
    pub end_line: Option<usize>,
    pub end_char: Option<usize>,
    pub sc_code: Option<String>,
    pub sc_sutta: Option<String>,
    pub cst_code: Option<String>,
    pub cst_vagga: Option<String>,
    pub cst_sutta: Option<String>,
    pub cst_paranum: Option<String>,
    pub frag_review: Option<String>,
    pub frag_type: Option<FragmentType>,
}

/// The last entry of `entries` whose key is `(file, idx)`.
pub open spec fn fk_lookup<V>(entries: Seq<(FragmentKey, V)>, file: Seq<char>, idx: usize) -> Option<V>
    decreases entries.len(),
{
    if entries.len() == 0 {
        None
    } else if entries.last().0.cst_file@ == file && entries.last().0.frag_idx == idx {
        Some(entries.last().1)
    } else {
        fk_lookup(entries.drop_last(), file, idx)
    }
}

/// Replacing the value of the last entry with a key changes the value found
/// for that key and for no other.
proof fn lemma_fk_lookup_update<V>(entries: Seq<(FragmentKey, V)>, j: int, key: FragmentKey, value: V)
    requires
        0 <= j < entries.len(),
        entries[j].0.cst_file@ == key.cst_file@ && entries[j].0.frag_idx == key.frag_idx,
        forall|k: int|
            j < k < entries.len() ==> !(#[trigger] entries[k].0.cst_file@ == key.cst_file@
                && entries[k].0.frag_idx == key.frag_idx),
    ensures
        forall|f: Seq<char>, i: usize|
            #[trigger] fk_lookup(entries.update(j, (key, value)), f, i) == if f == key.cst_file@ && i
                == key.frag_idx {
                Some(value)
            } else {
                fk_lookup(entries, f, i)
            },
    decreases entries.len(),
{
    let after = entries.update(j, (key, value));
    if j < entries.len() - 1 {
        lemma_fk_lookup_update(entries.drop_last(), j, key, value);
        assert(after.drop_last() =~= entries.drop_last().update(j, (key, value)));
        assert(after.last() == entries.last());
        assert forall|f: Seq<char>, i: usize|
            #[trigger] fk_lookup(after, f, i) == if f == key.cst_file@ && i == key.frag_idx {
                Some(value)
            } else {
                fk_lookup(entries, f, i)
            } by {
            assert(fk_lookup(entries.drop_last().update(j, (key, value)), f, i) == if f
                == key.cst_file@ && i == key.frag_idx {
                Some(value)
            } else {
                fk_lookup(entries.drop_last(), f, i)
            });
        }
    } else {
        assert(after.drop_last() =~= entries.drop_last());
        assert forall|f: Seq<char>, i: usize|
            #[trigger] fk_lookup(after, f, i) == if f == key.cst_file@ && i == key.frag_idx {
                Some(value)
            } else {
                fk_lookup(entries, f, i)
            } by {
            assert(fk_lookup(after.drop_last(), f, i) == fk_lookup(entries.drop_last(), f, i));
        }
    }
}

/// A map keyed by `(cst_file, frag_idx)`.
#[derive(Debug)]
pub struct FragmentKeyMap<V> {
    entries: Vec<(FragmentKey, V)>,
}

/// The keys of some entries as `(file, idx)` pairs, in order.
pub open spec fn fk_keys<V>(entries: Seq<(FragmentKey, V)>) -> Seq<(Seq<char>, usize)> {
    entries.map_values(|e: (FragmentKey, V)| (e.0.cst_file@, e.0.frag_idx))
}

impl<V> FragmentKeyMap<V> {
    /// No key is stored twice.
    #[verifier::type_invariant]
    spec fn keys_unique(&self) -> bool {
        fk_keys(self.entries@).no_duplicates()
    }

    /// The stored keys, as `(file, idx)` pairs.
    pub closed spec fn spec_keys(&self) -> Set<(Seq<char>, usize)> {
        fk_keys(self.entries@).to_set()
    }

    /// The value stored for `(file, idx)`.
    pub closed spec fn spec_get(&self, file: Seq<char>, idx: usize) -> Option<V> {
        fk_lookup(self.entries@, file, idx)
    }

    /// An empty map.
    pub fn new() -> (r: Self)
        ensures
            forall|f: Seq<char>, i: usize| r.spec_get(f, i) is None,
            r.spec_len() == 0,
            r.spec_keys() == Set::<(Seq<char>, usize)>::empty(),
    {
        let r = FragmentKeyMap { entries: Vec::new() };
        assert(fk_keys(r.entries@).to_set() =~= Set::<(Seq<char>, usize)>::empty());
        r
    }

    /// The number of stored entries.
    pub closed spec fn spec_len(&self) -> nat {
        self.entries@.len()
    }

    /// Number of keys (each key is stored once: `insert` replaces the value
    /// of a key already present).
    pub fn len(&self) -> (r: usize)
        ensures
            r == self.spec_len(),
            r == self.spec_keys().len(),
    {
        proof {
            use_type_invariant(self);
            fk_keys(self.entries@).unique_seq_to_set();
        }
        self.entries.len()
    }

    /// Sets the value for `key`, replacing any earlier value.
    pub fn insert(&mut self, key: FragmentKey, value: V)
        ensures
            forall|f: Seq<char>, i: usize|
                #![trigger final(self).spec_get(f, i)]
                final(self).spec_get(f, i) == if f == key.cst_file@ && i == key.frag_idx {
                    Some(value)
                } else {
                    old(self).spec_get(f, i)
                },
            final(self).spec_keys() == old(self).spec_keys().insert((key.cst_file@, key.frag_idx)),
    {
        proof {
            use_type_invariant(&*self);
        }
        let mut entries: Vec<(FragmentKey, V)> = Vec::new();
        std::mem::swap(&mut entries, &mut self.entries);
        let n = entries.len();
        let mut j = n;
        while j > 0
            invariant
                j <= n == entries@.len(),
                entries@ == old(self).entries@,
                fk_keys(entries@).no_duplicates(),
                forall|k: int|
                    j <= k < n ==> !(#[trigger] entries@[k].0.cst_file@ == key.cst_file@
                        && entries@[k].0.frag_idx == key.frag_idx),
            decreases j,
        {
            if entries[j - 1].0.frag_idx == key.frag_idx && str_eq(
                entries[j - 1].0.cst_file.as_str(),
                key.cst_file.as_str(),
            ) {
                let ghost before = entries@;
                proof {
                    assert(fk_keys(before.update(j - 1, (key, value))) =~= fk_keys(before));
                    assert(fk_keys(before)[j - 1] == (key.cst_file@, key.frag_idx));
                }
                entries.set(j - 1, (key, value));
                assert(fk_keys(entries@) =~= fk_keys(before));
                self.entries = entries;
                proof {
                    lemma_fk_lookup_update(before, (j - 1) as int, key, value);
                    assert(fk_keys(before).to_set().contains((key.cst_file@, key.frag_idx)));
                    assert(self.spec_keys() =~= old(self).spec_keys().insert((key.cst_file@, key.frag_idx)));
                }
                return;
            }
            j = j - 1;
        }
        let ghost before = entries@;
        proof {
            let kk = (key.cst_file@, key.frag_idx);
            assert(fk_keys(before.push((key, value))) =~= fk_keys(before).push(kk));
            assert forall|a: int| 0 <= a < fk_keys(before).len() implies fk_keys(before)[a] != kk by {
                assert(fk_keys(before)[a] == (before[a].0.cst_file@, before[a].0.frag_idx));
            }
            assert(fk_keys(before).push(kk).no_duplicates());
            assert forall|x: (Seq<char>, usize)|
                fk_keys(before).push(kk).to_set().contains(x) <==> fk_keys(before).to_set().insert(
                    kk,
                ).contains(x) by {
                if fk_keys(before).contains(x) {
                    let a = choose|a: int| 0 <= a < fk_keys(before).len() && fk_keys(before)[a] == x;
                    assert(fk_keys(before).push(kk)[a] == x);
                }
                if fk_keys(before).push(kk).contains(x) && x != kk {
                    let a = choose|a: int|
                        0 <= a < fk_keys(before).push(kk).len() && fk_keys(before).push(kk)[a] == x;
                    assert(fk_keys(before)[a] == x);
                }
                assert(fk_keys(before).push(kk)[fk_keys(before).len() as int] == kk);
            }
            assert(fk_keys(before).push(kk).to_set() =~= fk_keys(before).to_set().insert(kk));
        }
        entries.push((key, value));
        self.entries = entries;
        assert forall|f: Seq<char>, i: usize| #[trigger]
            self.spec_get(f, i) == (if f == key.cst_file@ && i == key.frag_idx {
                Some(value)
            } else {
                old(self).spec_get(f, i)
            }) by {
            assert(self.entries@.drop_last() =~= old(self).entries@);
        }
    }

    /// The value stored for `(cst_file, frag_idx)`.
    pub fn get(&self, cst_file: &str, frag_idx: usize) -> (r: Option<&V>)
        ensures
            match r {
                Some(v) => self.spec_get(cst_file@, frag_idx) == Some(*v),
                None => self.spec_get(cst_file@, frag_idx) is None,
            },
    {
        let n = self.entries.len();
        let mut i = n;
        assert(self.entries@.take(n as int) =~= self.entries@);
        while i > 0
            invariant
                i <= n == self.entries@.len(),
                fk_lookup(self.entries@, cst_file@, frag_idx) == fk_lookup(
                    self.entries@.take(i as int),
                    cst_file@,
                    frag_idx,
                ),
            decreases i,
        {
            let e = &self.entries[i - 1];
            assert(self.entries@.take(i as int).drop_last() =~= self.entries@.take(i - 1));
            if e.0.frag_idx == frag_idx && str_eq(e.0.cst_file.as_str(), cst_file) {
                return Some(&e.1);
            }
            i = i - 1;
        }
        None
    }
}

/// Correction fragment overrides keyed by `(cst_file, frag_idx)`.
pub type CorrectionFragmentOverrides = FragmentKeyMap<CorrectionFragmentOverride>;

/// Legacy boundary adjustments keyed by `(cst_file, frag_idx)`.
pub type FragmentAdjustments = FragmentKeyMap<FragmentAdjustment>;

/// The last entry of `entries` whose key is `key`.
pub open spec fn str_lookup<V>(entries: Seq<(String, V)>, key: Seq<char>) -> Option<V>
    decreases entries.len(),
{
    if entries.len() == 0 {
        None
    } else if entries.last().0@ == key {
        Some(entries.last().1)
    } else {
        str_lookup(entries.drop_last(), key)
    }
}

/// Replacing the value of the last entry with a key changes the value found
/// for that key and for no other.
proof fn lemma_str_lookup_update<V>(entries: Seq<(String, V)>, j: int, key: String, value: V)
    requires
        0 <= j < entries.len(),
        entries[j].0@ == key@,
        forall|k: int| j < k < entries.len() ==> #[trigger] entries[k].0@ != key@,
    ensures
        forall|f: Seq<char>|
            #[trigger] str_lookup(entries.update(j, (key, value)), f) == if f == key@ {
                Some(value)
            } else {
                str_lookup(entries, f)
            },
    decreases entries.len(),
{
    let after = entries.update(j, (key, value));
    if j < entries.len() - 1 {
        lemma_str_lookup_update(entries.drop_last(), j, key, value);
        assert(after.drop_last() =~= entries.drop_last().update(j, (key, value)));
        assert(after.last() == entries.last());
        assert forall|f: Seq<char>|
            #[trigger] str_lookup(after, f) == if f == key@ {
                Some(value)
            } else {
                str_lookup(entries, f)
            } by {
            assert(str_lookup(entries.drop_last().update(j, (key, value)), f) == if f == key@ {
                Some(value)
            } else {
                str_lookup(entries.drop_last(), f)
            });
        }
    } else {
        assert(after.drop_last() =~= entries.drop_last());
        assert forall|f: Seq<char>|
            #[trigger] str_lookup(after, f) == if f == key@ {
                Some(value)
            } else {
                str_lookup(entries, f)
            } by {
            assert(str_lookup(after.drop_last(), f) == str_lookup(entries.drop_last(), f));
        }
    }
}

/// A map keyed by strings, remembering the order in which keys were inserted.
#[derive(Debug)]
pub struct StringMap<V> {
    entries: Vec<(String, V)>,
}

impl<V> StringMap<V> {
    /// No key is stored twice.
    #[verifier::type_invariant]
    spec fn keys_unique(&self) -> bool {
        self.spec_keys().no_duplicates()
    }

    /// The value stored for `key`.
    pub closed spec fn spec_get(&self, key: Seq<char>) -> Option<V> {
        str_lookup(self.entries@, key)
    }

    /// The keys in iteration order.
    pub closed spec fn spec_keys(&self) -> Seq<Seq<char>> {
        self.entries@.map_values(|e: (String, V)| e.0@)
    }

    /// An empty map.
    pub fn new() -> (r: Self)
        ensures
            forall|k: Seq<char>| r.spec_get(k) is None,
            r.spec_keys().len() == 0,
    {
        let r = StringMap { entries: Vec::new() };
        assert(r.spec_keys() =~= Seq::<Seq<char>>::empty());
        r
    }

    /// Number of keys; no key occurs twice in the order.
    pub fn len(&self) -> (r: usize)
        ensures
            r == self.spec_keys().len(),
            self.spec_keys().no_duplicates(),
    {
        proof {
            use_type_invariant(self);
        }
        self.entries.len()
    }

    /// True when the map has no key.
    pub fn is_empty(&self) -> (r: bool)
        ensures
            r == (self.spec_keys().len() == 0),
    {
        self.entries.len() == 0
    }

    /// Sets the value for `key`, replacing any earlier value (the key keeps
    /// its place in the order; a new key goes last).
    pub fn insert(&mut self, key: String, value: V)
        ensures
            forall|k: Seq<char>|
                #![trigger final(self).spec_get(k)]
                final(self).spec_get(k) == if k == key@ {
                    Some(value)
                } else {
                    old(self).spec_get(k)
                },
            final(self).spec_keys() == if old(self).spec_keys().contains(key@) {
                old(self).spec_keys()
            } else {
                old(self).spec_keys().push(key@)
            },
    {
        proof {
            use_type_invariant(&*self);
        }
        let mut entries: Vec<(String, V)> = Vec::new();
        std::mem::swap(&mut entries, &mut self.entries);
        let ghost keys = old(self).spec_keys();
        let n = entries.len();
        let mut j = n;
        while j > 0
            invariant
                j <= n == entries@.len(),
                entries@ == old(self).entries@,
                keys == entries@.map_values(|e: (String, V)| e.0@),
                keys.no_duplicates(),
                forall|k: int| j <= k < n ==> #[trigger] entries@[k].0@ != key@,
            decreases j,
        {
            if str_eq(entries[j - 1].0.as_str(), key.as_str()) {
                let ghost before = entries@;
                entries.set(j - 1, (key, value));
                assert(entries@.map_values(|e: (String, V)| e.0@) =~= keys);
                assert(keys[j - 1] == key@);
                self.entries = entries;
                proof {
                    lemma_str_lookup_update(before, (j - 1) as int, key, value);
                }
                return;
            }
            j = j - 1;
        }
        let ghost before = entries@;
        proof {
            assert forall|a: int| 0 <= a < keys.len() implies keys[a] != key@ by {
                assert(keys[a] == before[a].0@);
            }
            assert(!keys.contains(key@));
            assert(before.push((key, value)).map_values(|e: (String, V)| e.0@) =~= keys.push(
                key@,
            ));
        }
        entries.push((key, value));
        self.entries = entries;
        assert forall|k: Seq<char>| #[trigger]
            self.spec_get(k) == (if k == key@ {
                Some(value)
            } else {
                old(self).spec_get(k)
            }) by {
            assert(self.entries@.drop_last() =~= old(self).entries@);
        }
    }

    /// The value stored for `key`.
    pub fn get(&self, key: &str) -> (r: Option<&V>)
        ensures
            match r {
                Some(v) => self.spec_get(key@) == Some(*v),
                None => self.spec_get(key@) is None,
            },
    {
        let n = self.entries.len();
        let mut i = n;
        assert(self.entries@.take(n as int) =~= self.entries@);
        while i > 0
            invariant
                i <= n == self.entries@.len(),
                str_lookup(self.entries@, key@) == str_lookup(self.entries@.take(i as int), key@),
            decreases i,
        {
            let e = &self.entries[i - 1];
            assert(self.entries@.take(i as int).drop_last() =~= self.entries@.take(i - 1));
            if str_eq(e.0.as_str(), key) {
                return Some(&e.1);
            }
            i = i - 1;
        }
        None
    }

    /// The key of entry `i`, in insertion order.
    pub fn key_at(&self, i: usize) -> (r: &String)
        requires
            i < self.spec_keys().len(),
        ensures
            r@ == self.spec_keys()[i as int],
    {
        &self.entries[i].0
    }

    /// True when `key` has a value.
    pub fn contains_key(&self, key: &str) -> (r: bool)
        ensures
            r == (self.spec_get(key@) is Some),
    {
        self.get(key).is_some()
    }
}

/// Combined override configuration for parsing.
#[derive(Debug)]
pub struct ParserOverrides {
    /// Correction fragment overrides extracted from the database.
    pub correction_overrides: Option<CorrectionFragmentOverrides>,
    /// Legacy fragment boundary adjustments.
    pub adjustments: Option<FragmentAdjustments>,
    /// Pali titles (SC code to title) used to fill `sc_sutta`.
    pub pali_titles: Option<StringMap<String>>,
    /// CST code to `(sc_code, sc_sutta)` mapping used to populate SC fields.
    pub sc_code_map: Option<StringMap<(String, String)>>,
}

impl Default for ParserOverrides {
    fn default() -> (r: Self)
        ensures
            r.correction_overrides is None,
            r.adjustments is None,
            r.pali_titles is None,
            r.sc_code_map is None,
    {
        ParserOverrides { correction_overrides: None, adjustments: None, pali_titles: None, sc_code_map: None }
    }
}

/// Parsed components of an SC code (`sn5.1`, `an3.1`, `dn1`, `mn41`).
#[derive(Debug, Clone, Default)]
pub struct ScCodeComponents {
    pub prefix: String,
    pub samyutta: Option<i32>,
    pub nipata: Option<i32>,
    pub sutta: Option<i32>,
}

/// Typed parser errors.
#[derive(Debug)]
pub enum ParserError {
    /// Critical: fragment boundaries from overrides point to wrong positions.
    InvalidBoundaryOverride { details: String },
    /// Critical: reconstructed XML does not match the original.
    ReconstructionVerificationFailed { filename: String, details: String },
    /// Critical: fragment count differs from the reference database.
    RowCountMismatch { filename: String, new_count: usize, ref_count: usize },
    /// Critical: first or last fragment is not a Header.
    HeaderValidationFailed { filename: String, details: String },
    /// Non-critical: a recoverable issue for a single file.
    GeneralError { message: String },
}

/// The message of an error, as its `Display` writes it.
pub open spec fn parser_error_message(e: ParserError) -> Seq<char> {
    match e {
        ParserError::InvalidBoundaryOverride { details } => "Invalid boundary override: "@
            + details@,
        ParserError::ReconstructionVerificationFailed { filename, details } =>
            "Reconstruction verification failed for "@ + filename@ + ": "@ + details@,
        ParserError::RowCountMismatch { filename, new_count, ref_count } => "Row count mismatch for "@
            + filename@ + ": new parser produced "@ + nat_decimal(new_count as nat)
            + " fragments, reference db has "@ + nat_decimal(ref_count as nat),
        ParserError::HeaderValidationFailed { filename, details } =>
            "Header validation failed for "@ + filename@ + ": "@ + details@,
        ParserError::GeneralError { message } => message@,
    }
}

/// An error the parser gives: a general one, or an override that points
/// outside the input.
pub open spec fn parse_failure(e: ParserError) -> bool {
    e is GeneralError || e is InvalidBoundaryOverride
}

impl ParserError {
    /// True for the errors that require an immediate exit.
    pub fn is_critical(&self) -> (r: bool)
        ensures
            r == !(self is GeneralError),
    {
        match self {
            ParserError::GeneralError { .. } => false,
            _ => true,
        }
    }

    /// The error message.
    pub fn to_string(&self) -> (r: String)
        ensures
            r@ == parser_error_message(*self),
    {
        match self {
            ParserError::InvalidBoundaryOverride { details } => {
                let mut s = String::from_str("Invalid boundary override: ");
                s.append(details.as_str());
                s
            },
            ParserError::ReconstructionVerificationFailed { filename, details } => {
                let mut s = String::from_str("Reconstruction verification failed for ");
                s.append(filename.as_str());
                s.append(": ");
                s.append(details.as_str());
                s
            },
            ParserError::RowCountMismatch { filename, new_count, ref_count } => {
                let mut s = String::from_str("Row count mismatch for ");
                s.append(filename.as_str());
                s.append(": new parser produced ");
                push_nat_decimal(&mut s, *new_count as u64);
                s.append(" fragments, reference db has ");
                push_nat_decimal(&mut s, *ref_count as u64);
                s
            },
            ParserError::HeaderValidationFailed { filename, details } => {
                let mut s = String::from_str("Header validation failed for ");
                s.append(filename.as_str());
                s.append(": ");
                s.append(details.as_str());
                s
            },
            ParserError::GeneralError { message } => message.clone(),
        }
    }
}

} // verus!
