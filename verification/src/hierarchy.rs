//! The hierarchy of group levels around the current position of a parse, and
//! the detection of elements that open a level or start a sutta.

use vstd::prelude::*;
use vstd::string::*;
use crate::nikaya::NikayaStructure;
use crate::text::{ends_with, str_ends_with, str_eq};
use crate::types::{clone_levels, clone_opt_string, GroupLevel, GroupType, StringMap, XmlFragment};

verus! {

/// The group types of a list of levels.
pub open spec fn types_of(levels: Seq<GroupLevel>) -> Seq<GroupType> {
    levels.map_values(|l: GroupLevel| l.group_type)
}

/// The first index of `t` in `s`.
pub open spec fn first_index(s: Seq<GroupType>, t: GroupType) -> Option<int> {
    if exists|i: int| 0 <= i < s.len() && s[i] == t {
        Some(
            choose|i: int|
                0 <= i < s.len() && s[i] == t && forall|j: int| 0 <= j < i ==> s[j] != t,
        )
    } else {
        None
    }
}

proof fn lemma_first_index_is(s: Seq<GroupType>, t: GroupType, r: Option<int>)
    requires
        r matches Some(i) ==> 0 <= i < s.len() && s[i] == t && forall|j: int|
            0 <= j < i ==> s[j] != t,
        r is None ==> forall|j: int| 0 <= j < s.len() ==> s[j] != t,
    ensures
        first_index(s, t) == r,
{
    if let Some(i) = r {
        let k = choose|k: int|
            0 <= k < s.len() && s[k] == t && forall|j: int| 0 <= j < k ==> s[j] != t;
        assert(s[i] == t);
        if k < i {
        } else if k > i {
        }
    }
}

/// The first index of `t` in `s`.
pub fn find_type(s: &Vec<GroupType>, t: GroupType) -> (r: Option<usize>)
    ensures
        match r {
            Some(i) => i < s@.len() && first_index(s@, t) == Some(i as int),
            None => first_index(s@, t) is None,
        },
{
    let mut i: usize = 0;
    while i < s.len()
        invariant
            i <= s@.len(),
            forall|j: int| 0 <= j < i ==> s@[j] != t,
        decreases s@.len() - i,
    {
        if s[i] == t {
            proof {
                lemma_first_index_is(s@, t, Some(i as int));
            }
            return Some(i);
        }
        i = i + 1;
    }
    proof {
        lemma_first_index_is(s@, t, None);
    }
    None
}

/// The index of the first level of type `t`.
pub fn find_level(levels: &Vec<GroupLevel>, t: GroupType) -> (r: Option<usize>)
    ensures
        match r {
            Some(i) => i < levels@.len() && first_index(types_of(levels@), t) == Some(i as int),
            None => first_index(types_of(levels@), t) is None,
        },
{
    let ghost ts = types_of(levels@);
    let mut i: usize = 0;
    while i < levels.len()
        invariant
            ts == types_of(levels@),
            i <= levels@.len(),
            forall|j: int| 0 <= j < i ==> ts[j] != t,
        decreases levels@.len() - i,
    {
        if levels[i].group_type == t {
            proof {
                lemma_first_index_is(ts, t, Some(i as int));
            }
            return Some(i);
        }
        i = i + 1;
    }
    proof {
        lemma_first_index_is(ts, t, None);
    }
    None
}

/// The levels after entering a level of type `t` with the given title, id and number.
///
/// A type that the structure does not have changes nothing. A nikaya level goes
/// first. A level of a type already present replaces it, keeps its id when no
/// id is given, and drops the levels below it unless it is the same level
/// entered again (no id, same title). Otherwise the levels from the type's
/// depth on are dropped and the new level is appended.
pub open spec fn enter_level_spec(
    levels: Seq<GroupLevel>,
    structure: Seq<GroupType>,
    t: GroupType,
    title: String,
    id: Option<String>,
    number: Option<i32>,
) -> Seq<GroupLevel> {
    let new_level = GroupLevel { group_type: t, group_number: number, title, id };
    match first_index(structure, t) {
        None => levels,
        Some(depth) => if depth == 0 && t == GroupType::Nikaya && levels.len() > 0 {
            if levels[0].group_type == GroupType::Nikaya {
                levels.update(0, new_level)
            } else {
                levels.insert(0, new_level)
            }
        } else {
            match first_index(types_of(levels), t) {
                Some(pos) => {
                    let existing = levels[pos];
                    let kept_id = if id is None {
                        existing.id
                    } else {
                        id
                    };
                    let truncate = id is Some || existing.title@ != title@;
                    let base = if truncate {
                        levels.take(pos + 1)
                    } else {
                        levels
                    };
                    base.update(
                        pos,
                        GroupLevel { group_type: t, group_number: number, title, id: kept_id },
                    )
                },
                None => (if depth < levels.len() {
                    levels.take(depth)
                } else {
                    levels
                }).push(new_level),
            }
        },
    }
}

/// A structure whose outermost level is the nikaya.
pub open spec fn starts_with_nikaya(structure: Seq<GroupType>) -> bool {
    structure.len() > 0 && structure[0] == GroupType::Nikaya
}

/// Every fragment has well-formed levels.
pub open spec fn all_levels_well_formed(frags: Seq<XmlFragment>) -> bool {
    forall|j: int| 0 <= j < frags.len() ==> levels_well_formed(#[trigger] frags[j].group_levels@)
}

/// No two levels have the same type, and a nikaya level can only be the first one.
pub open spec fn levels_well_formed(levels: Seq<GroupLevel>) -> bool {
    &&& forall|i: int, j: int|
        0 <= i < j < levels.len() ==> levels[i].group_type != levels[j].group_type
    &&& forall|i: int| 0 < i < levels.len() ==> levels[i].group_type != GroupType::Nikaya
}

proof fn lemma_minimal_index_exists(s: Seq<GroupType>, t: GroupType, w: int)
    requires
        0 <= w < s.len(),
        s[w] == t,
    ensures
        exists|i: int| 0 <= i < s.len() && s[i] == t && forall|j: int| 0 <= j < i ==> s[j] != t,
    decreases w,
{
    if exists|j: int| 0 <= j < w && s[j] == t {
        let j = choose|j: int| 0 <= j < w && s[j] == t;
        lemma_minimal_index_exists(s, t, j);
    } else {
        assert(0 <= w < s.len() && s[w] == t && forall|j: int| 0 <= j < w ==> s[j] != t);
    }
}

pub proof fn lemma_first_index_facts(s: Seq<GroupType>, t: GroupType)
    ensures
        first_index(s, t) matches Some(i) ==> 0 <= i < s.len() && s[i] == t && forall|j: int|
            0 <= j < i ==> s[j] != t,
        first_index(s, t) is None ==> forall|j: int| 0 <= j < s.len() ==> s[j] != t,
{
    if exists|i: int| 0 <= i < s.len() && s[i] == t {
        let w = choose|i: int| 0 <= i < s.len() && s[i] == t;
        lemma_minimal_index_exists(s, t, w);
    }
}

/// Entering a level keeps the levels well formed: no type occurs twice, and a
/// nikaya level only comes first (for a structure that starts with the nikaya).
pub proof fn law_enter_level_well_formed(
    levels: Seq<GroupLevel>,
    structure: Seq<GroupType>,
    t: GroupType,
    title: String,
    id: Option<String>,
    number: Option<i32>,
)
    requires
        levels_well_formed(levels),
        structure.len() > 0,
        structure[0] == GroupType::Nikaya,
    ensures
        levels_well_formed(enter_level_spec(levels, structure, t, title, id, number)),
{
    lemma_first_index_facts(structure, t);
    lemma_first_index_facts(types_of(levels), t);
    let r = enter_level_spec(levels, structure, t, title, id, number);
    if let Some(depth) = first_index(structure, t) {
        if depth == 0 && t == GroupType::Nikaya && levels.len() > 0 {
            if levels[0].group_type != GroupType::Nikaya {
                assert forall|i: int, j: int| 0 <= i < j < r.len() implies r[i].group_type
                    != r[j].group_type by {
                    if i == 0 {
                        assert(r[j] == levels[j - 1]);
                    } else {
                        assert(r[i] == levels[i - 1] && r[j] == levels[j - 1]);
                    }
                }
                assert forall|i: int| 0 < i < r.len() implies r[i].group_type
                    != GroupType::Nikaya by {
                    assert(r[i] == levels[i - 1]);
                }
            }
        } else {
            if t == GroupType::Nikaya {
                assert(depth == 0);
            }
            match first_index(types_of(levels), t) {
                Some(pos) => {
                    assert(types_of(levels)[pos] == levels[pos].group_type);
                },
                None => {
                    let base = if depth < levels.len() {
                        levels.take(depth)
                    } else {
                        levels
                    };
                    assert forall|i: int| 0 <= i < base.len() implies base[i].group_type != t by {
                        assert(base[i] == levels[i]);
                        assert(types_of(levels)[i] == levels[i].group_type);
                    }
                    assert forall|i: int, j: int| 0 <= i < j < r.len() implies r[i].group_type
                        != r[j].group_type by {
                        if j == base.len() {
                            assert(r[i] == base[i]);
                        } else {
                            assert(r[i] == levels[i] && r[j] == levels[j]);
                        }
                    }
                    assert forall|i: int| 0 < i < r.len() implies r[i].group_type
                        != GroupType::Nikaya by {
                        if i < base.len() {
                            assert(r[i] == levels[i]);
                        }
                    }
                },
            }
        }
    }
}

/// After entering a level of a type that the structure has, a level of that type
/// with the given title and number is present, with the given id when one was given.
pub proof fn law_enter_level_present(
    levels: Seq<GroupLevel>,
    structure: Seq<GroupType>,
    t: GroupType,
    title: String,
    id: Option<String>,
    number: Option<i32>,
)
    requires
        first_index(structure, t) is Some,
    ensures
        exists|i: int|
            #![trigger enter_level_spec(levels, structure, t, title, id, number)[i]]
            {
                let r = enter_level_spec(levels, structure, t, title, id, number);
                &&& 0 <= i < r.len()
                &&& r[i].group_type == t
                &&& r[i].title == title
                &&& r[i].group_number == number
                &&& (id is Some ==> r[i].id == id)
            },
{
    lemma_first_index_facts(structure, t);
    lemma_first_index_facts(types_of(levels), t);
    let r = enter_level_spec(levels, structure, t, title, id, number);
    let depth = first_index(structure, t)->0;
    if depth == 0 && t == GroupType::Nikaya && levels.len() > 0 {
        assert(r[0].group_type == t);
    } else {
        match first_index(types_of(levels), t) {
            Some(pos) => {
                assert(r[pos].group_type == t);
            },
            None => {
                assert(r[r.len() - 1].group_type == t);
            },
        }
    }
}

/// Entering a level of a type that the structure does not have changes nothing.
pub proof fn law_enter_level_unknown_type(
    levels: Seq<GroupLevel>,
    structure: Seq<GroupType>,
    t: GroupType,
    title: String,
    id: Option<String>,
    number: Option<i32>,
)
    requires
        !structure.contains(t),
    ensures
        enter_level_spec(levels, structure, t, title, id, number) == levels,
{
    lemma_first_index_facts(structure, t);
    if first_index(structure, t) is Some {
        assert(structure[first_index(structure, t)->0] == t);
    }
}

/// Levels that fit a structure: no two have the same type, each type is one
/// of the structure's, and when the structure starts with the nikaya a nikaya
/// level can only be the first one.
pub open spec fn levels_fit(levels: Seq<GroupLevel>, structure: Seq<GroupType>) -> bool {
    &&& forall|i: int, j: int|
        0 <= i < j < levels.len() ==> levels[i].group_type != levels[j].group_type
    &&& forall|i: int| 0 <= i < levels.len() ==> structure.contains(#[trigger] levels[i].group_type)
    &&& starts_with_nikaya(structure) ==> forall|i: int|
        0 < i < levels.len() ==> (#[trigger] levels[i]).group_type != GroupType::Nikaya
}

/// Putting a nikaya level first keeps levels fitting a structure that starts
/// with the nikaya.
proof fn lemma_fit_nikaya_first(levels: Seq<GroupLevel>, structure: Seq<GroupType>, n: GroupLevel)
    requires
        levels_fit(levels, structure),
        starts_with_nikaya(structure),
        n.group_type == GroupType::Nikaya,
        levels.len() > 0,
    ensures
        levels_fit(
            if levels[0].group_type == GroupType::Nikaya {
                levels.update(0, n)
            } else {
                levels.insert(0, n)
            },
            structure,
        ),
{
    assert(structure.contains(GroupType::Nikaya)) by {
        assert(structure[0] == GroupType::Nikaya);
    }
    if levels[0].group_type == GroupType::Nikaya {
        let r = levels.update(0, n);
        assert forall|i: int| 0 <= i < r.len() implies #[trigger] r[i].group_type
            == levels[i].group_type by {}
    } else {
        let r = levels.insert(0, n);
        assert forall|i: int| 0 < i < r.len() implies #[trigger] r[i] == levels[i - 1] by {}
        assert forall|i: int, j: int| 0 <= i < j < r.len() implies r[i].group_type
            != r[j].group_type by {
            assert(r[j] == levels[j - 1]);
            if i > 0 {
                assert(r[i] == levels[i - 1]);
            }
        }
    }
}

/// Replacing the level of a type already present keeps levels fitting.
proof fn lemma_fit_replace(levels: Seq<GroupLevel>, structure: Seq<GroupType>, pos: int, keep: int, n: GroupLevel)
    requires
        levels_fit(levels, structure),
        0 <= pos < keep <= levels.len(),
        n.group_type == levels[pos].group_type,
    ensures
        levels_fit(levels.take(keep).update(pos, n), structure),
{
    let r = levels.take(keep).update(pos, n);
    assert forall|i: int| 0 <= i < r.len() implies #[trigger] r[i].group_type
        == levels[i].group_type by {}
    assert forall|i: int, j: int| 0 <= i < j < r.len() implies r[i].group_type
        != r[j].group_type by {
        assert(r[i].group_type == levels[i].group_type);
        assert(r[j].group_type == levels[j].group_type);
    }
}

/// Appending a level of a new type of the structure after a prefix keeps
/// levels fitting, unless it is a nikaya level after others in a structure
/// that starts with the nikaya.
proof fn lemma_fit_append(levels: Seq<GroupLevel>, structure: Seq<GroupType>, keep: int, n: GroupLevel)
    requires
        levels_fit(levels, structure),
        0 <= keep <= levels.len(),
        structure.contains(n.group_type),
        forall|i: int| 0 <= i < levels.len() ==> levels[i].group_type != n.group_type,
        starts_with_nikaya(structure) && n.group_type == GroupType::Nikaya ==> keep == 0,
    ensures
        levels_fit(levels.take(keep).push(n), structure),
{
    let r = levels.take(keep).push(n);
    assert forall|i: int| 0 <= i < keep implies #[trigger] r[i] == levels[i] by {}
    assert forall|i: int, j: int| 0 <= i < j < r.len() implies r[i].group_type
        != r[j].group_type by {
        assert(r[i] == levels[i]);
        if j < keep {
            assert(r[j] == levels[j]);
        }
    }
}

/// Entering a level keeps the levels fitting the structure (see
/// `levels_fit`), whatever the structure.
pub proof fn law_enter_level_fits(
    levels: Seq<GroupLevel>,
    structure: Seq<GroupType>,
    t: GroupType,
    title: String,
    id: Option<String>,
    number: Option<i32>,
)
    requires
        levels_fit(levels, structure),
    ensures
        levels_fit(enter_level_spec(levels, structure, t, title, id, number), structure),
{
    lemma_first_index_facts(structure, t);
    lemma_first_index_facts(types_of(levels), t);
    let new_level = GroupLevel { group_type: t, group_number: number, title, id };
    if let Some(depth) = first_index(structure, t) {
        assert(structure.contains(t)) by {
            assert(structure[depth] == t);
        }
        if depth == 0 && t == GroupType::Nikaya && levels.len() > 0 {
            lemma_fit_nikaya_first(levels, structure, new_level);
        } else {
            match first_index(types_of(levels), t) {
                Some(pos) => {
                    assert(types_of(levels)[pos] == levels[pos].group_type);
                    let existing = levels[pos];
                    let kept_id = if id is None {
                        existing.id
                    } else {
                        id
                    };
                    let truncate = id is Some || existing.title@ != title@;
                    let keep = if truncate {
                        pos + 1
                    } else {
                        levels.len() as int
                    };
                    assert(levels.take(levels.len() as int) =~= levels);
                    lemma_fit_replace(
                        levels,
                        structure,
                        pos,
                        keep,
                        GroupLevel { group_type: t, group_number: number, title, id: kept_id },
                    );
                },
                None => {
                    assert forall|i: int| 0 <= i < levels.len() implies levels[i].group_type != t by {
                        assert(types_of(levels)[i] == levels[i].group_type);
                    }
                    let keep = if depth < levels.len() {
                        depth
                    } else {
                        levels.len() as int
                    };
                    assert(levels.take(levels.len() as int) =~= levels);
                    lemma_fit_append(levels, structure, keep, new_level);
                },
            }
        }
    }
}

/// Tracks the levels of the hierarchy around the current position.
#[derive(Debug, Clone)]
pub struct HierarchyTracker {
    current_levels: Vec<GroupLevel>,
    nikaya_structure: NikayaStructure,
}

impl HierarchyTracker {
    /// The current levels, outermost first.
    pub closed spec fn levels_view(&self) -> Seq<GroupLevel> {
        self.current_levels@
    }

    /// The group types of the nikaya structure.
    pub closed spec fn structure_view(&self) -> Seq<GroupType> {
        self.nikaya_structure.levels@
    }

    /// A tracker with no level.
    pub fn new(nikaya_structure: NikayaStructure) -> (r: Self)
        ensures
            r.levels_view() == Seq::<GroupLevel>::empty(),
            r.structure_view() == nikaya_structure.levels@,
    {
        HierarchyTracker { current_levels: Vec::new(), nikaya_structure }
    }

    /// Enters a level (see `enter_level_spec`).
    pub fn enter_level(
        &mut self,
        level_type: GroupType,
        title: String,
        id: Option<String>,
        number: Option<i32>,
    )
        ensures
            final(self).structure_view() == old(self).structure_view(),
            final(self).levels_view() == enter_level_spec(
                old(self).levels_view(),
                old(self).structure_view(),
                level_type,
                title,
                id,
                number,
            ),
            levels_well_formed(old(self).levels_view()) && starts_with_nikaya(
                old(self).structure_view(),
            ) ==> levels_well_formed(final(self).levels_view()),
            levels_fit(old(self).levels_view(), old(self).structure_view()) ==> levels_fit(
                final(self).levels_view(),
                final(self).structure_view(),
            ),
    {
        let ghost before = self.levels_view();
        let ghost (t, i) = (title, id);
        self.update_levels(level_type, title, id, number);
        proof {
            if levels_well_formed(before) && starts_with_nikaya(self.structure_view()) {
                law_enter_level_well_formed(before, self.structure_view(), level_type, t, i, number);
            }
            if levels_fit(before, self.structure_view()) {
                law_enter_level_fits(before, self.structure_view(), level_type, t, i, number);
            }
        }
    }

    fn update_levels(
        &mut self,
        level_type: GroupType,
        title: String,
        id: Option<String>,
        number: Option<i32>,
    )
        ensures
            final(self).structure_view() == old(self).structure_view(),
            final(self).levels_view() == enter_level_spec(
                old(self).levels_view(),
                old(self).structure_view(),
                level_type,
                title,
                id,
                number,
            ),
    {
        let depth = match find_type(&self.nikaya_structure.levels, level_type) {
            Some(d) => d,
            None => {
                return ;
            },
        };
        if depth == 0 && level_type == GroupType::Nikaya && self.current_levels.len() > 0 {
            let new_level = GroupLevel { group_type: level_type, group_number: number, title, id };
            if self.current_levels[0].group_type == GroupType::Nikaya {
                self.current_levels.set(0, new_level);
            } else {
                self.current_levels.insert(0, new_level);
            }
            return ;
        }
        match find_level(&self.current_levels, level_type) {
            Some(pos) => {
                let n = self.current_levels.len();
                assert(pos < n);
                let id_given = id.is_some();
                let kept_id = match id {
                    None => clone_opt_string(&self.current_levels[pos].id),
                    Some(v) => Some(v),
                };
                let title_changed = !str_eq(
                    self.current_levels[pos].title.as_str(),
                    title.as_str(),
                );
                let should_truncate = id_given || title_changed;
                if should_truncate {
                    self.current_levels.truncate(pos + 1);
                }
                self.current_levels.set(
                    pos,
                    GroupLevel { group_type: level_type, group_number: number, title, id: kept_id },
                );
            },
            None => {
                self.current_levels.truncate(depth);
                self.current_levels.push(
                    GroupLevel { group_type: level_type, group_number: number, title, id },
                );
            },
        }
    }

    /// A copy of the current levels.
    pub fn get_current_levels(&self) -> (r: Vec<GroupLevel>)
        ensures
            r@ == self.levels_view(),
    {
        clone_levels(&self.current_levels)
    }
}


/// True when attribute `key` has the value `value`.
pub open spec fn attr_is(attrs: StringMap<String>, key: Seq<char>, value: Seq<char>) -> bool {
    attrs.spec_get(key) matches Some(v) && v@ == value
}

/// Whether attribute `key` has the value `value`.
pub fn attr_equals(attrs: &StringMap<String>, key: &str, value: &str) -> (r: bool)
    ensures
        r == attr_is(*attrs, key@, value@),
{
    match attrs.get(key) {
        Some(v) => str_eq(v.as_str(), value),
        None => false,
    }
}

/// True for a commentary (`.att.xml`) or sub-commentary (`.tik.xml`) file.
pub open spec fn is_commentary_file(file: Seq<char>) -> bool {
    ends_with(file, ".att.xml"@) || ends_with(file, ".tik.xml"@)
}

/// Whether a file is a commentary or sub-commentary file.
pub fn is_commentary(cst_file: &str) -> (r: bool)
    ensures
        r == is_commentary_file(cst_file@),
{
    str_ends_with(cst_file, ".att.xml") || str_ends_with(cst_file, ".tik.xml")
}

/// The level type that an element opens in a nikaya, if any.
pub open spec fn boundary_type_spec(
    nikaya: Seq<char>,
    tag: Seq<char>,
    attrs: StringMap<String>,
) -> Option<GroupType> {
    let rend = |v: Seq<char>| attr_is(attrs, "rend"@, v);
    let typ = |v: Seq<char>| attr_is(attrs, "type"@, v);
    if tag == "p"@ && rend("nikaya"@) {
        Some(GroupType::Nikaya)
    } else if tag == "p"@ && rend("book"@) {
        Some(GroupType::Book)
    } else if tag == "div"@ && typ("book"@) {
        Some(GroupType::Book)
    } else if tag == "div"@ && typ("samyutta"@) {
        Some(GroupType::Samyutta)
    } else if tag == "div"@ && typ("pannasaka"@) {
        Some(GroupType::Pannasaka)
    } else if tag == "div"@ && typ("vagga"@) {
        Some(GroupType::Vagga)
    } else if tag == "div"@ && typ("sutta"@) {
        Some(GroupType::Sutta)
    } else if tag == "head"@ && rend("book"@) {
        Some(GroupType::Book)
    } else if tag == "head"@ && rend("nikaya"@) {
        Some(GroupType::Nikaya)
    } else if tag == "head"@ && rend("title"@) {
        if nikaya == "anguttara"@ {
            Some(GroupType::Pannasaka)
        } else {
            None
        }
    } else if tag == "head"@ && rend("chapter"@) {
        if nikaya == "digha"@ {
            Some(GroupType::Sutta)
        } else if nikaya == "samyutta"@ {
            Some(GroupType::Samyutta)
        } else {
            Some(GroupType::Vagga)
        }
    } else if tag == "p"@ && rend("title"@) {
        if nikaya == "samyutta"@ {
            Some(GroupType::Vagga)
        } else if nikaya == "anguttara"@ {
            Some(GroupType::Pannasaka)
        } else {
            None
        }
    } else if tag == "p"@ && rend("chapter"@) {
        if nikaya == "anguttara"@ {
            Some(GroupType::Vagga)
        } else {
            None
        }
    } else if tag == "p"@ && rend("subhead"@) {
        if nikaya == "majjhima"@ || nikaya == "samyutta"@ || nikaya == "anguttara"@ {
            Some(GroupType::Sutta)
        } else {
            None
        }
    } else {
        None
    }
}

/// Whether an element starts a sutta in a nikaya (for a commentary file or not).
pub open spec fn sutta_start_spec(
    nikaya: Seq<char>,
    commentary: bool,
    tag: Seq<char>,
    attrs: StringMap<String>,
) -> bool {
    let div_sutta = tag == "div"@ && attr_is(attrs, "type"@, "sutta"@);
    let subhead = tag == "p"@ && attr_is(attrs, "rend"@, "subhead"@);
    if nikaya == "digha"@ {
        if commentary {
            tag == "head"@ && attr_is(attrs, "rend"@, "chapter"@)
        } else {
            div_sutta
        }
    } else if nikaya == "majjhima"@ || nikaya == "samyutta"@ || nikaya == "anguttara"@ {
        subhead
    } else {
        div_sutta || subhead
    }
}

/// Detects the elements that open a level or start a sutta, by nikaya-specific rules.
pub struct FragmentBoundaryDetector<'a> {
    nikaya_structure: &'a NikayaStructure,
    cst_file: &'a str,
}

impl<'a> FragmentBoundaryDetector<'a> {
    /// The nikaya name.
    pub closed spec fn nikaya_view(&self) -> Seq<char> {
        self.nikaya_structure.nikaya@
    }

    /// The file name.
    pub closed spec fn file_view(&self) -> Seq<char> {
        self.cst_file@
    }

    /// A detector for a nikaya structure and a file.
    pub fn new(nikaya_structure: &'a NikayaStructure, cst_file: &'a str) -> (r: Self)
        ensures
            r.nikaya_view() == nikaya_structure.nikaya@,
            r.file_view() == cst_file@,
    {
        FragmentBoundaryDetector { nikaya_structure, cst_file }
    }

    /// The level an element opens: its type, an empty title, the element's `id`
    /// for a `div`, and no number.
    pub fn check_boundary(&self, tag_name: &str, attributes: &StringMap<String>) -> (r: Option<
        (GroupType, String, Option<String>, Option<i32>),
    >)
        ensures
            match boundary_type_spec(self.nikaya_view(), tag_name@, *attributes) {
                Some(t) => r matches Some(b) && b.0 == t && b.1@ == Seq::<char>::empty() && b.2
                    == (if tag_name@ == "div"@ {
                    attributes.spec_get("id"@)
                } else {
                    None
                }) && b.3 is None,
                None => r is None,
            },
    {
        let nikaya = self.nikaya_structure.nikaya.as_str();
        let is_p = str_eq(tag_name, "p");
        let is_div = str_eq(tag_name, "div");
        let is_head = str_eq(tag_name, "head");
        let t: Option<GroupType> = if is_p && attr_equals(attributes, "rend", "nikaya") {
            Some(GroupType::Nikaya)
        } else if is_p && attr_equals(attributes, "rend", "book") {
            Some(GroupType::Book)
        } else if is_div && attr_equals(attributes, "type", "book") {
            Some(GroupType::Book)
        } else if is_div && attr_equals(attributes, "type", "samyutta") {
            Some(GroupType::Samyutta)
        } else if is_div && attr_equals(attributes, "type", "pannasaka") {
            Some(GroupType::Pannasaka)
        } else if is_div && attr_equals(attributes, "type", "vagga") {
            Some(GroupType::Vagga)
        } else if is_div && attr_equals(attributes, "type", "sutta") {
            Some(GroupType::Sutta)
        } else if is_head && attr_equals(attributes, "rend", "book") {
            Some(GroupType::Book)
        } else if is_head && attr_equals(attributes, "rend", "nikaya") {
            Some(GroupType::Nikaya)
        } else if is_head && attr_equals(attributes, "rend", "title") {
            if str_eq(nikaya, "anguttara") {
                Some(GroupType::Pannasaka)
            } else {
                None
            }
        } else if is_head && attr_equals(attributes, "rend", "chapter") {
            if str_eq(nikaya, "digha") {
                Some(GroupType::Sutta)
            } else if str_eq(nikaya, "samyutta") {
                Some(GroupType::Samyutta)
            } else {
                Some(GroupType::Vagga)
            }
        } else if is_p && attr_equals(attributes, "rend", "title") {
            if str_eq(nikaya, "samyutta") {
                Some(GroupType::Vagga)
            } else if str_eq(nikaya, "anguttara") {
                Some(GroupType::Pannasaka)
            } else {
                None
            }
        } else if is_p && attr_equals(attributes, "rend", "chapter") {
            if str_eq(nikaya, "anguttara") {
                Some(GroupType::Vagga)
            } else {
                None
            }
        } else if is_p && attr_equals(attributes, "rend", "subhead") {
            if str_eq(nikaya, "majjhima") || str_eq(nikaya, "samyutta") || str_eq(
                nikaya,
                "anguttara",
            ) {
                Some(GroupType::Sutta)
            } else {
                None
            }
        } else {
            None
        };
        match t {
            Some(t) => {
                let id = if is_div {
                    match attributes.get("id") {
                        Some(v) => Some(v.clone()),
                        None => None,
                    }
                } else {
                    None
                };
                Some((t, String::new(), id, None))
            },
            None => None,
        }
    }

    /// Whether an element starts a sutta.
    pub fn is_sutta_start(&self, tag_name: &str, attributes: &StringMap<String>) -> (r: bool)
        ensures
            r == sutta_start_spec(
                self.nikaya_view(),
                is_commentary_file(self.file_view()),
                tag_name@,
                *attributes,
            ),
    {
        let commentary = is_commentary(self.cst_file);
        let nikaya = self.nikaya_structure.nikaya.as_str();
        let div_sutta = str_eq(tag_name, "div") && attr_equals(attributes, "type", "sutta");
        let subhead = str_eq(tag_name, "p") && attr_equals(attributes, "rend", "subhead");
        if str_eq(nikaya, "digha") {
            if commentary {
                str_eq(tag_name, "head") && attr_equals(attributes, "rend", "chapter")
            } else {
                div_sutta
            }
        } else if str_eq(nikaya, "majjhima") || str_eq(nikaya, "samyutta") || str_eq(
            nikaya,
            "anguttara",
        ) {
            subhead
        } else {
            div_sutta || subhead
        }
    }
}

} // verus!
