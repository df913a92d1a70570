//! Nikaya structures, nikaya name normalization and nikaya detection.

use vstd::prelude::*;
use vstd::string::*;
use vstd::utf8::*;
use crate::text::{
    chars_vec, chars_contain, find_bytes, first_occurrence, lemma_after_ascii_is_boundary,
    lemma_ascii_byte_is_boundary,
    lemma_first_occurrence, lowercase, opt_view, seq_contains, str_eq, substr_bytes, to_lowercase,
    trim_spec, trim_str,
};
use crate::types::{GroupType, ParserError};

verus! {

broadcast use vstd::utf8::encode_utf8_decode_utf8;

/// The hierarchical structure of a nikaya.
#[derive(Debug, Clone)]
pub struct NikayaStructure {
    /// Normalized nikaya name.
    pub nikaya: String,
    /// Group types of the hierarchy, outermost first.
    pub levels: Vec<GroupType>,
}

/// The hierarchy of each known nikaya.
pub open spec fn structure_levels(name: Seq<char>) -> Option<Seq<GroupType>> {
    if name == "digha"@ {
        Some(seq![GroupType::Nikaya, GroupType::Book, GroupType::Sutta])
    } else if name == "majjhima"@ {
        Some(seq![GroupType::Nikaya, GroupType::Book, GroupType::Vagga, GroupType::Sutta])
    } else if name == "samyutta"@ {
        Some(
            seq![
                GroupType::Nikaya,
                GroupType::Book,
                GroupType::Samyutta,
                GroupType::Vagga,
                GroupType::Sutta,
            ],
        )
    } else if name == "anguttara"@ {
        Some(
            seq![
                GroupType::Nikaya,
                GroupType::Book,
                GroupType::Pannasaka,
                GroupType::Vagga,
                GroupType::Sutta,
            ],
        )
    } else if name == "khuddaka"@ {
        Some(seq![GroupType::Nikaya, GroupType::Book, GroupType::Sutta])
    } else {
        None
    }
}

/// The normalized name a (trimmed, lower-cased) nikaya name contains.
pub open spec fn nikaya_name_class(n: Seq<char>) -> Option<Seq<char>> {
    if seq_contains(n, "dīgha"@) || seq_contains(n, "digha"@) {
        Some("digha"@)
    } else if seq_contains(n, "majjhima"@) {
        Some("majjhima"@)
    } else if seq_contains(n, "saṃyutta"@) || seq_contains(n, "samyutta"@) {
        Some("samyutta"@)
    } else if seq_contains(n, "aṅguttara"@) || seq_contains(n, "anguttara"@) {
        Some("anguttara"@)
    } else if seq_contains(n, "khuddaka"@) {
        Some("khuddaka"@)
    } else {
        None
    }
}

fn contains_lit(hay: &Vec<char>, needle: &str) -> (r: bool)
    ensures
        r == seq_contains(hay@, needle@),
{
    let n = chars_vec(needle);
    chars_contain(hay.as_slice(), n.as_slice())
}

/// Classifies a trimmed, lower-cased nikaya name.
pub fn classify_nikaya_name(normalized: &str) -> (r: Option<String>)
    ensures
        opt_view(r) == nikaya_name_class(normalized@),
{
    let v = chars_vec(normalized);
    if contains_lit(&v, "dīgha") || contains_lit(&v, "digha") {
        Some(String::from_str("digha"))
    } else if contains_lit(&v, "majjhima") {
        Some(String::from_str("majjhima"))
    } else if contains_lit(&v, "saṃyutta") || contains_lit(&v, "samyutta") {
        Some(String::from_str("samyutta"))
    } else if contains_lit(&v, "aṅguttara") || contains_lit(&v, "anguttara") {
        Some(String::from_str("anguttara"))
    } else if contains_lit(&v, "khuddaka") {
        Some(String::from_str("khuddaka"))
    } else {
        None
    }
}

impl NikayaStructure {
    /// Normalizes a nikaya name from its Pali forms ("Dīghanikāyo",
    /// "Dīghanikāye", ...) to "digha", "majjhima", "samyutta", "anguttara" or
    /// "khuddaka"; `None` for an unknown name.
    pub fn normalize_name(name: &str) -> (r: Option<String>)
        ensures
            opt_view(r) == nikaya_name_class(lowercase(trim_spec(name@))),
    {
        let trimmed = trim_str(name);
        let lower = to_lowercase(trimmed);
        classify_nikaya_name(lower.as_str())
    }

    /// The structure configuration of a normalized nikaya name.
    pub fn from_nikaya_name(name: &str) -> (r: Option<NikayaStructure>)
        ensures
            match r {
                Some(s) => s.nikaya@ == name@ && structure_levels(name@) == Some(s.levels@),
                None => structure_levels(name@) is None,
            },
    {
        if str_eq(name, "digha") {
            Some(
                NikayaStructure {
                    nikaya: String::from_str("digha"),
                    levels: vec![GroupType::Nikaya, GroupType::Book, GroupType::Sutta],
                },
            )
        } else if str_eq(name, "majjhima") {
            Some(
                NikayaStructure {
                    nikaya: String::from_str("majjhima"),
                    levels: vec![
                        GroupType::Nikaya,
                        GroupType::Book,
                        GroupType::Vagga,
                        GroupType::Sutta,
                    ],
                },
            )
        } else if str_eq(name, "samyutta") {
            Some(
                NikayaStructure {
                    nikaya: String::from_str("samyutta"),
                    levels: vec![
                        GroupType::Nikaya,
                        GroupType::Book,
                        GroupType::Samyutta,
                        GroupType::Vagga,
                        GroupType::Sutta,
                    ],
                },
            )
        } else if str_eq(name, "anguttara") {
            Some(
                NikayaStructure {
                    nikaya: String::from_str("anguttara"),
                    levels: vec![
                        GroupType::Nikaya,
                        GroupType::Book,
                        GroupType::Pannasaka,
                        GroupType::Vagga,
                        GroupType::Sutta,
                    ],
                },
            )
        } else if str_eq(name, "khuddaka") {
            Some(
                NikayaStructure {
                    nikaya: String::from_str("khuddaka"),
                    levels: vec![GroupType::Nikaya, GroupType::Book, GroupType::Sutta],
                },
            )
        } else {
            None
        }
    }

    /// A copy of this structure.
    pub fn duplicate(&self) -> (r: NikayaStructure)
        ensures
            r.nikaya == self.nikaya,
            r.levels@ == self.levels@,
    {
        let mut levels: Vec<GroupType> = Vec::new();
        let mut i: usize = 0;
        while i < self.levels.len()
            invariant
                i <= self.levels@.len(),
                levels@ == self.levels@.take(i as int),
            decreases self.levels@.len() - i,
        {
            levels.push(self.levels[i]);
            assert(self.levels@.take(i + 1) =~= self.levels@.take(i as int).push(
                self.levels@[i as int],
            ));
            i = i + 1;
        }
        assert(self.levels@.take(self.levels@.len() as int) =~= self.levels@);
        NikayaStructure { nikaya: self.nikaya.clone(), levels }
    }
}

/// The bytes of the opening nikaya marker `<p rend="nikaya">`.
pub open spec fn nikaya_open_tag() -> Seq<u8> {
    seq![
        60u8, 112u8, 32u8, 114u8, 101u8, 110u8, 100u8, 61u8, 34u8, 110u8, 105u8, 107u8, 97u8,
        121u8, 97u8, 34u8, 62u8,
    ]
}

/// The bytes of the closing tag `</p>`.
pub open spec fn nikaya_close_tag() -> Seq<u8> {
    seq![60u8, 47u8, 112u8, 62u8]
}

/// The text inside the first `<p rend="nikaya">...</p>` of the XML bytes.
pub open spec fn nikaya_marker_text(b: Seq<u8>) -> Option<Seq<char>> {
    match first_occurrence(b, nikaya_open_tag(), 0) {
        Some(i) => {
            let cs = i + nikaya_open_tag().len();
            match first_occurrence(b, nikaya_close_tag(), cs) {
                Some(j) => Some(decode_utf8(b.subrange(cs, j))),
                None => None,
            }
        },
        None => None,
    }
}

/// The error message of nikaya detection on the given XML bytes.
pub open spec fn detect_error_message(b: Seq<u8>) -> Seq<char> {
    match nikaya_marker_text(b) {
        Some(t) => "Unknown nikaya name: '"@ + trim_spec(t) + "'"@,
        None => if first_occurrence(b, nikaya_open_tag(), 0) is None {
            "Nikaya tag not found in XML content"@
        } else {
            "Nikaya tag closing not found in XML content"@
        },
    }
}

/// Detects the nikaya structure from the `<p rend="nikaya">` marker of an XML text.
///
/// Errors: no marker, no closing `</p>` after it, or a name that does not
/// normalize to a known nikaya.
pub fn detect_nikaya_structure(xml_content: &str) -> (r: Result<NikayaStructure, ParserError>)
    ensures
        match nikaya_marker_text(xml_content.spec_bytes()) {
            Some(t) => match nikaya_name_class(lowercase(trim_spec(trim_spec(t)))) {
                Some(n) => r matches Ok(s) && s.nikaya@ == n && structure_levels(n) == Some(
                    s.levels@,
                ),
                None => r matches Err(e) && e is GeneralError && e->message@
                    == detect_error_message(xml_content.spec_bytes()),
            },
            None => r matches Err(e) && e is GeneralError && e->message@ == detect_error_message(
                xml_content.spec_bytes(),
            ),
        },
{
    let bytes = xml_content.as_bytes();
    let ghost b = bytes@;
    let blen = bytes.len();
    assert(blen == b.len());
    let open_vec: Vec<u8> = vec![
        60u8, 112u8, 32u8, 114u8, 101u8, 110u8, 100u8, 61u8, 34u8, 110u8, 105u8, 107u8, 97u8,
        121u8, 97u8, 34u8, 62u8,
    ];
    let close_vec: Vec<u8> = vec![60u8, 47u8, 112u8, 62u8];
    assert(open_vec@ == nikaya_open_tag());
    assert(close_vec@ == nikaya_close_tag());
    let open_bytes = open_vec.as_slice();
    let close_bytes = close_vec.as_slice();
    let start_idx = match find_bytes(bytes, open_bytes, 0) {
        Some(i) => i,
        None => {
            proof {
                lemma_first_occurrence(b, open_bytes@, 0, None);
            }
            return Err(
                ParserError::GeneralError {
                    message: String::from_str("Nikaya tag not found in XML content"),
                },
            );
        },
    };
    proof {
        lemma_first_occurrence(b, open_bytes@, 0, Some(start_idx as int));
        assert(start_idx + open_bytes@.len() <= b.len());
    }
    let content_start = start_idx + open_bytes.len();
    let end_idx = match find_bytes(bytes, close_bytes, content_start) {
        Some(j) => j,
        None => {
            proof {
                lemma_first_occurrence(b, close_bytes@, content_start as int, None);
            }
            return Err(
                ParserError::GeneralError {
                    message: String::from_str("Nikaya tag closing not found in XML content"),
                },
            );
        },
    };
    proof {
        lemma_first_occurrence(b, close_bytes@, content_start as int, Some(end_idx as int));
        assert(b.subrange(start_idx as int, content_start as int)[16] == 62u8);
        assert(b[content_start - 1] == 62u8);
        assert(b.subrange(end_idx as int, end_idx + 4)[0] == 60u8);
        assert(b[end_idx as int] == 60u8);
        lemma_ascii_byte_is_boundary(b, xml_content@, end_idx as int);
        lemma_after_ascii_is_boundary(b, xml_content@, content_start - 1);
    }
    let name_str = substr_bytes(xml_content, content_start, end_idx);
    let nikaya_name = trim_str(name_str);
    match NikayaStructure::normalize_name(nikaya_name) {
        Some(normalized) => match NikayaStructure::from_nikaya_name(normalized.as_str()) {
            Some(s) => Ok(s),
            None => {
                let mut message = String::from_str("No structure configuration for nikaya: '");
                message.append(normalized.as_str());
                message.append("'");
                Err(ParserError::GeneralError { message })
            },
        },
        None => {
            let mut message = String::from_str("Unknown nikaya name: '");
            message.append(nikaya_name);
            message.append("'");
            Err(ParserError::GeneralError { message })
        },
    }
}

} // verus!
