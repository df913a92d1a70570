use tipitaka_xml_parser::boundaries::get_boundary_override;
use tipitaka_xml_parser::cst::{extract_number_from_title, is_numbered_sutta_subhead};
use tipitaka_xml_parser::fill::{populate_sc_fields_from_tsv, populate_sc_fields_from_tsv_conditional};
use tipitaka_xml_parser::sc::{
    derive_sc_code_from_context, derive_sc_code_from_previous, extract_non_range_base,
    find_sc_code_in_pali_titles, format_sc_code, lookup_range_cst_code, parse_sc_code,
};
use tipitaka_xml_parser::tsv::cst_code_to_sc_code_map;
use tipitaka_xml_parser::types::{
    CorrectionFragmentOverride, FragmentAdjustment, FragmentKey, FragmentKeyMap, FragmentType,
    ScCodeComponents, StringMap, XmlFragment,
};

/// A small CST to SC mapping in the layout of the project's mapping file.
const MAPPING_TSV: &str = "cst_file\tcst_code\tcst_vagga\tcst_sutta\tcst_paranum\tcode\tsutta
romn/s0101m.mul.xml\tdn1.1.0.1\t\t1. Brahmajālasuttaṃ\t1\tdn1\tBrahmajālasutta
romn/s0301m.mul.xml\tsn1.1.7.2\t7. Nandavaggo\t2. Kakudhasuttaṃ\t62\tsn1.62\tKakudhasutta
romn/s0301m.mul.xml\tsn1.1.7.3\t7. Nandavaggo\t3. Kakudhasuttaṃ\t63\tsn1.63\tKakudhasutta
";

#[test]
fn test_extract_number_from_title_with_space() {
    assert_eq!(extract_number_from_title("1. Suttavaṇṇanā"), Some("1"));
    assert_eq!(extract_number_from_title("10. Suttavaṇṇanā"), Some("10"));
    assert_eq!(extract_number_from_title("5-7. Suttādivaṇṇanā"), Some("5-7"));
    assert_eq!(extract_number_from_title("10-11. Title"), Some("10-11"));
}

#[test]
fn test_extract_number_from_title_without_space() {
    assert_eq!(extract_number_from_title("1.Sattisuttavaṇṇanā"), Some("1"));
    assert_eq!(extract_number_from_title("10.Suttavaṇṇanā"), Some("10"));
    assert_eq!(extract_number_from_title("5-7.Suttādivaṇṇanā"), Some("5-7"));
}

#[test]
fn test_extract_number_from_title_invalid() {
    assert_eq!(extract_number_from_title("Suttavaṇṇanā"), None);
    assert_eq!(extract_number_from_title(""), None);
    assert_eq!(extract_number_from_title("1 Suttavaṇṇanā"), None);
}

#[test]
fn test_is_numbered_sutta_subhead() {
    assert!(is_numbered_sutta_subhead("1. Suttaname"));
    assert!(is_numbered_sutta_subhead("10. Suttaname"));
    assert!(is_numbered_sutta_subhead("2-11. Suttaname"));

    assert!(is_numbered_sutta_subhead("9.Khayadhammasuttaṃ"));
    assert!(is_numbered_sutta_subhead("1.Suttaname"));
    assert!(is_numbered_sutta_subhead("10.Suttaname"));
    assert!(is_numbered_sutta_subhead("5-7.Suttaname"));

    assert!(!is_numbered_sutta_subhead("Anattadhammasuttaṃ"));
    assert!(!is_numbered_sutta_subhead("Vagganame"));
    assert!(!is_numbered_sutta_subhead(""));
}

#[test]
fn test_parse_sc_code_dn() {
    let result = parse_sc_code("dn1").unwrap();
    assert_eq!(result.prefix, "dn");
    assert_eq!(result.sutta, Some(1));
    assert_eq!(result.samyutta, None);
    assert_eq!(result.nipata, None);

    let result = parse_sc_code("dn34").unwrap();
    assert_eq!(result.prefix, "dn");
    assert_eq!(result.sutta, Some(34));
}

#[test]
fn test_parse_sc_code_mn() {
    let result = parse_sc_code("mn1").unwrap();
    assert_eq!(result.prefix, "mn");
    assert_eq!(result.sutta, Some(1));

    let result = parse_sc_code("mn152").unwrap();
    assert_eq!(result.prefix, "mn");
    assert_eq!(result.sutta, Some(152));
}

#[test]
fn test_parse_sc_code_sn() {
    let result = parse_sc_code("sn5.1").unwrap();
    assert_eq!(result.prefix, "sn");
    assert_eq!(result.samyutta, Some(5));
    assert_eq!(result.sutta, Some(1));

    let result = parse_sc_code("sn56.11").unwrap();
    assert_eq!(result.prefix, "sn");
    assert_eq!(result.samyutta, Some(56));
    assert_eq!(result.sutta, Some(11));
}

#[test]
fn test_parse_sc_code_an() {
    let result = parse_sc_code("an3.1").unwrap();
    assert_eq!(result.prefix, "an");
    assert_eq!(result.nipata, Some(3));
    assert_eq!(result.sutta, Some(1));

    let result = parse_sc_code("an11.1").unwrap();
    assert_eq!(result.prefix, "an");
    assert_eq!(result.nipata, Some(11));
    assert_eq!(result.sutta, Some(1));
}

#[test]
fn test_parse_sc_code_invalid() {
    assert!(parse_sc_code("invalid").is_none());
    assert!(parse_sc_code("").is_none());
    assert!(parse_sc_code("xyz").is_none());
    assert!(parse_sc_code("dn").is_none());
}

#[test]
fn test_format_sc_code() {
    let sn = ScCodeComponents {
        prefix: "sn".to_string(),
        samyutta: Some(5),
        sutta: Some(1),
        nipata: None,
    };
    assert_eq!(format_sc_code(&sn), "sn5.1");

    let an = ScCodeComponents {
        prefix: "an".to_string(),
        nipata: Some(3),
        sutta: Some(10),
        samyutta: None,
    };
    assert_eq!(format_sc_code(&an), "an3.10");

    let dn = ScCodeComponents {
        prefix: "dn".to_string(),
        sutta: Some(1),
        samyutta: None,
        nipata: None,
    };
    assert_eq!(format_sc_code(&dn), "dn1");
}

#[test]
fn test_get_boundary_override_correction_takes_precedence() {
    let mut corrections = FragmentKeyMap::new();
    corrections.insert(
        FragmentKey { cst_file: "test.xml".to_string(), frag_idx: 0 },
        CorrectionFragmentOverride {
            collapse: false,
            end_line: Some(100),
            end_char: Some(50),
            sc_code: None,
            sc_sutta: None,
            cst_code: None,
            cst_vagga: None,
            cst_sutta: None,
            cst_paranum: None,
            frag_review: None,
            frag_type: None,
        },
    );

    let mut adjustments = FragmentKeyMap::new();
    adjustments.insert(
        FragmentKey { cst_file: "test.xml".to_string(), frag_idx: 0 },
        FragmentAdjustment {
            cst_file: "test.xml".to_string(),
            frag_idx: 0,
            end_line: Some(200),
            end_char: Some(25),
        },
    );

    let result = get_boundary_override("test.xml", 0, Some(&corrections), Some(&adjustments));
    assert_eq!(result, Some((100, 50)));

    let result = get_boundary_override("test.xml", 1, Some(&corrections), Some(&adjustments));
    assert_eq!(result, None);
}

fn create_test_fragment(frag_idx: usize, cst_code: Option<&str>, sc_code: Option<&str>) -> XmlFragment {
    XmlFragment {
        nikaya: "digha".to_string(),
        cst_file: "test.xml".to_string(),
        frag_idx,
        frag_type: FragmentType::Sutta,
        frag_review: None,
        content_xml: "test content".to_string(),
        start_line: 1,
        start_char: 0,
        end_line: 10,
        end_char: 0,
        cst_code: cst_code.map(String::from),
        cst_vagga: None,
        cst_sutta: None,
        cst_paranum: None,
        sc_code: sc_code.map(String::from),
        sc_sutta: None,
        group_levels: vec![],
    }
}

fn mapping() -> StringMap<(String, String)> {
    cst_code_to_sc_code_map(MAPPING_TSV).expect("Should load TSV map")
}

#[test]
fn test_conditional_tsv_skips_existing_sc_code() {
    let mut fragments = vec![
        create_test_fragment(0, Some("dn1.1.0.1"), Some("existing_sc_code")),
        create_test_fragment(1, Some("dn1.1.0.2"), None),
        create_test_fragment(2, Some("nonexistent.code"), None),
    ];
    let original_frag0_sc = fragments[0].sc_code.clone();

    populate_sc_fields_from_tsv_conditional(&mut fragments, &mapping());

    assert_eq!(fragments[0].sc_code, original_frag0_sc);
    assert_eq!(fragments[0].sc_code.as_deref(), Some("existing_sc_code"));
}

#[test]
fn test_conditional_tsv_populates_null_sc_code() {
    let mut fragments = vec![create_test_fragment(0, Some("dn1.1.0.1"), None)];

    populate_sc_fields_from_tsv_conditional(&mut fragments, &mapping());

    assert_eq!(fragments[0].sc_code.as_deref(), Some("dn1"));
    assert_eq!(fragments[0].sc_sutta.as_deref(), Some("Brahmajālasutta"));
}

#[test]
fn test_non_conditional_tsv_overwrites() {
    let mut fragments = vec![create_test_fragment(0, Some("dn1.1.0.1"), Some("my_custom_sc_code"))];
    let original_sc = fragments[0].sc_code.clone();

    populate_sc_fields_from_tsv(&mut fragments, &mapping());

    assert!(fragments[0].sc_code.is_some() || original_sc.is_some());
    assert_eq!(fragments[0].sc_code.as_deref(), Some("dn1"));
}

#[test]
fn test_lookup_range_cst_code() {
    let tsv_map = mapping();

    assert!(tsv_map.contains_key("sn1.1.7.2"), "TSV should contain sn1.1.7.2");
    assert!(tsv_map.contains_key("sn1.1.7.3"), "TSV should contain sn1.1.7.3");

    let result = lookup_range_cst_code("sn1.1.7.2-3", &tsv_map);
    assert!(result.is_some(), "Should find range mapping for sn1.1.7.2-3");

    let (sc_code, _sc_sutta) = result.unwrap();
    assert_eq!(sc_code, "sn1.62-63", "Range sc_code should be sn1.62-63");
}

#[test]
fn test_lookup_range_cst_code_non_range() {
    let tsv_map = mapping();

    let result = lookup_range_cst_code("sn1.1.7.2", &tsv_map);
    assert!(result.is_none(), "Non-range code should not match");

    let result = lookup_range_cst_code("invalid", &tsv_map);
    assert!(result.is_none(), "Invalid code should not match");
}

#[test]
fn test_derive_sc_code_from_previous_new_samyutta() {
    let result = derive_sc_code_from_previous("sn3.10.1.1", "sn29.11-20");
    assert!(result.is_some());
    assert_eq!(result.unwrap(), "sn30.1");

    let result = derive_sc_code_from_previous("sn3.10.1.1", "sn29.21-50");
    assert!(result.is_some());
    assert_eq!(result.unwrap(), "sn30.1");

    let result = derive_sc_code_from_previous("sn3.10.1.1", "sn30.17-46");
    assert!(result.is_some());
    assert_eq!(result.unwrap(), "sn31.1");

    let result = derive_sc_code_from_previous("sn3.10.1.2", "sn30.1");
    assert!(result.is_some());
    assert_eq!(result.unwrap(), "sn30.2");
}

#[test]
fn test_derive_sc_code_from_context_range_cst_code() {
    let context = ScCodeComponents {
        prefix: "sn".to_string(),
        samyutta: Some(29),
        sutta: None,
        nipata: None,
    };
    let result = derive_sc_code_from_context("sn3.8.1.11-20", &context);
    assert!(result.is_some());
    assert_eq!(result.unwrap(), "sn29.11-20");
}

#[test]
fn test_derive_sc_code_from_context_single_cst_code() {
    let context = ScCodeComponents {
        prefix: "sn".to_string(),
        samyutta: Some(30),
        sutta: None,
        nipata: None,
    };
    let result = derive_sc_code_from_context("sn3.9.1.1", &context);
    assert!(result.is_some());
    assert_eq!(result.unwrap(), "sn30.1");
}

#[test]
fn test_find_sc_code_in_pali_titles() {
    let mut titles: StringMap<String> = StringMap::new();
    titles.insert("sn29.11-20".to_string(), "Aṇḍajadānūpakārasuttadasaka".to_string());
    titles.insert("sn29.21-50".to_string(), "Jalābujādidānūpakārasuttattiṃsaka".to_string());
    titles.insert("sn30.17-46".to_string(), "Some title".to_string());
    titles.insert("sn30.3".to_string(), "Single sutta 30.3".to_string());
    titles.insert("sn30.1".to_string(), "Single sutta 30.1".to_string());

    let (code, title) = find_sc_code_in_pali_titles("sn29.11-20", &titles).unwrap();
    assert_eq!(code, "sn29.11-20");
    assert_eq!(title, "Aṇḍajadānūpakārasuttadasaka");

    let (code, title) = find_sc_code_in_pali_titles("sn29.11", &titles).unwrap();
    assert_eq!(code, "sn29.11-20");
    assert_eq!(title, "Aṇḍajadānūpakārasuttadasaka");

    let (code, title) = find_sc_code_in_pali_titles("sn29.21", &titles).unwrap();
    assert_eq!(code, "sn29.21-50");
    assert_eq!(title, "Jalābujādidānūpakārasuttattiṃsaka");

    let (code, title) = find_sc_code_in_pali_titles("sn30.3-12", &titles).unwrap();
    assert_eq!(code, "sn30.3");
    assert_eq!(title, "Single sutta 30.3");

    assert!(find_sc_code_in_pali_titles("sn99.99", &titles).is_none());
}

#[test]
fn test_extract_non_range_base() {
    assert_eq!(extract_non_range_base("sn30.3-12"), Some("sn30.3".to_string()));
    assert_eq!(extract_non_range_base("sn29.11-20"), Some("sn29.11".to_string()));
    assert_eq!(extract_non_range_base("an3.5-10"), Some("an3.5".to_string()));

    assert_eq!(extract_non_range_base("sn30.3"), None);
    assert_eq!(extract_non_range_base("dn1"), None);
}
