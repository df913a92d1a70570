use tipitaka_xml_parser::integration::{
    check_row_count, reconstruct_xml, validate_first_last_headers, verify_reconstruction,
    TipitakaImporter,
};
use tipitaka_xml_parser::tsv::cst_code_to_sc_code_map;
use tipitaka_xml_parser::types::{FragmentType, ParserError, ParserOverrides, XmlFragment};

fn fragment(idx: usize, frag_type: FragmentType, content: &str) -> XmlFragment {
    XmlFragment {
        nikaya: "digha".to_string(),
        frag_type,
        content_xml: content.to_string(),
        start_line: idx + 1,
        end_line: idx + 1,
        start_char: 0,
        end_char: content.len(),
        group_levels: vec![],
        cst_file: "test.xml".to_string(),
        frag_idx: idx,
        frag_review: None,
        cst_code: None,
        cst_vagga: None,
        cst_sutta: None,
        cst_paranum: None,
        sc_code: None,
        sc_sutta: None,
    }
}

#[test]
fn test_validate_first_last_headers_success() {
    let fragments = vec![
        fragment(0, FragmentType::Header, "<header>Start</header>"),
        fragment(1, FragmentType::Sutta, "<p>Content</p>"),
        fragment(2, FragmentType::Header, "<header>End</header>"),
    ];
    let result = validate_first_last_headers(&fragments, "test.xml");
    assert!(result.is_ok(), "Should pass validation when first and last are Headers");
}

#[test]
fn test_validate_first_last_headers_first_not_header() {
    let fragments = vec![
        fragment(0, FragmentType::Sutta, "<p>Content</p>"),
        fragment(1, FragmentType::Header, "<header>End</header>"),
    ];
    let result = validate_first_last_headers(&fragments, "test.xml");
    assert!(result.is_err(), "Should fail validation when first is not Header");
    let err_msg = result.unwrap_err().to_string();
    assert!(err_msg.contains("first fragment"), "Error should mention first fragment");
    assert!(err_msg.contains("Sutta"), "Error should mention actual type");
}

#[test]
fn test_validate_first_last_headers_last_not_header() {
    let fragments = vec![
        fragment(0, FragmentType::Header, "<header>Start</header>"),
        fragment(1, FragmentType::Sutta, "<p>Content</p>"),
    ];
    let result = validate_first_last_headers(&fragments, "test.xml");
    assert!(result.is_err(), "Should fail validation when last is not Header");
    let err_msg = result.unwrap_err().to_string();
    assert!(err_msg.contains("last fragment"), "Error should mention last fragment");
    assert!(err_msg.contains("Sutta"), "Error should mention actual type");
}

#[test]
fn test_validate_first_last_headers_empty() {
    let fragments: Vec<XmlFragment> = vec![];
    let result = validate_first_last_headers(&fragments, "test.xml");
    assert!(result.is_err(), "Should fail validation when no fragments");
    let err_msg = result.unwrap_err().to_string();
    assert!(err_msg.contains("no fragments found"), "Error should mention no fragments");
}

#[test]
fn header_failure_message_is_exact() {
    let fragments = vec![
        fragment(0, FragmentType::Header, "<a/>"),
        fragment(1, FragmentType::Sutta, "<p/>"),
    ];
    let err = validate_first_last_headers(&fragments, "f.xml").unwrap_err();
    assert_eq!(
        err.to_string(),
        "Header validation failed for f.xml: last fragment (frag_idx_code 1.0) is Sutta, expected Header"
    );
}

#[test]
fn test_reconstruction_verification_error_is_typed() {
    let err = ParserError::ReconstructionVerificationFailed {
        filename: "test.xml".to_string(),
        details: "length mismatch (original: 100 bytes, reconstructed: 90 bytes)".to_string(),
    };
    assert!(err.is_critical(), "ReconstructionVerificationFailed should be critical");
    let display = err.to_string();
    assert!(display.contains("test.xml"), "Display should contain filename");
    assert!(display.contains("length mismatch"), "Display should contain details");
}

#[test]
fn reconstruction_length_mismatch_details() {
    let err = verify_reconstruction("a.xml", "abcdef", "abc").unwrap_err();
    match err {
        ParserError::ReconstructionVerificationFailed { filename, details } => {
            assert_eq!(filename, "a.xml");
            assert_eq!(details, "length mismatch (original: 6 bytes, reconstructed: 3 bytes)");
        }
        _ => panic!("wrong error"),
    }
}

#[test]
fn reconstruction_first_difference_details() {
    let err = verify_reconstruction("a.xml", "abcd", "abXd").unwrap_err();
    match err {
        ParserError::ReconstructionVerificationFailed { details, .. } => {
            assert_eq!(details, "at position 2: expected 'c', got 'X'\nContext: abcd");
        }
        _ => panic!("wrong error"),
    }
    assert!(verify_reconstruction("a.xml", "same", "same").is_ok());
}

#[test]
fn row_count_check() {
    assert!(check_row_count("f.xml", 3, None).is_ok());
    assert!(check_row_count("f.xml", 3, Some(3)).is_ok());
    match check_row_count("f.xml", 3, Some(4)).unwrap_err() {
        ParserError::RowCountMismatch { filename, new_count, ref_count } => {
            assert_eq!(filename, "f.xml");
            assert_eq!(new_count, 3);
            assert_eq!(ref_count, 4);
        }
        _ => panic!("wrong error"),
    }
}

#[test]
fn reconstruct_concatenates_contents() {
    let fragments = vec![
        fragment(0, FragmentType::Header, "<a>"),
        fragment(1, FragmentType::Sutta, "x\n"),
        fragment(2, FragmentType::Header, "</a>"),
    ];
    assert_eq!(reconstruct_xml(&fragments), "<a>x\n</a>");
}

const DN_XML: &str = r#"<?xml version="1.0" encoding="UTF-8"?>
<TEI.2>
<teiHeader></teiHeader>
<text>
<body>
<p rend="nikaya">Dīghanikāyo</p>
<div id="dn1" type="book">
<head rend="book">Sīlakkhandhavaggapāḷi</head>
<div id="dn1_1" type="sutta">
<head rend="chapter">1. Brahmajālasutta</head>
<p rend="bodytext" n="1">Evaṃ me sutaṃ.</p>
</div>
</div>
</body>
</text>
</TEI.2>"#;

const MAPPING_TSV: &str = "cst_file\tcst_code\tcst_vagga\tcst_sutta\tcst_paranum\tcode\tsutta
romn/s0101m.mul.xml\tdn1.1\t\t1. Brahmajālasuttaṃ\t1\tdn1\tBrahmajālasutta
";

fn importer() -> TipitakaImporter {
    let mut overrides = ParserOverrides::default();
    overrides.sc_code_map = Some(cst_code_to_sc_code_map(MAPPING_TSV).unwrap());
    TipitakaImporter::new().unwrap().with_overrides(overrides)
}

#[test]
fn export_gives_fragments_that_rebuild_the_file() {
    let frags = importer().export_fragments("s0101m.mul.xml", DN_XML, None).unwrap();
    assert!(frags.len() >= 2);
    assert_eq!(frags[0].frag_type, FragmentType::Header);
    assert_eq!(frags[frags.len() - 1].frag_type, FragmentType::Header);
    assert_eq!(reconstruct_xml(&frags), DN_XML);
}

#[test]
fn export_checks_reference_count() {
    let n = importer().export_fragments("s0101m.mul.xml", DN_XML, None).unwrap().len();
    assert!(importer().export_fragments("s0101m.mul.xml", DN_XML, Some(n)).is_ok());
    match importer().export_fragments("s0101m.mul.xml", DN_XML, Some(n + 1)).unwrap_err() {
        ParserError::RowCountMismatch { new_count, ref_count, .. } => {
            assert_eq!(new_count, n);
            assert_eq!(ref_count, n + 1);
        }
        e => panic!("wrong error {:?}", e),
    }
}

#[test]
fn importer_builders_keep_settings() {
    let imp = TipitakaImporter::new().unwrap().with_reference_db("ref.sqlite3".to_string());
    assert_eq!(imp.reference_db_path().map(|s| s.as_str()), Some("ref.sqlite3"));
    assert!(imp.overrides().sc_code_map.is_none());
    let imp = imp.with_overrides(ParserOverrides::default());
    assert_eq!(imp.reference_db_path().map(|s| s.as_str()), Some("ref.sqlite3"));
}
