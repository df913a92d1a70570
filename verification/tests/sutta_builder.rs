use tipitaka_xml_parser::html::{normalize_blank_lines, xml_to_html};
use tipitaka_xml_parser::sutta_code::find_code_for_sutta;
use tipitaka_xml_parser::tsv::load_tsv_mapping;
use tipitaka_xml_parser::tsv_export::{escape_tsv_field, tsv_header, tsv_row, FragmentTsvRecord};

const MAPPING_TSV: &str = "cst_file\tcst_code\tcst_vagga\tcst_sutta\tcst_paranum\tcode\tsutta
romn/s0201m.mul.xml\tmn1.1.1\t1. Mūlapariyāyavaggo\t1. Mūlapariyāyasuttaṃ\t1\tmn1\tMūlapariyāyasutta
romn/s0201m.mul.xml\tmn1.1.7\t1. Mūlapariyāyavaggo\t7. Vanapatthasuttaṃ\t190\tmn17\tVanapatthasutta
romn/s0201m.mul.xml\tmn1.1.10\t1. Mūlapariyāyavaggo\t10. Mahāsatipaṭṭhānasuttaṃ\t106\tmn10\tSatipaṭṭhānasutta
romn/s0201m.mul.xml\tmn1.2.1\t2. Sīhanādavaggo\t1. Cūḷasīhanādasuttaṃ\t139\tmn11\tCūḷasīhanādasutta
";

#[test]
fn finds_root_text_sutta_by_title() {
    let recs = load_tsv_mapping(MAPPING_TSV).unwrap();
    let used: Vec<String> = vec![];
    assert_eq!(
        find_code_for_sutta(&recs, "romn/s0201m.mul.xml", "1. Mūlapariyāyasuttaṃ", None, false, &used),
        Some("mn1".to_string())
    );
    assert_eq!(
        find_code_for_sutta(&recs, "s0201m.mul.xml", "No such title", None, false, &used),
        None
    );
}

#[test]
fn finds_commentary_sutta_through_candidates() {
    let recs = load_tsv_mapping(MAPPING_TSV).unwrap();
    let used: Vec<String> = vec![];
    assert_eq!(
        find_code_for_sutta(&recs, "s0201a.att.xml", "7. Vanapatthapariyāyasuttavaṇṇanā", None, true, &used),
        Some("mn17".to_string())
    );
    assert_eq!(
        find_code_for_sutta(&recs, "s0201a.att.xml", "10. Satipaṭṭhānasuttavaṇṇanā", None, true, &used),
        Some("mn10".to_string())
    );
}

#[test]
fn prefers_unused_code_with_matching_vagga() {
    let recs = load_tsv_mapping(MAPPING_TSV).unwrap();
    let used = vec!["mn1".to_string()];
    // the only record with this title has a used code: it is the fallback
    assert_eq!(
        find_code_for_sutta(&recs, "s0201m.mul.xml", "1. Mūlapariyāyasuttaṃ", None, false, &used),
        Some("mn1".to_string())
    );
    // with a vagga given, a used code is no answer at all
    assert_eq!(
        find_code_for_sutta(
            &recs,
            "s0201m.mul.xml",
            "1. Mūlapariyāyasuttaṃ",
            Some("1. Mūlapariyāyavaggo"),
            false,
            &used
        ),
        None
    );
    // another vagga: fallback to the record of a different vagga
    assert_eq!(
        find_code_for_sutta(
            &recs,
            "s0201m.mul.xml",
            "1. Cūḷasīhanādasuttaṃ",
            Some("9. Other"),
            false,
            &vec![]
        ),
        Some("mn11".to_string())
    );
}

#[test]
fn html_of_paragraphs_and_headings() {
    let xml = r#"<head rend="chapter">1. Title</head>
<p rend="bodytext" n="5">A &amp; <hi rend="bold">b</hi><pb ed="M" n="1.2"/></p>"#;
    let html = xml_to_html(xml).unwrap();
    assert_eq!(
        html,
        "<h2 class=\"chapter\">1. Title</h2>\n\n<p class=\"bodytext\"><span class=\"paranum\">5</span> A &amp; <span class=\"bold\">b</span><span class=\"pagebreak\" data-ed=\"M\" data-n=\"1.2\"></span></p>\n"
    );
}

#[test]
fn html_centre_note_and_div() {
    let xml = r#"<div type="sutta" id="dn1"><p rend="centre">x<note>n</note></p></div>"#;
    assert_eq!(
        xml_to_html(xml).unwrap(),
        "<div class=\"sutta\" id=\"dn1\"><p class=\"centered\">x<span class=\"note\">[n]</span></p>\n</div>\n"
    );
}

#[test]
fn blank_lines_are_collapsed() {
    assert_eq!(normalize_blank_lines("a\n\n\n\nb\n\nc\n\n\n"), "a\n\nb\n\nc\n\n");
    assert_eq!(normalize_blank_lines("no newline"), "no newline");
}

#[test]
fn test_escape_tsv_field() {
    assert_eq!(escape_tsv_field("hello"), "hello");
    assert_eq!(escape_tsv_field("hello\tworld"), "hello\\tworld");
    assert_eq!(escape_tsv_field("hello\nworld"), "hello\\nworld");
    assert_eq!(escape_tsv_field("hello\rworld"), "hello\\rworld");
    assert_eq!(escape_tsv_field("a\tb\nc\rd"), "a\\tb\\nc\\rd");
}

#[test]
fn tsv_row_layout() {
    let r = FragmentTsvRecord {
        cst_file: "test.xml".to_string(),
        frag_idx_code: "1".to_string(),
        frag_type: "Sutta".to_string(),
        frag_review: None,
        nikaya: "digha".to_string(),
        cst_code: Some("dn1.1".to_string()),
        sc_code: Some("dn1".to_string()),
        cst_vagga: None,
        cst_sutta: Some("1. B".to_string()),
        cst_paranum: Some("1".to_string()),
        sc_sutta: None,
        start_line: 6,
        start_char: 42,
        end_line: 100,
        end_char: -1,
        group_levels: "[]".to_string(),
    };
    assert_eq!(
        tsv_row(&r),
        "test.xml\t1\tSutta\t\tdigha\tdn1.1\tdn1\t\t1. B\t1\t\t6\t42\t100\t-1\t[]"
    );
    assert!(tsv_header().starts_with("cst_file\tfrag_idx_code\t"));
}

#[test]
fn test_export_fragments_to_tsv() {
    let r = FragmentTsvRecord {
        cst_file: "test.xml".to_string(),
        frag_idx_code: "0".to_string(),
        frag_type: "Header".to_string(),
        frag_review: None,
        nikaya: "digha".to_string(),
        cst_code: None,
        sc_code: None,
        cst_vagga: None,
        cst_sutta: None,
        cst_paranum: None,
        sc_sutta: None,
        start_line: 1,
        start_char: 0,
        end_line: 6,
        end_char: 42,
        group_levels: "[]".to_string(),
    };
    let content = format!("{}\n{}\n", tsv_header(), tsv_row(&r));
    let lines: Vec<&str> = content.lines().collect();
    assert_eq!(lines.len(), 2);
    assert!(lines[0].starts_with("cst_file\t"));
    assert!(lines[1].contains("test.xml"));
    assert!(lines[1].contains("digha"));
}
