use tipitaka_xml_parser::tsv::{load_cst_sc_references, load_tsv_mapping};
use tipitaka_xml_parser::tsv_diff::{check_tsv_improvements, parse_tsv_rows};

const REFERENCE_TSV: &str = "cst_file\tcst_code\tcst_vagga\tcst_sutta\tcst_paranum\tcode\tsutta
romn/s0101m.mul.xml\tdn1.1\t\t1. Brahmajālasuttaṃ\t1\tdn1\tBrahmajālasutta
romn/s0101m.mul.xml\tdn1.2\t\t2. Sāmaññaphalasuttaṃ\t150\tdn2\tSāmaññaphalasutta
";

const HEADER: &str = "cst_file\tfrag_idx\tfrag_type\tfrag_review\tnikaya\tcst_code\tsc_code\tcst_vagga\tcst_sutta\tcst_paranum\tsc_sutta\tstart_line\tstart_char\tend_line\tend_char\tgroup_levels";

#[test]
fn test_load_cst_sc_references() {
    let references = load_cst_sc_references(REFERENCE_TSV).unwrap();
    assert!(!references.is_empty());
    assert!(references.contains_key("dn1.1"));
    let dn1_sutta = references.get("dn1.1").unwrap();
    assert_eq!(dn1_sutta, "1. Brahmajālasuttaṃ");
}

#[test]
fn test_load_tsv_mapping() {
    let records = load_tsv_mapping(REFERENCE_TSV).expect("Failed to load TSV mapping");
    assert!(!records.is_empty(), "TSV mapping should contain records");
    let first = &records[0];
    assert!(!first.tsv_cst_file.is_empty());
    assert!(!first.tsv_cst_code.is_empty());
    assert!(!first.tsv_sc_code.is_empty());
    let dn1 = records.iter().find(|r| r.tsv_sc_code == "dn1").expect("Should find DN 1 record");
    assert_eq!(
        dn1.tsv_cst_file.trim_start_matches("romn/").trim_start_matches("mula/"),
        "s0101m.mul.xml"
    );
    assert_eq!(dn1.tsv_cst_sutta, "1. Brahmajālasuttaṃ");
    assert_eq!(dn1.tsv_cst_vagga, "");
}

#[test]
fn test_parse_tsv_file() {
    let tsv_content = format!(
        "{}\ns0101m.mul.xml\t0\tHeader\t\tdigha\t\t\t\t\t\t\t1\t0\t6\t42\t[]\ns0101m.mul.xml\t1\tSutta\t\tdigha\tdn1.1\tdn1\t\t1. Brahmajālasuttaṃ\t1\tBrahmajālasutta\t6\t42\t100\t0\t[]\n",
        HEADER
    );
    let rows = parse_tsv_rows(&tsv_content).unwrap();

    assert_eq!(rows.len(), 2);
    assert_eq!(rows[0].cst_file, "s0101m.mul.xml");
    assert_eq!(rows[0].frag_idx, 0);
    assert_eq!(rows[0].cst_code, None);

    assert_eq!(rows[1].cst_file, "s0101m.mul.xml");
    assert_eq!(rows[1].frag_idx, 1);
    assert_eq!(rows[1].cst_code, Some("dn1.1".to_string()));
    assert_eq!(rows[1].cst_sutta, Some("1. Brahmajālasuttaṃ".to_string()));
}

fn export_with_title(title: &str) -> String {
    format!(
        "{}\ns0101m.mul.xml\t1\tSutta\t\tdigha\tdn1.1\tdn1\t\t{}\t1\tBrahmajālasutta\t6\t42\t100\t0\t[]\n",
        HEADER, title
    )
}

#[test]
fn test_check_tsv_improvements_old_wrong_new_fixed() {
    let old_tsv = export_with_title("Wrong Title");
    let new_tsv = export_with_title("1. Brahmajālasuttaṃ");
    let result = check_tsv_improvements(REFERENCE_TSV, &old_tsv, &new_tsv).unwrap();
    assert_eq!(result.total_rows, 1);
    assert_eq!(result.differing_rows, 1);
    assert_eq!(result.validation_errors.len(), 0);
}

#[test]
fn test_check_tsv_regression() {
    let old_tsv = export_with_title("1. Brahmajālasuttaṃ");
    let new_tsv = export_with_title("Wrong Title");
    let result = check_tsv_improvements(REFERENCE_TSV, &old_tsv, &new_tsv).unwrap();
    assert_eq!(result.total_rows, 1);
    assert_eq!(result.differing_rows, 1);
    assert_eq!(result.validation_errors.len(), 1);

    let error = &result.validation_errors[0];
    assert_eq!(error.cst_code, "dn1.1");
    assert_eq!(error.actual_cst_sutta, Some("Wrong Title".to_string()));
    assert_eq!(error.expected_cst_sutta, "1. Brahmajālasuttaṃ");
}

#[test]
fn unchanged_rows_do_not_differ() {
    let tsv = export_with_title("1. Brahmajālasuttaṃ");
    let result = check_tsv_improvements(REFERENCE_TSV, &tsv, &tsv).unwrap();
    assert_eq!(result.total_rows, 1);
    assert_eq!(result.differing_rows, 0);
    assert!(result.validation_errors.is_empty());
}

#[test]
fn changed_code_checked_against_its_own_reference() {
    let old_tsv = export_with_title("1. Brahmajālasuttaṃ");
    let new_tsv = format!(
        "{}\ns0101m.mul.xml\t1\tSutta\t\tdigha\tdn1.2\tdn2\t\t2. Sāmaññaphalasuttaṃ\t1\tx\t6\t42\t100\t0\t[]\n",
        HEADER
    );
    let result = check_tsv_improvements(REFERENCE_TSV, &old_tsv, &new_tsv).unwrap();
    assert_eq!(result.differing_rows, 1);
    assert!(result.validation_errors.is_empty());
}

#[test]
fn unreadable_export_is_an_error() {
    let bad = format!("{}\nonly\ttwo\n", HEADER);
    assert!(parse_tsv_rows(&bad).is_err());
    let bad_index = format!(
        "{}\ns.xml\tnot-a-number\tSutta\t\tdigha\t\t\t\t\t\t\t1\t0\t6\t42\t[]\n",
        HEADER
    );
    assert!(parse_tsv_rows(&bad_index).is_err());
}
