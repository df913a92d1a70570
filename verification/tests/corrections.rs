use tipitaka_xml_parser::corrections::{correction_overrides_from_rows, inserted_rows, review_statuses, CorrectionRow};
use tipitaka_xml_parser::types::FragmentType;

fn row(idx: i32, review: Option<&str>, frag_type: &str) -> CorrectionRow {
    CorrectionRow {
        cst_file: "s.xml".to_string(),
        frag_idx: idx,
        frag_sub: 0,
        end_line: 10 + idx,
        end_char: 5,
        sc_code: Some("dn1".to_string()),
        sc_sutta: None,
        cst_code: Some("dn1.1".to_string()),
        cst_vagga: None,
        cst_sutta: None,
        cst_paranum: None,
        frag_review: review.map(String::from),
        frag_type: frag_type.to_string(),
    }
}

#[test]
fn reviewed_fragments_give_overrides() {
    let rows = vec![
        row(0, None, "Header"),
        row(1, Some(""), "Sutta"),
        row(2, Some("unchecked"), "Sutta"),
        row(3, Some("checked"), "Sutta"),
        row(4, Some("moved"), "Header"),
    ];
    let m = correction_overrides_from_rows(&rows);
    assert!(m.get("s.xml", 0).is_none());
    assert!(m.get("s.xml", 1).is_none());
    assert!(m.get("s.xml", 2).is_none());
    let o = m.get("s.xml", 3).unwrap();
    assert!(!o.collapse);
    assert_eq!(o.end_line, Some(13));
    assert_eq!(o.end_char, Some(5));
    assert_eq!(o.sc_code.as_deref(), Some("dn1"));
    assert_eq!(o.frag_type, Some(FragmentType::Sutta));
    let moved = m.get("s.xml", 4).unwrap();
    assert!(moved.collapse);
    assert_eq!(moved.end_line, None);
    assert_eq!(moved.sc_code, None);
    assert_eq!(moved.frag_review.as_deref(), Some("moved"));
    assert_eq!(moved.frag_type, Some(FragmentType::Header));
    assert!(m.get("other.xml", 3).is_none());
}

fn stored(file: &str, idx: i32, review: Option<&str>, end: (i32, i32), sc: Option<&str>, sc_sutta: Option<&str>) -> CorrectionRow {
    CorrectionRow {
        cst_file: file.to_string(),
        frag_idx: idx,
        frag_sub: 0,
        end_line: end.0,
        end_char: end.1,
        sc_code: sc.map(String::from),
        sc_sutta: sc_sutta.map(String::from),
        cst_code: None,
        cst_vagga: None,
        cst_sutta: None,
        cst_paranum: None,
        frag_review: review.map(String::from),
        frag_type: "Sutta".to_string(),
    }
}

#[test]
fn test_extract_correction_overrides() {
    let rows = vec![
        stored("s0301m.mul.xml", 162, Some("checked"), (10, 50), Some("sn5.1"), Some("Āḷavikāsutta")),
        stored("s0301m.mul.xml", 163, Some("in-progress"), (20, 60), None, None),
        stored("s0301m.mul.xml", 164, Some("unchecked"), (30, 70), None, None),
        stored("s0301m.mul.xml", 165, None, (40, 80), None, None),
    ];
    let overrides = correction_overrides_from_rows(&rows);
    assert_eq!(overrides.len(), 2, "Should extract 2 correction overrides");
    let o162 = overrides.get("s0301m.mul.xml", 162).expect("Should have override for 162");
    assert!(!o162.collapse, "Checked fragment should not be collapsed");
    assert_eq!(o162.sc_code, Some("sn5.1".to_string()));
    assert_eq!(o162.sc_sutta, Some("Āḷavikāsutta".to_string()));
    assert_eq!(o162.end_line, Some(10));
    assert_eq!(o162.end_char, Some(50));
    assert_eq!(o162.frag_review.as_deref(), Some("checked"));
    assert_eq!(
        overrides.get("s0301m.mul.xml", 163).unwrap().frag_review.as_deref(),
        Some("in-progress")
    );
    assert!(overrides.get("s0301m.mul.xml", 164).is_none(), "Unchecked fragment should not be extracted");
}

#[test]
fn test_extract_all_correction_overrides() {
    let rows = vec![
        stored("file1.xml", 0, Some("checked"), (10, 50), Some("sn1.1"), None),
        stored("file2.xml", 5, Some("checked"), (10, 50), Some("sn2.1"), None),
        stored("file2.xml", 6, Some("unchecked"), (20, 60), None, None),
    ];
    let overrides = correction_overrides_from_rows(&rows);
    assert_eq!(overrides.len(), 2, "Should extract 2 checked overrides from all files");
    assert_eq!(overrides.get("file1.xml", 0).unwrap().sc_code, Some("sn1.1".to_string()));
    assert_eq!(overrides.get("file2.xml", 5).unwrap().sc_code, Some("sn2.1".to_string()));
    assert!(overrides.get("file2.xml", 6).is_none());
}

fn sub(file: &str, idx: i32, sub: i32, review: Option<&str>) -> CorrectionRow {
    let mut r = stored(file, idx, review, (idx, sub), None, None);
    r.frag_sub = sub;
    r
}

#[test]
fn inserted_fragments_give_no_override() {
    let rows = vec![
        sub("a.xml", 21, 0, Some("checked")),
        sub("a.xml", 21, 1, Some("checked")),
        sub("a.xml", 22, 0, Some("moved")),
    ];
    let m = correction_overrides_from_rows(&rows);
    assert_eq!(m.len(), 2);
    assert_eq!(m.get("a.xml", 21).unwrap().end_char, Some(0));
    assert!(m.get("a.xml", 22).unwrap().collapse);
}

#[test]
fn repeated_key_counts_once() {
    let rows = vec![
        sub("a.xml", 3, 0, Some("checked")),
        sub("a.xml", 3, 0, Some("moved")),
    ];
    let m = correction_overrides_from_rows(&rows);
    assert_eq!(m.len(), 1);
    assert!(m.get("a.xml", 3).unwrap().collapse);
}

#[test]
fn inserted_fragments_are_split_off_and_ordered_by_code() {
    let rows = vec![
        sub("a.xml", 22, 2, Some("checked")),
        sub("b.xml", 1, 1, Some("checked")),
        sub("a.xml", 21, 1, Some("checked")),
        sub("a.xml", 21, 0, Some("checked")),
        sub("a.xml", 22, 1, Some("in-progress")),
        sub("a.xml", 5, 1, Some("unchecked")),
        sub("a.xml", 4, 1, None),
        sub("a.xml", 21, 3, Some("checked")),
    ];
    assert_eq!(inserted_rows(&rows, "a.xml"), vec![2, 7, 4, 0]);
    assert_eq!(inserted_rows(&rows, "b.xml"), vec![1]);
    assert!(inserted_rows(&rows, "c.xml").is_empty());
}

#[test]
fn review_status_by_code() {
    let rows = vec![
        sub("a.xml", 21, 0, Some("checked")),
        sub("a.xml", 21, 1, Some("in-progress")),
        sub("a.xml", 22, 0, Some("unchecked")),
        sub("b.xml", 21, 0, Some("moved")),
        sub("a.xml", 23, 0, None),
    ];
    let m = review_statuses(&rows, "a.xml");
    assert_eq!(m.len(), 2);
    assert_eq!(m.get("21.0").map(|s| s.as_str()), Some("checked"));
    assert_eq!(m.get("21.1").map(|s| s.as_str()), Some("in-progress"));
    assert!(m.get("22.0").is_none());
    assert!(m.get("23.0").is_none());
}
