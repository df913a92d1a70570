use tipitaka_xml_parser::fragment_edit::{
    calculate_end_position, find_target_fragment, frag_code_string, increment_frag_idx_code, merge_into,
    next_sub_index, parse_frag_idx_code, plan_insert, plan_merge_delete, plan_move,
    recalculate_boundaries, validate_boundary_chain, validate_content_integrity, Direction,
    StoredFragment,
};

fn frag(code: &str, review: Option<&str>, content: &str, bounds: (i32, i32, i32, i32)) -> StoredFragment {
    StoredFragment {
        frag_idx_code: code.to_string(),
        frag_review: review.map(String::from),
        content_xml: content.to_string(),
        start_line: bounds.0,
        start_char: bounds.1,
        end_line: bounds.2,
        end_char: bounds.3,
    }
}

fn sample() -> Vec<StoredFragment> {
    vec![
        frag("0", None, "<a>\n", (1, 0, 2, 0)),
        frag("1", Some("moved"), "", (0, 0, 0, 0)),
        frag("2", None, "text", (2, 0, 2, 4)),
        frag("3", None, "\n</a>", (2, 4, 3, 4)),
    ]
}

#[test]
fn target_skips_moved_fragments() {
    let f = sample();
    assert_eq!(find_target_fragment(&f, "2", Direction::Prev), Some(0));
    assert_eq!(find_target_fragment(&f, "0", Direction::Next), Some(2));
    assert_eq!(find_target_fragment(&f, "0", Direction::Prev), None);
    assert_eq!(find_target_fragment(&f, "3", Direction::Next), None);
    assert_eq!(find_target_fragment(&f, "9", Direction::Next), None);
}

#[test]
fn merge_joins_contents_in_file_order() {
    let f = sample();
    let m = merge_into(&f[2], &f[0], Direction::Prev);
    assert_eq!(m.content_xml, "<a>\n\ntext");
    assert_eq!((m.start_line, m.start_char, m.end_line, m.end_char), (1, 0, 2, 4));
    let m = merge_into(&f[2], &f[3], Direction::Next);
    assert_eq!(m.content_xml, "text\n\n</a>");
    assert_eq!((m.start_line, m.start_char, m.end_line, m.end_char), (2, 0, 3, 4));
}

#[test]
fn move_plan_and_its_errors() {
    let f = sample();
    let plan = plan_move(&f, "3", Direction::Prev).unwrap();
    assert_eq!((plan.current, plan.target), (3, 2));
    assert_eq!(
        plan_move(&f, "0", Direction::Prev).unwrap_err(),
        "Cannot move to previous: no valid target fragment found (boundary reached or all adjacent fragments are moved)"
    );
    assert_eq!(plan_move(&f, "7", Direction::Next).unwrap_err(), "Failed to load current fragment");
}

#[test]
fn boundary_chain_reports_gaps() {
    assert!(validate_boundary_chain(&sample()).is_empty());
    let mut f = sample();
    f[3].start_char = 5;
    let gaps = validate_boundary_chain(&f);
    assert_eq!(gaps.len(), 1);
    assert_eq!(gaps[0].frag_idx_code, "3");
    assert_eq!((gaps[0].expected_start_line, gaps[0].expected_start_char), (2, 4));
    assert_eq!((gaps[0].actual_start_line, gaps[0].actual_start_char), (2, 5));
}

#[test]
fn end_positions() {
    assert_eq!(calculate_end_position("", 3, 7), (3, 7));
    assert_eq!(calculate_end_position("ab", 1, 0), (1, 2));
    assert_eq!(calculate_end_position("a\nbc\n", 1, 5), (3, 0));
    assert_eq!(calculate_end_position("ā\nṃx", 2, 0), (3, 2));
}

#[test]
fn recalculated_boundaries_form_a_chain() {
    let mut f = sample();
    f[2].start_line = 9;
    let bounds = recalculate_boundaries(&f);
    assert_eq!(bounds[0], Some((1, 0, 2, 0)));
    assert_eq!(bounds[1], None);
    assert_eq!(bounds[2], Some((2, 0, 2, 4)));
    assert_eq!(bounds[3], Some((2, 4, 3, 4)));
    for (g, b) in f.iter_mut().zip(bounds.iter()) {
        if let Some((sl, sc, el, ec)) = b {
            g.start_line = *sl;
            g.start_char = *sc;
            g.end_line = *el;
            g.end_char = *ec;
        }
    }
    assert!(validate_boundary_chain(&f).is_empty());
}

#[test]
fn content_integrity_messages() {
    let f = sample();
    assert!(validate_content_integrity(13, &f).is_none());
    let dup = validate_content_integrity(10, &f).unwrap();
    assert_eq!(dup.difference, 3);
    assert_eq!(
        dup.message,
        "Content DUPLICATION detected: stored content is 3 bytes larger than original file. Expected 10 bytes, found 13 bytes."
    );
    let loss = validate_content_integrity(20, &f).unwrap();
    assert_eq!(loss.difference, -7);
    assert_eq!(
        loss.message,
        "Content LOSS detected: stored content is 7 bytes smaller than original file. Expected 20 bytes, found 13 bytes."
    );
}

#[test]
fn frag_idx_codes_parse_and_increment() {
    assert_eq!(parse_frag_idx_code("21.0"), Some((21, 0)));
    assert_eq!(parse_frag_idx_code("12.2"), Some((12, 2)));
    assert_eq!(parse_frag_idx_code("12"), None);
    assert_eq!(parse_frag_idx_code("a.1"), None);
    assert_eq!(parse_frag_idx_code(".1"), None);
    assert_eq!(parse_frag_idx_code("4294967296.0"), None);
    assert_eq!(increment_frag_idx_code("5.0").as_deref(), Some("6.0"));
    assert_eq!(increment_frag_idx_code("10.3").as_deref(), Some("11.0"));
    assert_eq!(increment_frag_idx_code("x"), None);
}

#[test]
fn next_sub_index_takes_the_next_free_minor() {
    let codes: Vec<String> = vec!["20.0", "21.0", "22.0"].into_iter().map(String::from).collect();
    assert_eq!(next_sub_index(&codes, 21), "21.1");
    let codes: Vec<String> = vec!["12.0", "12.2", "12.1", "13.0"].into_iter().map(String::from).collect();
    assert_eq!(next_sub_index(&codes, 12), "12.3");
    assert_eq!(next_sub_index(&codes, 14), "14.1");
    for major in [12, 13, 14] {
        assert!(!codes.contains(&next_sub_index(&codes, major)));
    }
}

fn coded() -> Vec<StoredFragment> {
    vec![
        frag("0.0", None, "<a>\n", (1, 0, 2, 0)),
        frag("1.0", Some("moved"), "", (0, 0, 0, 0)),
        frag("2.0", None, "text", (2, 0, 2, 4)),
        frag("2.1", None, "", (2, 4, 2, 4)),
        frag("3.0", Some("checked"), "\n</a>", (2, 4, 3, 4)),
    ]
}

#[test]
fn insert_before_and_after() {
    let f = coded();
    let p = plan_insert(&f, "2.0", Direction::Prev).unwrap();
    assert_eq!(p.frag_idx_code, "0.1");
    assert_eq!(p.source, 0);
    assert_eq!((p.boundary_line, p.boundary_char), (2, 0));
    assert!(p.next_update.is_none());

    let p = plan_insert(&f, "2.0", Direction::Next).unwrap();
    assert_eq!(p.frag_idx_code, "2.2");
    assert_eq!(p.source, 2);
    assert_eq!((p.boundary_line, p.boundary_char), (2, 4));
    assert_eq!(p.next_update, Some((3, "checked".to_string())));

    let p = plan_insert(&f, "2.1", Direction::Next).unwrap();
    assert_eq!(p.next_update, Some((4, "checked".to_string())));

    let p = plan_insert(&f, "3.0", Direction::Next).unwrap();
    assert_eq!(p.frag_idx_code, "3.1");
    assert!(p.next_update.is_none());
}

#[test]
fn insert_errors() {
    let f = coded();
    assert_eq!(plan_insert(&f, "9.0", Direction::Next).unwrap_err(), "Failed to load current fragment");
    assert_eq!(
        plan_insert(&f, "1.0", Direction::Next).unwrap_err(),
        "Cannot insert adjacent to a moved fragment"
    );
    assert_eq!(
        plan_insert(&f, "0.0", Direction::Prev).unwrap_err(),
        "Cannot insert before the first fragment"
    );
}

#[test]
fn merge_delete_only_inserted_fragments() {
    let f = coded();
    assert_eq!(
        plan_merge_delete(&f, "2.0", Direction::Prev).unwrap_err(),
        "Cannot merge-delete a primary fragment (minor index is 0). Only sub-fragments (e.g. 12.1, 12.2) can be merge-deleted."
    );
    let plan = plan_merge_delete(&f, "2.1", Direction::Prev).unwrap();
    assert_eq!((plan.current, plan.target), (3, 2));
    assert_eq!(plan.merged.content_xml, "text\n");
    assert_eq!(
        (plan.merged.start_line, plan.merged.start_char, plan.merged.end_line, plan.merged.end_char),
        (2, 0, 2, 4)
    );
    let last = vec![frag("4.1", None, "x", (1, 0, 1, 1))];
    assert_eq!(
        plan_merge_delete(&last, "4.1", Direction::Next).unwrap_err(),
        "Cannot merge to next: no valid target fragment found"
    );
}

#[test]
fn written_codes_read_back() {
    for (a, b) in [(0u32, 0u32), (7, 0), (21, 1), (4294967295, 12)] {
        let code = frag_code_string(a as u64, b as u64);
        assert_eq!(parse_frag_idx_code(&code), Some((a, b)));
    }
}
