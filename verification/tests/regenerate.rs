use tipitaka_xml_parser::regenerate::{
    parse_tipitaka_xml_files, regression_report, summarize_imports, RegenerateAction,
    RegenerateConfig, RegenerateEvent, RegenerateNames, RegenerateResult, RegenerateRun, XmlSource,
};
use tipitaka_xml_parser::tsv_diff::{DiffCheckResult, ValidationError};
use tipitaka_xml_parser::types::{ParserError, ParserOverrides};

#[test]
fn test_regenerate_config() {
    let config = RegenerateConfig {
        db_path: "./data/fragments.sqlite3".to_string(),
        new_db_path: "./data/fragments-new.sqlite3".to_string(),
        reference_db_path: "./data/fragments-reference.sqlite3".to_string(),
        new_tsv_path: "./data/fragments-new.tsv".to_string(),
        reference_tsv_path: "./data/fragments-reference.tsv".to_string(),
        xml_dir: "./xml".to_string(),
        xml_filenames: vec!["s0101m.mul.xml".to_string()],
        use_reference_db: true,
        pali_titles: None,
    };
    assert!(config.use_reference_db);
    assert_eq!(config.xml_filenames.len(), 1);
}

#[test]
fn error_result_is_not_a_success() {
    let r = RegenerateResult::error("ERROR: x\n".to_string());
    assert!(!r.success);
    assert!(!r.db_replaced);
    assert_eq!(r.output, "ERROR: x\n");
}

#[test]
fn empty_file_list_is_an_error() {
    let err = parse_tipitaka_xml_files(&vec![], ParserOverrides::default()).unwrap_err();
    assert_eq!(err.to_string(), "No XML files to process");
}

#[test]
fn unreadable_files_count_as_errors() {
    let sources = vec![XmlSource {
        filename: "missing.xml".to_string(),
        content: Err("Failed to open file".to_string()),
        reference_count: None,
    }];
    let summary = parse_tipitaka_xml_files(&sources, ParserOverrides::default()).unwrap();
    assert_eq!(summary.success_count, 0);
    assert_eq!(summary.errors, 1);
    assert!(summary.exported.is_empty());
}

#[test]
fn first_critical_error_stops_the_import() {
    let names = vec!["a.xml".to_string(), "b.xml".to_string(), "c.xml".to_string()];
    let outcomes = vec![
        Err(ParserError::GeneralError { message: "x".to_string() }),
        Err(ParserError::RowCountMismatch { filename: "b.xml".to_string(), new_count: 1, ref_count: 2 }),
        Err(ParserError::InvalidBoundaryOverride { details: "d".to_string() }),
    ];
    let summary = summarize_imports(&names, outcomes).unwrap();
    assert_eq!(
        summary.critical.as_deref(),
        Some("Critical error: Row count mismatch for b.xml: new parser produced 1 fragments, reference db has 2")
    );
    assert_eq!(summary.errors, 1);
    assert_eq!(summary.success_count, 0);
    assert!(summary.exported.is_empty());
}

#[test]
fn summary_keeps_imported_files_in_order() {
    let names = vec!["a.xml".to_string(), "b.xml".to_string(), "c.xml".to_string()];
    let outcomes = vec![
        Ok(vec![]),
        Err(ParserError::GeneralError { message: "x".to_string() }),
        Ok(vec![]),
    ];
    let s = summarize_imports(&names, outcomes).unwrap();
    assert_eq!(s.success_count, 2);
    assert_eq!(s.errors, 1);
    let exported: Vec<&str> = s.exported.iter().map(|e| e.0.as_str()).collect();
    assert_eq!(exported, vec!["a.xml", "c.xml"]);
}

#[test]
fn regression_report_lists_regressions() {
    let clean = DiffCheckResult { total_rows: 5, differing_rows: 0, validation_errors: vec![] };
    assert_eq!(
        regression_report(&clean),
        "Checked 5 total rows, 0 rows differ\nNo regressions detected\n\n"
    );
    let bad = DiffCheckResult {
        total_rows: 5,
        differing_rows: 2,
        validation_errors: vec![ValidationError {
            cst_file: "s.xml".to_string(),
            frag_idx: 3,
            cst_code: "dn1.1".to_string(),
            actual_cst_sutta: None,
            expected_cst_sutta: "t".to_string(),
        }],
    };
    assert_eq!(
        regression_report(&bad),
        "Checked 5 total rows, 2 rows differ\n\nFound 1 regressions:\n  - File: s.xml, Fragment: 3, CST Code: dn1.1\n\n"
    );
}

fn names() -> RegenerateNames {
    RegenerateNames {
        db: "\"cur.db\"".to_string(),
        reference_db: "\"ref.db\"".to_string(),
        new_db: "\"new.db\"".to_string(),
        new_tsv: "\"new.tsv\"".to_string(),
        reference_tsv: "\"ref.tsv\"".to_string(),
    }
}

#[test]
fn regeneration_with_reference_runs_every_step() {
    let mut run = RegenerateRun::new(true, 2, names());
    assert_eq!(run.step(RegenerateEvent::Started), RegenerateAction::CheckCurrentDb);
    assert_eq!(run.step(RegenerateEvent::Exists(true)), RegenerateAction::CopyCurrentToReference);
    assert_eq!(run.step(RegenerateEvent::Copied(Ok(4096))), RegenerateAction::ImportFiles);
    assert_eq!(run.step(RegenerateEvent::Imported(Ok(2))), RegenerateAction::ExportTsv);
    assert_eq!(run.step(RegenerateEvent::Exported(Ok(10))), RegenerateAction::CheckReferenceTsv);
    assert_eq!(run.step(RegenerateEvent::Exists(true)), RegenerateAction::CheckRegressions);
    assert_eq!(
        run.step(RegenerateEvent::Checked(Ok("No regressions detected\n\n".to_string()))),
        RegenerateAction::CheckNewDb
    );
    assert_eq!(run.step(RegenerateEvent::Exists(true)), RegenerateAction::ReplaceCurrentDb);
    assert_eq!(run.step(RegenerateEvent::Copied(Ok(8192))), RegenerateAction::Finish);
    let r = run.result();
    assert!(r.success);
    assert!(r.db_replaced);
    assert_eq!(
        r.output,
        "=== Preparing Reference Database ===\n\
         Copying \"cur.db\" to \"ref.db\"\n\
         Copied 4096 bytes successfully\n\n\
         Processing 2 XML files\n\n\
         === Parsing Tipitaka XML ===\n\
         Using reference database: \"ref.db\"\n\
         Successfully parsed 2 files\n\n\
         === Exporting Fragments to TSV ===\n\
         Exporting from \"new.db\" to \"new.tsv\"\n\
         Exported 10 fragments to TSV\n\n\
         === Checking TSV Regressions ===\n\
         Comparing \"ref.tsv\" to \"new.tsv\"\n\
         No regressions detected\n\n\
         === Replacing Current Database ===\n\
         Copying \"new.db\" to \"cur.db\"\n\
         Replaced 8192 bytes successfully\n\
         Current database has been replaced with the new one.\n\n"
    );
}

#[test]
fn regeneration_stops_when_the_current_database_is_missing() {
    let mut run = RegenerateRun::new(true, 1, names());
    run.step(RegenerateEvent::Started);
    assert_eq!(run.step(RegenerateEvent::Exists(false)), RegenerateAction::Finish);
    let r = run.result();
    assert!(!r.success);
    assert!(!r.db_replaced);
    assert_eq!(
        r.output,
        "=== Preparing Reference Database ===\nERROR: Current database does not exist: \"cur.db\"\n"
    );
}

#[test]
fn fresh_regeneration_without_reference_tsv() {
    let mut run = RegenerateRun::new(false, 1, names());
    assert_eq!(run.step(RegenerateEvent::Started), RegenerateAction::ImportFiles);
    // An event the stage does not wait for changes nothing.
    assert_eq!(run.step(RegenerateEvent::Exists(true)), RegenerateAction::ImportFiles);
    run.step(RegenerateEvent::Imported(Ok(1)));
    run.step(RegenerateEvent::Exported(Err("disk full".to_string())));
    assert_eq!(run.step(RegenerateEvent::Exists(false)), RegenerateAction::CheckNewDb);
    assert_eq!(run.step(RegenerateEvent::Exists(false)), RegenerateAction::Finish);
    let r = run.result();
    assert!(r.success);
    assert!(!r.db_replaced);
    assert_eq!(
        r.output,
        "=== Generating Fresh Database ===\n\
         Not using reference database - generating completely new fragments\n\n\
         Processing 1 XML files\n\n\
         === Parsing Tipitaka XML ===\n\
         Successfully parsed 1 files\n\n\
         === Exporting Fragments to TSV ===\n\
         Exporting from \"new.db\" to \"new.tsv\"\n\
         ERROR: Failed to export fragments to TSV: disk full\n\n\
         === Skipping TSV Regression Check ===\n\
         Reference TSV file does not exist\n\n\
         === Replacing Current Database ===\n\
         WARNING: New database file not found, cannot replace current database.\n\n"
    );
}

#[test]
fn regeneration_fails_when_the_import_fails() {
    let mut run = RegenerateRun::new(false, 3, names());
    run.step(RegenerateEvent::Started);
    assert_eq!(run.step(RegenerateEvent::Imported(Err("bad xml".to_string()))), RegenerateAction::Finish);
    let r = run.result();
    assert!(!r.success);
    assert!(r.output.ends_with("ERROR: Failed to parse XML files: bad xml\n"));
}

#[test]
fn files_before_a_critical_error_are_kept() {
    let names = vec!["a.xml".to_string(), "b.xml".to_string(), "c.xml".to_string()];
    let outcomes = vec![
        Ok(vec![]),
        Err(ParserError::InvalidBoundaryOverride { details: "d".to_string() }),
        Ok(vec![]),
    ];
    let s = summarize_imports(&names, outcomes).unwrap();
    assert!(s.critical.is_some());
    assert_eq!(s.success_count, 1);
    let exported: Vec<&str> = s.exported.iter().map(|e| e.0.as_str()).collect();
    assert_eq!(exported, vec!["a.xml"]);
}
