//! Regeneration of the fragments database: the configuration, the result,
//! the import of a list of files, and the report of a regression check.

use vstd::prelude::*;
use vstd::string::*;
use crate::integration::{export_error_ok, export_ok, no_position_overrides, TipitakaImporter};
use crate::text::{int_decimal, nat_decimal, push_i32_decimal, push_nat_decimal};
use crate::tsv_diff::{error_view, errors_view, DiffCheckResult, ErrorView};
use crate::types::{parser_error_message, ParserError, ParserOverrides, StringMap, XmlFragment};

verus! {

/// The configuration of a regeneration.
#[derive(Debug)]
pub struct RegenerateConfig {
    /// The current (working) database.
    pub db_path: String,
    /// Where the new fragments database is created.
    pub new_db_path: String,
    /// Where the reference database (a copy of the current one) is kept.
    pub reference_db_path: String,
    /// The new TSV export.
    pub new_tsv_path: String,
    /// The reference TSV export.
    pub reference_tsv_path: String,
    /// The directory of the XML files.
    pub xml_dir: String,
    /// The XML files to process.
    pub xml_filenames: Vec<String>,
    /// Whether the current database is the reference that keeps corrections.
    pub use_reference_db: bool,
    /// Pali titles for the SC sutta lookup.
    pub pali_titles: Option<StringMap<String>>,
}

/// The result of a regeneration.
#[derive(Debug)]
pub struct RegenerateResult {
    /// Whether the regeneration succeeded.
    pub success: bool,
    /// The log of the regeneration.
    pub output: String,
    /// Whether the current database was replaced by the new one.
    pub db_replaced: bool,
}

impl RegenerateResult {
    /// A failed regeneration with its log.
    pub fn error(output: String) -> (r: Self)
        ensures
            !r.success,
            r.output == output,
            !r.db_replaced,
    {
        RegenerateResult { success: false, output, db_replaced: false }
    }
}

/// How the log of a regeneration shows its paths.
#[derive(Debug)]
pub struct RegenerateNames {
    pub db: String,
    pub reference_db: String,
    pub new_db: String,
    pub new_tsv: String,
    pub reference_tsv: String,
}

/// Where a regeneration stands: waiting for the start, for the answer to an
/// action, or done.
#[derive(Debug, Clone, Copy, PartialEq, Eq, Structural)]
pub enum RegenerateStage {
    Start,
    CheckingDb,
    CopyingDb,
    Importing,
    Exporting,
    CheckingTsv,
    CheckingRegressions,
    CheckingNewDb,
    Replacing,
    Done,
}

/// What the caller does next: check that the current database exists, copy
/// it to the reference database, import the XML files into the new
/// database (against the reference one when it is used), export the new
/// database to the new TSV, check that the reference TSV exists, compare the
/// TSV exports, check that the new database exists, copy it over the current
/// one; or stop.
#[derive(Debug, Clone, Copy, PartialEq, Eq, Structural)]
pub enum RegenerateAction {
    CheckCurrentDb,
    CopyCurrentToReference,
    ImportFiles,
    ExportTsv,
    CheckReferenceTsv,
    CheckRegressions,
    CheckNewDb,
    ReplaceCurrentDb,
    Finish,
}

/// What the caller reports: the start; whether a file exists; the bytes
/// copied or why the copy failed; the files imported or why the import
/// failed; the fragments exported or why the export failed; the report of
/// the regression check or why it failed.
#[derive(Debug)]
pub enum RegenerateEvent {
    Started,
    Exists(bool),
    Copied(Result<u64, String>),
    Imported(Result<usize, String>),
    Exported(Result<usize, String>),
    Checked(Result<String, String>),
}

/// A regeneration in progress: its stage, its log so far, and its outcome.
#[derive(Debug)]
pub struct RegenerateRun {
    pub use_reference_db: bool,
    pub file_count: usize,
    pub names: RegenerateNames,
    pub stage: RegenerateStage,
    pub output: String,
    pub success: bool,
    pub db_replaced: bool,
}

/// The action each stage waits on.
pub open spec fn stage_action(stage: RegenerateStage) -> RegenerateAction {
    match stage {
        RegenerateStage::CheckingDb => RegenerateAction::CheckCurrentDb,
        RegenerateStage::CopyingDb => RegenerateAction::CopyCurrentToReference,
        RegenerateStage::Importing => RegenerateAction::ImportFiles,
        RegenerateStage::Exporting => RegenerateAction::ExportTsv,
        RegenerateStage::CheckingTsv => RegenerateAction::CheckReferenceTsv,
        RegenerateStage::CheckingRegressions => RegenerateAction::CheckRegressions,
        RegenerateStage::CheckingNewDb => RegenerateAction::CheckNewDb,
        RegenerateStage::Replacing => RegenerateAction::ReplaceCurrentDb,
        _ => RegenerateAction::Finish,
    }
}

/// The log lines that open the import of the files.
pub open spec fn import_heading(run: RegenerateRun) -> Seq<char> {
    "Processing "@ + nat_decimal(run.file_count as nat) + " XML files\n\n"@
        + "=== Parsing Tipitaka XML ===\n"@
}

/// The log lines that open the replacement of the current database.
pub open spec fn replace_heading() -> Seq<char> {
    "=== Replacing Current Database ===\n"@
}

/// One step of a regeneration: the next stage, the text added to the log,
/// and the outcome so far (success, database replaced). An event that the
/// stage does not wait for changes nothing.
pub open spec fn regenerate_next(run: RegenerateRun, ev: RegenerateEvent) -> (
    RegenerateStage,
    Seq<char>,
    bool,
    bool,
) {
    let same = (run.stage, Seq::<char>::empty(), run.success, run.db_replaced);
    match (run.stage, ev) {
        (RegenerateStage::Start, RegenerateEvent::Started) => if run.use_reference_db {
            (RegenerateStage::CheckingDb, "=== Preparing Reference Database ===\n"@, false, false)
        } else {
            (
                RegenerateStage::Importing,
                "=== Generating Fresh Database ===\n"@
                    + "Not using reference database - generating completely new fragments\n\n"@
                    + import_heading(run),
                false,
                false,
            )
        },
        (RegenerateStage::CheckingDb, RegenerateEvent::Exists(e)) => if e {
            (
                RegenerateStage::CopyingDb,
                "Copying "@ + run.names.db@ + " to "@ + run.names.reference_db@ + "\n"@,
                false,
                false,
            )
        } else {
            (
                RegenerateStage::Done,
                "ERROR: Current database does not exist: "@ + run.names.db@ + "\n"@,
                false,
                false,
            )
        },
        (RegenerateStage::CopyingDb, RegenerateEvent::Copied(c)) => match c {
            Ok(b) => (
                RegenerateStage::Importing,
                "Copied "@ + nat_decimal(b as nat) + " bytes successfully\n\n"@ + import_heading(run)
                    + "Using reference database: "@ + run.names.reference_db@ + "\n"@,
                false,
                false,
            ),
            Err(e) => (
                RegenerateStage::Done,
                "ERROR: Failed to copy database to reference: "@ + e@ + "\n"@,
                false,
                false,
            ),
        },
        (RegenerateStage::Importing, RegenerateEvent::Imported(c)) => match c {
            Ok(n) => (
                RegenerateStage::Exporting,
                "Successfully parsed "@ + nat_decimal(n as nat) + " files\n\n"@
                    + "=== Exporting Fragments to TSV ===\n"@ + "Exporting from "@ + run.names.new_db@
                    + " to "@ + run.names.new_tsv@ + "\n"@,
                false,
                false,
            ),
            Err(e) => (
                RegenerateStage::Done,
                "ERROR: Failed to parse XML files: "@ + e@ + "\n"@,
                false,
                false,
            ),
        },
        (RegenerateStage::Exporting, RegenerateEvent::Exported(c)) => (
            RegenerateStage::CheckingTsv,
            match c {
                Ok(n) => "Exported "@ + nat_decimal(n as nat) + " fragments to TSV\n\n"@,
                Err(e) => "ERROR: Failed to export fragments to TSV: "@ + e@ + "\n\n"@,
            },
            false,
            false,
        ),
        (RegenerateStage::CheckingTsv, RegenerateEvent::Exists(e)) => if e {
            (
                RegenerateStage::CheckingRegressions,
                "=== Checking TSV Regressions ===\n"@ + "Comparing "@ + run.names.reference_tsv@
                    + " to "@ + run.names.new_tsv@ + "\n"@,
                false,
                false,
            )
        } else {
            (
                RegenerateStage::CheckingNewDb,
                "=== Skipping TSV Regression Check ===\n"@ + "Reference TSV file does not exist\n\n"@
                    + replace_heading(),
                false,
                false,
            )
        },
        (RegenerateStage::CheckingRegressions, RegenerateEvent::Checked(c)) => (
            RegenerateStage::CheckingNewDb,
            match c {
                Ok(report) => report@,
                Err(e) => "ERROR: Failed to check TSV regressions: "@ + e@ + "\n\n"@,
            } + replace_heading(),
            false,
            false,
        ),
        (RegenerateStage::CheckingNewDb, RegenerateEvent::Exists(e)) => if e {
            (
                RegenerateStage::Replacing,
                "Copying "@ + run.names.new_db@ + " to "@ + run.names.db@ + "\n"@,
                false,
                false,
            )
        } else {
            (
                RegenerateStage::Done,
                "WARNING: New database file not found, cannot replace current database.\n\n"@,
                true,
                false,
            )
        },
        (RegenerateStage::Replacing, RegenerateEvent::Copied(c)) => match c {
            Ok(b) => (
                RegenerateStage::Done,
                "Replaced "@ + nat_decimal(b as nat) + " bytes successfully\n"@
                    + "Current database has been replaced with the new one.\n\n"@,
                true,
                true,
            ),
            Err(e) => (
                RegenerateStage::Done,
                "WARNING: Failed to replace database: "@ + e@ + "\n"@
                    + "The new database is available at the new-fragments-db path.\n\n"@,
                true,
                false,
            ),
        },
        _ => same,
    }
}

/// A regeneration only replaces the current database when it succeeds, and
/// once done it takes no more events: its stage, log and outcome stay.
pub proof fn law_regeneration_replaces_only_on_success(run: RegenerateRun, ev: RegenerateEvent)
    requires
        run.db_replaced ==> run.success,
    ensures
        regenerate_next(run, ev).3 ==> regenerate_next(run, ev).2,
        run.stage == RegenerateStage::Done ==> regenerate_next(run, ev) == (
            RegenerateStage::Done,
            Seq::<char>::empty(),
            run.success,
            run.db_replaced,
        ),
{
}

/// `b` is `a` after the event: the same files and names, the next stage and
/// outcome, and the log with the step's text added.
pub open spec fn stepped(a: RegenerateRun, b: RegenerateRun, ev: RegenerateEvent) -> bool {
    let n = regenerate_next(a, ev);
    &&& b.use_reference_db == a.use_reference_db
    &&& b.file_count == a.file_count
    &&& b.names == a.names
    &&& b.stage == n.0
    &&& b.output@ == a.output@ + n.1
    &&& b.success == n.2
    &&& b.db_replaced == n.3
}

impl RegenerateRun {
    /// A regeneration of `file_count` files that has not started.
    pub fn new(use_reference_db: bool, file_count: usize, names: RegenerateNames) -> (r: Self)
        ensures
            r.use_reference_db == use_reference_db,
            r.file_count == file_count,
            r.names == names,
            r.stage == RegenerateStage::Start,
            r.output@ == Seq::<char>::empty(),
            !r.success,
            !r.db_replaced,
    {
        RegenerateRun {
            use_reference_db,
            file_count,
            names,
            stage: RegenerateStage::Start,
            output: String::new(),
            success: false,
            db_replaced: false,
        }
    }

    fn push_import_heading(&mut self)
        ensures
            final(self).output@ == old(self).output@ + import_heading(*old(self)),
            final(self).use_reference_db == old(self).use_reference_db,
            final(self).file_count == old(self).file_count,
            final(self).names == old(self).names,
            final(self).stage == old(self).stage,
            final(self).success == old(self).success,
            final(self).db_replaced == old(self).db_replaced,
    {
        self.output.append("Processing ");
        push_nat_decimal(&mut self.output, self.file_count as u64);
        self.output.append(" XML files\n\n");
        self.output.append("=== Parsing Tipitaka XML ===\n");
        assert(self.output@ =~= old(self).output@ + import_heading(*old(self)));
    }

    fn on_started(&mut self)
        requires
            old(self).stage == RegenerateStage::Start,
        ensures
            stepped(*old(self), *final(self), RegenerateEvent::Started),
    {
        if self.use_reference_db {
            self.output.append("=== Preparing Reference Database ===\n");
            self.stage = RegenerateStage::CheckingDb;
        } else {
            self.output.append("=== Generating Fresh Database ===\n");
            self.output.append("Not using reference database - generating completely new fragments\n\n");
            self.push_import_heading();
            self.stage = RegenerateStage::Importing;
        }
        self.success = false;
        self.db_replaced = false;
        assert(self.output@ =~= old(self).output@ + regenerate_next(*old(self), RegenerateEvent::Started).1);
    }

    fn on_db_exists(&mut self, e: bool)
        requires
            old(self).stage == RegenerateStage::CheckingDb,
        ensures
            stepped(*old(self), *final(self), RegenerateEvent::Exists(e)),
    {
        if e {
            self.output.append("Copying ");
            self.output.append(self.names.db.as_str());
            self.output.append(" to ");
            self.output.append(self.names.reference_db.as_str());
            self.output.append("\n");
            self.stage = RegenerateStage::CopyingDb;
        } else {
            self.output.append("ERROR: Current database does not exist: ");
            self.output.append(self.names.db.as_str());
            self.output.append("\n");
            self.stage = RegenerateStage::Done;
        }
        self.success = false;
        self.db_replaced = false;
        assert(self.output@ =~= old(self).output@ + regenerate_next(*old(self), RegenerateEvent::Exists(e)).1);
    }

    fn on_reference_copied(&mut self, c: Result<u64, String>)
        requires
            old(self).stage == RegenerateStage::CopyingDb,
        ensures
            stepped(*old(self), *final(self), RegenerateEvent::Copied(c)),
    {
        let ghost ev = RegenerateEvent::Copied(c);
        match c {
            Ok(b) => {
                self.output.append("Copied ");
                push_nat_decimal(&mut self.output, b);
                self.output.append(" bytes successfully\n\n");
                self.push_import_heading();
                self.output.append("Using reference database: ");
                self.output.append(self.names.reference_db.as_str());
                self.output.append("\n");
                self.stage = RegenerateStage::Importing;
            },
            Err(e) => {
                self.output.append("ERROR: Failed to copy database to reference: ");
                self.output.append(e.as_str());
                self.output.append("\n");
                self.stage = RegenerateStage::Done;
            },
        }
        self.success = false;
        self.db_replaced = false;
        assert(self.output@ =~= old(self).output@ + regenerate_next(*old(self), ev).1);
    }

    fn on_imported(&mut self, c: Result<usize, String>)
        requires
            old(self).stage == RegenerateStage::Importing,
        ensures
            stepped(*old(self), *final(self), RegenerateEvent::Imported(c)),
    {
        let ghost ev = RegenerateEvent::Imported(c);
        match c {
            Ok(n) => {
                self.output.append("Successfully parsed ");
                push_nat_decimal(&mut self.output, n as u64);
                self.output.append(" files\n\n");
                self.output.append("=== Exporting Fragments to TSV ===\n");
                self.output.append("Exporting from ");
                self.output.append(self.names.new_db.as_str());
                self.output.append(" to ");
                self.output.append(self.names.new_tsv.as_str());
                self.output.append("\n");
                self.stage = RegenerateStage::Exporting;
            },
            Err(e) => {
                self.output.append("ERROR: Failed to parse XML files: ");
                self.output.append(e.as_str());
                self.output.append("\n");
                self.stage = RegenerateStage::Done;
            },
        }
        self.success = false;
        self.db_replaced = false;
        assert(self.output@ =~= old(self).output@ + regenerate_next(*old(self), ev).1);
    }

    fn on_exported(&mut self, c: Result<usize, String>)
        requires
            old(self).stage == RegenerateStage::Exporting,
        ensures
            stepped(*old(self), *final(self), RegenerateEvent::Exported(c)),
    {
        let ghost ev = RegenerateEvent::Exported(c);
        match c {
            Ok(n) => {
                self.output.append("Exported ");
                push_nat_decimal(&mut self.output, n as u64);
                self.output.append(" fragments to TSV\n\n");
            },
            Err(e) => {
                self.output.append("ERROR: Failed to export fragments to TSV: ");
                self.output.append(e.as_str());
                self.output.append("\n\n");
            },
        }
        self.stage = RegenerateStage::CheckingTsv;
        self.success = false;
        self.db_replaced = false;
        assert(self.output@ =~= old(self).output@ + regenerate_next(*old(self), ev).1);
    }

    fn on_reference_tsv_exists(&mut self, e: bool)
        requires
            old(self).stage == RegenerateStage::CheckingTsv,
        ensures
            stepped(*old(self), *final(self), RegenerateEvent::Exists(e)),
    {
        if e {
            self.output.append("=== Checking TSV Regressions ===\n");
            self.output.append("Comparing ");
            self.output.append(self.names.reference_tsv.as_str());
            self.output.append(" to ");
            self.output.append(self.names.new_tsv.as_str());
            self.output.append("\n");
            self.stage = RegenerateStage::CheckingRegressions;
        } else {
            self.output.append("=== Skipping TSV Regression Check ===\n");
            self.output.append("Reference TSV file does not exist\n\n");
            self.output.append("=== Replacing Current Database ===\n");
            self.stage = RegenerateStage::CheckingNewDb;
        }
        self.success = false;
        self.db_replaced = false;
        assert(self.output@ =~= old(self).output@ + regenerate_next(*old(self), RegenerateEvent::Exists(e)).1);
    }

    fn on_checked(&mut self, c: Result<String, String>)
        requires
            old(self).stage == RegenerateStage::CheckingRegressions,
        ensures
            stepped(*old(self), *final(self), RegenerateEvent::Checked(c)),
    {
        let ghost ev = RegenerateEvent::Checked(c);
        match c {
            Ok(report) => {
                self.output.append(report.as_str());
            },
            Err(e) => {
                self.output.append("ERROR: Failed to check TSV regressions: ");
                self.output.append(e.as_str());
                self.output.append("\n\n");
            },
        }
        self.output.append("=== Replacing Current Database ===\n");
        self.stage = RegenerateStage::CheckingNewDb;
        self.success = false;
        self.db_replaced = false;
        assert(self.output@ =~= old(self).output@ + regenerate_next(*old(self), ev).1);
    }

    fn on_new_db_exists(&mut self, e: bool)
        requires
            old(self).stage == RegenerateStage::CheckingNewDb,
        ensures
            stepped(*old(self), *final(self), RegenerateEvent::Exists(e)),
    {
        if e {
            self.output.append("Copying ");
            self.output.append(self.names.new_db.as_str());
            self.output.append(" to ");
            self.output.append(self.names.db.as_str());
            self.output.append("\n");
            self.stage = RegenerateStage::Replacing;
            self.success = false;
        } else {
            self.output.append("WARNING: New database file not found, cannot replace current database.\n\n");
            self.stage = RegenerateStage::Done;
            self.success = true;
        }
        self.db_replaced = false;
        assert(self.output@ =~= old(self).output@ + regenerate_next(*old(self), RegenerateEvent::Exists(e)).1);
    }

    fn on_replaced(&mut self, c: Result<u64, String>)
        requires
            old(self).stage == RegenerateStage::Replacing,
        ensures
            stepped(*old(self), *final(self), RegenerateEvent::Copied(c)),
    {
        let ghost ev = RegenerateEvent::Copied(c);
        match c {
            Ok(b) => {
                self.output.append("Replaced ");
                push_nat_decimal(&mut self.output, b);
                self.output.append(" bytes successfully\n");
                self.output.append("Current database has been replaced with the new one.\n\n");
                self.db_replaced = true;
            },
            Err(e) => {
                self.output.append("WARNING: Failed to replace database: ");
                self.output.append(e.as_str());
                self.output.append("\n");
                self.output.append("The new database is available at the new-fragments-db path.\n\n");
                self.db_replaced = false;
            },
        }
        self.stage = RegenerateStage::Done;
        self.success = true;
        assert(self.output@ =~= old(self).output@ + regenerate_next(*old(self), ev).1);
    }

    /// Takes one event (see `regenerate_next`) and tells what to do next.
    pub fn step(&mut self, event: RegenerateEvent) -> (r: RegenerateAction)
        ensures
            stepped(*old(self), *final(self), event),
            r == stage_action(final(self).stage),
    {
        let stage = self.stage;
        match event {
            RegenerateEvent::Started => {
                if stage == RegenerateStage::Start {
                    self.on_started();
                }
            },
            RegenerateEvent::Exists(e) => {
                if stage == RegenerateStage::CheckingDb {
                    self.on_db_exists(e);
                } else if stage == RegenerateStage::CheckingTsv {
                    self.on_reference_tsv_exists(e);
                } else if stage == RegenerateStage::CheckingNewDb {
                    self.on_new_db_exists(e);
                }
            },
            RegenerateEvent::Copied(c) => {
                if stage == RegenerateStage::CopyingDb {
                    self.on_reference_copied(c);
                } else if stage == RegenerateStage::Replacing {
                    self.on_replaced(c);
                }
            },
            RegenerateEvent::Imported(c) => {
                if stage == RegenerateStage::Importing {
                    self.on_imported(c);
                }
            },
            RegenerateEvent::Exported(c) => {
                if stage == RegenerateStage::Exporting {
                    self.on_exported(c);
                }
            },
            RegenerateEvent::Checked(c) => {
                if stage == RegenerateStage::CheckingRegressions {
                    self.on_checked(c);
                }
            },
        }
        assert(old(self).output@ + Seq::<char>::empty() =~= old(self).output@);
        match self.stage {
            RegenerateStage::CheckingDb => RegenerateAction::CheckCurrentDb,
            RegenerateStage::CopyingDb => RegenerateAction::CopyCurrentToReference,
            RegenerateStage::Importing => RegenerateAction::ImportFiles,
            RegenerateStage::Exporting => RegenerateAction::ExportTsv,
            RegenerateStage::CheckingTsv => RegenerateAction::CheckReferenceTsv,
            RegenerateStage::CheckingRegressions => RegenerateAction::CheckRegressions,
            RegenerateStage::CheckingNewDb => RegenerateAction::CheckNewDb,
            RegenerateStage::Replacing => RegenerateAction::ReplaceCurrentDb,
            _ => RegenerateAction::Finish,
        }
    }

    /// The outcome of the regeneration: success, log, database replaced.
    pub fn result(&self) -> (r: RegenerateResult)
        ensures
            r.success == self.success,
            r.output@ == self.output@,
            r.db_replaced == self.db_replaced,
    {
        RegenerateResult { success: self.success, output: self.output.clone(), db_replaced: self.db_replaced }
    }
}

/// An XML file to import: its name, its text (or why it could not be read),
/// and the number of fragments the reference database has for it.
#[derive(Debug)]
pub struct XmlSource {
    pub filename: String,
    pub content: Result<String, String>,
    pub reference_count: Option<usize>,
}

/// The outcome of an import over several files.
#[derive(Debug)]
pub struct ImportSummary {
    /// The fragments of each file that was imported, with its name.
    pub exported: Vec<(String, Vec<XmlFragment>)>,
    /// Files imported.
    pub success_count: usize,
    /// Files that failed with an error that is not critical.
    pub errors: usize,
    /// The message of the critical error that stopped the import, if one did:
    /// the other fields then tell of the files before it.
    pub critical: Option<String>,
}

/// The index of the first critical error among the outcomes.
pub open spec fn first_critical(outs: Seq<Result<Vec<XmlFragment>, ParserError>>) -> Option<int>
    decreases outs.len(),
{
    if outs.len() == 0 {
        None
    } else {
        match first_critical(outs.drop_last()) {
            Some(i) => Some(i),
            None => if outs.last() matches Err(e) && !(e is GeneralError) {
                Some(outs.len() - 1)
            } else {
                None
            },
        }
    }
}

/// The number of outcomes that are errors.
pub open spec fn error_count(outs: Seq<Result<Vec<XmlFragment>, ParserError>>) -> nat
    decreases outs.len(),
{
    if outs.len() == 0 {
        0
    } else {
        error_count(outs.drop_last()) + if outs.last() is Err {
            1nat
        } else {
            0nat
        }
    }
}

/// The imported files: name and fragments of each successful outcome, in order.
pub open spec fn exported_of(names: Seq<Seq<char>>, outs: Seq<Result<Vec<XmlFragment>, ParserError>>) -> Seq<
    (Seq<char>, Seq<XmlFragment>),
>
    decreases outs.len(),
{
    if outs.len() == 0 {
        Seq::empty()
    } else {
        let before = exported_of(names.take(outs.len() - 1), outs.drop_last());
        match outs.last() {
            Ok(f) => before.push((names[outs.len() - 1], f@)),
            Err(_) => before,
        }
    }
}

/// The views of the imported files.
pub open spec fn exported_view(v: Seq<(String, Vec<XmlFragment>)>) -> Seq<(Seq<char>, Seq<XmlFragment>)> {
    v.map_values(|e: (String, Vec<XmlFragment>)| (e.0@, e.1@))
}

/// The summary of the outcomes of an import (names and outcomes in file
/// order): the imported files and the counts, up to the first critical
/// error, which stops it and is given as "Critical error: " and the error's
/// message.
pub open spec fn summary_ok(
    names: Seq<Seq<char>>,
    outs: Seq<Result<Vec<XmlFragment>, ParserError>>,
    r: Result<ImportSummary, ParserError>,
) -> bool {
    let n = match first_critical(outs) {
        Some(i) => i,
        None => outs.len() as int,
    };
    &&& r matches Ok(s)
    &&& r->Ok_0.errors == error_count(outs.take(n))
    &&& r->Ok_0.success_count + r->Ok_0.errors == n
    &&& exported_view(r->Ok_0.exported@) == exported_of(names.take(n), outs.take(n))
    &&& match first_critical(outs) {
        Some(i) => r->Ok_0.critical matches Some(m) && m@ == "Critical error: "@ + parser_error_message(
            outs[i]->Err_0,
        ),
        None => r->Ok_0.critical is None,
    }
}

/// Sums up the outcomes of an import (see `summary_ok`).
pub fn summarize_imports(names: &Vec<String>, outcomes: Vec<Result<Vec<XmlFragment>, ParserError>>) -> (r:
    Result<ImportSummary, ParserError>)
    requires
        names@.len() == outcomes@.len(),
    ensures
        summary_ok(names@.map_values(|s: String| s@), outcomes@, r),
{
    let ghost nv = names@.map_values(|s: String| s@);
    let ghost outs = outcomes@;
    let mut exported: Vec<(String, Vec<XmlFragment>)> = Vec::new();
    let mut errors: usize = 0;
    let mut success: usize = 0;
    let mut i: usize = 0;
    let mut rest = outcomes;
    assert(rest@ =~= outs.skip(0));
    while i < names.len()
        invariant
            i <= names@.len() == outs.len() == nv.len(),
            nv == names@.map_values(|s: String| s@),
            rest@ == outs.skip(i as int),
            outs == outcomes@,
            first_critical(outs.take(i as int)) is None,
            errors == error_count(outs.take(i as int)),
            success + errors == i,
            exported_view(exported@) == exported_of(nv.take(i as int), outs.take(i as int)),
        decreases names@.len() - i,
    {
        assert(outs.take(i + 1).drop_last() =~= outs.take(i as int));
        assert(nv.take(i + 1).take(i as int) =~= nv.take(i as int));
        let o = rest.remove(0);
        assert(rest@ =~= outs.skip(i + 1));
        assert(o == outs[i as int]);
        match o {
            Ok(f) => {
                let ghost before = exported@;
                exported.push((names[i].clone(), f));
                assert(exported_view(exported@) =~= exported_view(before).push(
                    (names@[i as int]@, exported@.last().1@),
                ));
                success = success + 1;
            },
            Err(e) => {
                if e.is_critical() {
                    let mut m = String::from_str("Critical error: ");
                    let t = e.to_string();
                    m.append(t.as_str());
                    proof {
                        assert(outs.take(i + 1).last() == outs[i as int]);
                        assert(outs[i as int] == Err::<Vec<XmlFragment>, ParserError>(e));
                        assert(first_critical(outs.take(i + 1)) == Some(i as int));
                        lemma_first_critical_prefix(outs, i + 1);
                        assert(m@ =~= "Critical error: "@ + parser_error_message(outs[i as int]->Err_0));
                    }
                    let r = Ok(ImportSummary { exported, success_count: success, errors, critical: Some(m) });
                    assert(summary_ok(nv, outs, r));
                    return r;
                }
                errors = errors + 1;
            },
        }
        i = i + 1;
    }
    assert(outs.take(outs.len() as int) =~= outs);
    assert(nv.take(nv.len() as int) =~= nv);
    Ok(ImportSummary { exported, success_count: success, errors, critical: None })
}

proof fn lemma_first_critical_prefix(outs: Seq<Result<Vec<XmlFragment>, ParserError>>, k: int)
    requires
        0 <= k <= outs.len(),
        first_critical(outs.take(k)) is Some,
    ensures
        first_critical(outs) == first_critical(outs.take(k)),
    decreases outs.len(),
{
    if k == outs.len() {
        assert(outs.take(k) =~= outs);
    } else {
        assert(outs.drop_last().take(k) =~= outs.take(k));
        lemma_first_critical_prefix(outs.drop_last(), k);
    }
}

/// The names of the files to import.
pub open spec fn source_names(sources: Seq<XmlSource>) -> Seq<Seq<char>> {
    sources.map_values(|s: XmlSource| s.filename@)
}

/// What the import of one file may give: the reading error as a general
/// error, or fragments that may be stored (see `export_ok`), or an import
/// error (see `export_error_ok`).
pub open spec fn outcome_ok(src: XmlSource, out: Result<Vec<XmlFragment>, ParserError>, plain: bool) -> bool {
    match src.content {
        Err(m) => out matches Err(e) && e is GeneralError && e->message@ == m@,
        Ok(c) => {
            &&& out matches Ok(f) ==> export_ok(f@, src.filename@, c@, src.reference_count, plain)
            &&& out matches Err(e) ==> export_error_ok(e, src.filename@, src.reference_count)
        },
    }
}

fn import_one(importer: &TipitakaImporter, src: &XmlSource) -> (r: Result<Vec<XmlFragment>, ParserError>)
    ensures
        outcome_ok(*src, r, no_position_overrides(importer.overrides_view())),
{
    match &src.content {
        Err(m) => Err(ParserError::GeneralError { message: m.clone() }),
        Ok(c) => {
            if c.as_str().as_bytes().len() == usize::MAX {
                return Err(
                    ParserError::GeneralError {
                        message: String::from_str("XML file too large to parse"),
                    },
                );
            }
            importer.export_fragments(src.filename.as_str(), c.as_str(), src.reference_count)
        },
    }
}

/// Imports a list of XML files with the given overrides: each file is parsed
/// and checked (see `TipitakaImporter::export_fragments`); the outcomes are
/// summed up (see `summary_ok`). An empty list is an error.
pub fn parse_tipitaka_xml_files(sources: &Vec<XmlSource>, overrides: ParserOverrides) -> (r: Result<
    ImportSummary,
    ParserError,
>)
    ensures
        sources@.len() == 0 ==> (r matches Err(e) && e is GeneralError && e->message@
            == "No XML files to process"@),
        sources@.len() > 0 ==> exists|outs: Seq<Result<Vec<XmlFragment>, ParserError>>|
            {
                &&& outs.len() == sources@.len()
                &&& forall|i: int|
                    0 <= i < outs.len() ==> outcome_ok(
                        sources@[i],
                        #[trigger] outs[i],
                        no_position_overrides(overrides),
                    )
                &&& #[trigger] summary_ok(source_names(sources@), outs, r)
            },
{
    if sources.len() == 0 {
        return Err(ParserError::GeneralError { message: String::from_str("No XML files to process") });
    }
    let importer = match TipitakaImporter::new() {
        Ok(imp) => imp.with_overrides(overrides),
        Err(e) => return Err(e),
    };
    let mut names: Vec<String> = Vec::new();
    let mut outcomes: Vec<Result<Vec<XmlFragment>, ParserError>> = Vec::new();
    let mut i: usize = 0;
    while i < sources.len()
        invariant
            i <= sources@.len(),
            names@.len() == i,
            outcomes@.len() == i,
            importer.overrides_view() == overrides,
            forall|k: int| 0 <= k < i ==> #[trigger] names@[k]@ == sources@[k].filename@,
            forall|k: int|
                0 <= k < i ==> outcome_ok(
                    sources@[k],
                    #[trigger] outcomes@[k],
                    no_position_overrides(overrides),
                ),
        decreases sources@.len() - i,
    {
        let o = import_one(&importer, &sources[i]);
        outcomes.push(o);
        names.push(sources[i].filename.clone());
        i = i + 1;
    }
    let ghost outs = outcomes@;
    assert(names@.map_values(|s: String| s@) =~= source_names(sources@));
    let r = summarize_imports(&names, outcomes);
    assert(forall|k: int|
        0 <= k < outs.len() ==> outcome_ok(sources@[k], #[trigger] outs[k], no_position_overrides(overrides)));
    r
}

/// The report line of a regression.
pub open spec fn regression_line(e: ErrorView) -> Seq<char> {
    "  - File: "@ + e.0 + ", Fragment: "@ + int_decimal(e.1 as int) + ", CST Code: "@ + e.2 + "\n"@
}

/// The report lines of the regressions, in order.
pub open spec fn regression_lines(errs: Seq<ErrorView>) -> Seq<char>
    decreases errs.len(),
{
    if errs.len() == 0 {
        Seq::empty()
    } else {
        regression_lines(errs.drop_last()) + regression_line(errs.last())
    }
}

/// The report of a regression check: the rows checked and differing, then
/// either no regression or the list of regressions.
pub open spec fn regression_report_spec(total: nat, differing: nat, errs: Seq<ErrorView>) -> Seq<char> {
    "Checked "@ + nat_decimal(total) + " total rows, "@ + nat_decimal(differing) + " rows differ\n"@
        + if errs.len() == 0 {
        "No regressions detected\n\n"@
    } else {
        "\nFound "@ + nat_decimal(errs.len()) + " regressions:\n"@ + regression_lines(errs) + "\n"@
    }
}

/// The report of a regression check (see `regression_report_spec`).
pub fn regression_report(result: &DiffCheckResult) -> (r: String)
    ensures
        r@ == regression_report_spec(
            result.total_rows as nat,
            result.differing_rows as nat,
            errors_view(result.validation_errors@),
        ),
{
    let ghost ev = errors_view(result.validation_errors@);
    let mut out = String::from_str("Checked ");
    push_nat_decimal(&mut out, result.total_rows as u64);
    out.append(" total rows, ");
    push_nat_decimal(&mut out, result.differing_rows as u64);
    out.append(" rows differ\n");
    let ghost head = out@;
    let n = result.validation_errors.len();
    if n == 0 {
        out.append("No regressions detected\n\n");
        assert(out@ =~= regression_report_spec(
            result.total_rows as nat,
            result.differing_rows as nat,
            ev,
        ));
        return out;
    }
    out.append("\nFound ");
    push_nat_decimal(&mut out, n as u64);
    out.append(" regressions:\n");
    let ghost mid = out@;
    let mut i: usize = 0;
    while i < n
        invariant
            i <= n == result.validation_errors@.len() == ev.len(),
            ev == errors_view(result.validation_errors@),
            out@ == mid + regression_lines(ev.take(i as int)),
        decreases n - i,
    {
        let e = &result.validation_errors[i];
        let ghost before = out@;
        out.append("  - File: ");
        out.append(e.cst_file.as_str());
        out.append(", Fragment: ");
        push_i32_decimal(&mut out, e.frag_idx);
        out.append(", CST Code: ");
        out.append(e.cst_code.as_str());
        out.append("\n");
        assert(ev.take(i + 1).drop_last() =~= ev.take(i as int));
        assert(ev.take(i + 1).last() == error_view(*e));
        assert(out@ =~= before + regression_line(error_view(*e)));
        i = i + 1;
    }
    out.append("\n");
    assert(ev.take(n as int) =~= ev);
    assert(out@ =~= regression_report_spec(
        result.total_rows as nat,
        result.differing_rows as nat,
        ev,
    ));
    out
}

} // verus!
