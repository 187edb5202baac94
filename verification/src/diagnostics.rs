//! Diagnostic results over one table, as the checks report them.
//!
//! The checks themselves consume resolver output elsewhere; this module
//! holds the data they produce: one `TableDiagnostic` per checked table,
//! carrying the entry's path and the individual findings.

use vstd::prelude::*;

verus! {

/// How severe one finding is.
#[derive(Clone, Copy, PartialEq, Eq, Structural, Debug)]
pub enum DiagnosticLevel {
    Info,
    Low,
    Medium,
    High,
}

/// What kind of finding a table check reported.
#[derive(Clone, Copy, PartialEq, Eq, Structural, Debug)]
pub enum TableDiagnosticReportType {
    OutdatedTable,
    InvalidReference,
    EmptyRow,
    EmptyKeyField,
    EmptyKeyFields,
    DuplicatedCombinedKeys,
    NoReferenceTableFound,
    NoReferenceTableNorColumnFoundPak,
    NoReferenceTableNorColumnFoundNoPak,
    InvalidEscape,
    DuplicatedRow,
}

impl TableDiagnosticReportType {
    /// The stable name of the finding kind, for reports.
    pub fn as_text(&self) -> (s: String)
        ensures
            s@.len() > 0,
    {
        let text: &str = match self {
            TableDiagnosticReportType::OutdatedTable => "OutdatedTable",
            TableDiagnosticReportType::InvalidReference => "InvalidReference",
            TableDiagnosticReportType::EmptyRow => "EmptyRow",
            TableDiagnosticReportType::EmptyKeyField => "EmptyKeyField",
            TableDiagnosticReportType::EmptyKeyFields => "EmptyKeyFields",
            TableDiagnosticReportType::DuplicatedCombinedKeys => "DuplicatedCombinedKeys",
            TableDiagnosticReportType::NoReferenceTableFound => "NoReferenceTableFound",
            TableDiagnosticReportType::NoReferenceTableNorColumnFoundPak => "NoReferenceTableNorColumnFoundPak",
            TableDiagnosticReportType::NoReferenceTableNorColumnFoundNoPak => "NoReferenceTableNorColumnFoundNoPak",
            TableDiagnosticReportType::InvalidEscape => "InvalidEscape",
            TableDiagnosticReportType::DuplicatedRow => "DuplicatedRow",
        };
        proof {
            reveal_strlit("OutdatedTable");
            reveal_strlit("InvalidReference");
            reveal_strlit("EmptyRow");
            reveal_strlit("EmptyKeyField");
            reveal_strlit("EmptyKeyFields");
            reveal_strlit("DuplicatedCombinedKeys");
            reveal_strlit("NoReferenceTableFound");
            reveal_strlit("NoReferenceTableNorColumnFoundPak");
            reveal_strlit("NoReferenceTableNorColumnFoundNoPak");
            reveal_strlit("InvalidEscape");
            reveal_strlit("DuplicatedRow");
        }
        text.to_owned()
    }
}

/// One finding.
pub struct TableDiagnosticReport {
    pub column_number: u32,
    pub row_number: i64,
    pub message: String,
    pub report_type: TableDiagnosticReportType,
    pub level: DiagnosticLevel,
}

/// The findings of one check run over one table.
pub struct TableDiagnostic {
    path: Vec<String>,
    result: Vec<TableDiagnosticReport>,
}

impl TableDiagnostic {
    /// The checked entry's path.
    pub closed spec fn spec_path(&self) -> Seq<String> {
        self.path@
    }

    /// The findings gathered so far.
    pub closed spec fn spec_result(&self) -> Seq<TableDiagnosticReport> {
        self.result@
    }

    /// A fresh, empty result set for the entry at the given path.
    pub fn new(path: &[String]) -> (d: Self)
        ensures
            d.spec_path().len() == path@.len(),
            forall|i: int|
                0 <= i < path@.len() ==> d.spec_path()[i]@ == (#[trigger] path@[i])@,
            d.spec_result().len() == 0,
    {
        let mut copied: Vec<String> = Vec::new();
        let mut i: usize = 0;
        while i < path.len()
            invariant
                i <= path@.len(),
                copied@.len() == i,
                forall|j: int| 0 <= j < i ==> (#[trigger] copied@[j])@ == path@[j]@,
            decreases path@.len() - i,
        {
            copied.push(path[i].clone());
            i += 1;
        }
        Self { path: copied, result: Vec::new() }
    }

    /// The checked entry's path.
    pub fn get_path(&self) -> (p: &[String])
        ensures
            p@ == self.spec_path(),
    {
        self.path.as_slice()
    }

    /// The findings, read-only.
    pub fn get_ref_result(&self) -> (r: &[TableDiagnosticReport])
        ensures
            r@ == self.spec_result(),
    {
        self.result.as_slice()
    }

    /// The findings, for the checks to extend; the path is left alone.
    pub fn get_ref_mut_result(&mut self) -> (r: &mut Vec<TableDiagnosticReport>)
        ensures
            r@ == old(self).spec_result(),
            final(self).spec_path() == old(self).spec_path(),
            final(self).spec_result() == final(r)@,
    {
        &mut self.result
    }
}

} // verus!
