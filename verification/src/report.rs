//! Diagnostics, and the filters that decide which of them are shown.

use crate::errors::CFGError;
use crate::file_definition::{FileID, FileLocation};
use std::collections::HashSet;
use vstd::prelude::*;

verus! {

broadcast use vstd::std_specs::hash::group_hash_axioms;

/// The severity of a report. Severities are ordered: information, then
/// warnings, then errors.
#[derive(Clone, Copy, Debug, PartialEq, Eq, Structural)]
pub enum MessageCategory {
    Info,
    Warning,
    Error,
}

/// The place of a severity in the order: 0 for information, 1 for warnings,
/// 2 for errors.
pub open spec fn severity(category: MessageCategory) -> nat {
    match category {
        MessageCategory::Info => 0,
        MessageCategory::Warning => 1,
        MessageCategory::Error => 2,
    }
}

impl MessageCategory {
    /// The place of the severity in the order.
    pub fn rank(&self) -> (r: u8)
        ensures
            r == severity(*self),
    {
        match self {
            MessageCategory::Info => 0,
            MessageCategory::Warning => 1,
            MessageCategory::Error => 2,
        }
    }

    /// Whether this severity is `other` or a higher one.
    pub fn at_least(&self, other: &MessageCategory) -> (r: bool)
        ensures
            r == (severity(*self) >= severity(*other)),
    {
        self.rank() >= other.rank()
    }
}

/// The order of severities is total, and no two severities share a place.
pub proof fn lemma_severity_is_a_total_order(
    a: MessageCategory,
    b: MessageCategory,
    c: MessageCategory,
)
    ensures
        severity(a) <= severity(b) || severity(b) <= severity(a),
        severity(a) == severity(b) ==> a == b,
        severity(a) <= severity(b) && severity(b) <= severity(c) ==> severity(a) <= severity(c),
        severity(MessageCategory::Info) < severity(MessageCategory::Warning) < severity(
            MessageCategory::Error,
        ),
{
}

/// A source range with the text that explains it.
#[derive(Debug)]
pub struct ReportLabel {
    pub file_id: FileID,
    pub location: FileLocation,
    pub message: String,
}

/// One diagnostic.
#[derive(Debug)]
pub struct Report {
    id: String,
    category: MessageCategory,
    message: String,
    primary: Vec<ReportLabel>,
    secondary: Vec<ReportLabel>,
}

pub type ReportCollection = Vec<Report>;

impl Report {
    /// The stable identifier of the kind of report.
    pub closed spec fn spec_id(&self) -> Seq<char> {
        self.id@
    }

    pub closed spec fn spec_category(&self) -> MessageCategory {
        self.category
    }

    pub closed spec fn spec_message(&self) -> Seq<char> {
        self.message@
    }

    /// The labels on the ranges that the report is about.
    pub closed spec fn primary(&self) -> Seq<ReportLabel> {
        self.primary@
    }

    /// The labels on further ranges.
    pub closed spec fn secondary(&self) -> Seq<ReportLabel> {
        self.secondary@
    }

    /// The files of the primary labels, in order.
    pub open spec fn spec_primary_file_ids(&self) -> Seq<FileID> {
        Seq::new(self.primary().len(), |i: int| self.primary()[i].file_id)
    }

    /// A report without labels.
    pub fn new(id: String, category: MessageCategory, message: String) -> (r: Report)
        ensures
            r.spec_id() == id@,
            r.spec_category() == category,
            r.spec_message() == message@,
            r.primary() == Seq::<ReportLabel>::empty(),
            r.secondary() == Seq::<ReportLabel>::empty(),
    {
        Report { id, category, message, primary: Vec::new(), secondary: Vec::new() }
    }

    /// Adds a primary label.
    pub fn add_primary(&mut self, location: FileLocation, file_id: FileID, message: String)
        ensures
            final(self).primary() == old(self).primary().push(
                ReportLabel { file_id, location, message },
            ),
            final(self).secondary() == old(self).secondary(),
            final(self).spec_id() == old(self).spec_id(),
            final(self).spec_category() == old(self).spec_category(),
            final(self).spec_message() == old(self).spec_message(),
    {
        self.primary.push(ReportLabel { file_id, location, message });
    }

    /// Adds a secondary label.
    pub fn add_secondary(&mut self, location: FileLocation, file_id: FileID, message: String)
        ensures
            final(self).secondary() == old(self).secondary().push(
                ReportLabel { file_id, location, message },
            ),
            final(self).primary() == old(self).primary(),
            final(self).spec_id() == old(self).spec_id(),
            final(self).spec_category() == old(self).spec_category(),
            final(self).spec_message() == old(self).spec_message(),
    {
        self.secondary.push(ReportLabel { file_id, location, message });
    }

    pub fn id(&self) -> (r: String)
        ensures
            r@ == self.spec_id(),
    {
        self.id.clone()
    }

    pub fn category(&self) -> (r: &MessageCategory)
        ensures
            *r == self.spec_category(),
    {
        &self.category
    }

    pub fn message(&self) -> (r: &String)
        ensures
            r@ == self.spec_message(),
    {
        &self.message
    }

    pub fn primary_labels(&self) -> (r: &Vec<ReportLabel>)
        ensures
            r@ == self.primary(),
    {
        &self.primary
    }

    pub fn secondary_labels(&self) -> (r: &Vec<ReportLabel>)
        ensures
            r@ == self.secondary(),
    {
        &self.secondary
    }

    /// The files of the primary labels, in order.
    pub fn primary_file_ids(&self) -> (r: Vec<FileID>)
        ensures
            r@ == self.spec_primary_file_ids(),
    {
        let mut r: Vec<FileID> = Vec::new();
        let mut i: usize = 0;
        while i < self.primary.len()
            invariant
                i <= self.primary@.len(),
                r@.len() == i,
                forall|k: int| 0 <= k < i ==> r@[k] == self.primary@[k].file_id,
            decreases self.primary@.len() - i,
        {
            r.push(self.primary[i].file_id);
            i += 1;
        }
        r
    }
}

/// The stable identifier of the reports on `error`.
pub open spec fn error_id(error: CFGError) -> Seq<char> {
    match error {
        CFGError::DuplicateDeclaration => "duplicate-declaration"@,
        CFGError::UnknownSymbol => "unknown-symbol"@,
        CFGError::ShadowingSignal => "shadowing-signal"@,
        CFGError::MalformedInitBlock => "malformed-initialization-block"@,
        CFGError::EmptyCfg => "empty-cfg"@,
    }
}

/// What the reports on `error` say.
pub open spec fn error_message(error: CFGError) -> Seq<char> {
    match error {
        CFGError::DuplicateDeclaration => "A name is declared twice in one scope."@,
        CFGError::UnknownSymbol => "A name is used that is not declared."@,
        CFGError::ShadowingSignal => "A local variable has the name of a signal."@,
        CFGError::MalformedInitBlock => "An initialization block holds a statement that is neither a declaration nor a substitution."@,
        CFGError::EmptyCfg => "The definition has no entry block."@,
    }
}

impl CFGError {
    /// The report on this error for a definition at `location` of the file
    /// `file_id`: an error, with the definition as its primary range where
    /// its file is known.
    pub fn to_report(&self, file_id: Option<FileID>, location: FileLocation) -> (report: Report)
        ensures
            report.spec_id() == error_id(*self),
            report.spec_category() == MessageCategory::Error,
            report.spec_message() == error_message(*self),
            report.secondary().len() == 0,
            match file_id {
                Some(file_id) => {
                    &&& report.primary().len() == 1
                    &&& report.primary()[0].file_id == file_id
                    &&& report.primary()[0].location == location
                    &&& report.primary()[0].message@ == "in this definition"@
                },
                None => report.primary().len() == 0,
            },
    {
        let mut report = match self {
            CFGError::DuplicateDeclaration => Report::new(
                "duplicate-declaration".to_owned(),
                MessageCategory::Error,
                "A name is declared twice in one scope.".to_owned(),
            ),
            CFGError::UnknownSymbol => Report::new(
                "unknown-symbol".to_owned(),
                MessageCategory::Error,
                "A name is used that is not declared.".to_owned(),
            ),
            CFGError::ShadowingSignal => Report::new(
                "shadowing-signal".to_owned(),
                MessageCategory::Error,
                "A local variable has the name of a signal.".to_owned(),
            ),
            CFGError::MalformedInitBlock => Report::new(
                "malformed-initialization-block".to_owned(),
                MessageCategory::Error,
                "An initialization block holds a statement that is neither a declaration nor a substitution.".to_owned(),
            ),
            CFGError::EmptyCfg => Report::new(
                "empty-cfg".to_owned(),
                MessageCategory::Error,
                "The definition has no entry block.".to_owned(),
            ),
        };
        match file_id {
            Some(file_id) => {
                report.add_primary(location, file_id, "in this definition".to_owned());
            },
            None => {},
        }
        report
    }
}

/// Whether a primary label of the report lies in a file that the user named.
pub fn filter_by_file(report: &Report, user_inputs: &HashSet<FileID>) -> (r: bool)
    ensures
        r == exists|i: int|
            0 <= i < report.primary().len() && user_inputs@.contains(
                (#[trigger] report.primary()[i]).file_id,
            ),
{
    let labels = report.primary_labels();
    let mut i: usize = 0;
    while i < labels.len()
        invariant
            i <= labels@.len(),
            labels@ == report.primary(),
            forall|k: int| 0 <= k < i ==> !user_inputs@.contains((#[trigger] labels@[k]).file_id),
        decreases labels@.len() - i,
    {
        if user_inputs.contains(&labels[i].file_id) {
            return true;
        }
        i += 1;
    }
    false
}

/// Whether the severity of the report is `output_level` or a higher one.
pub fn filter_by_level(report: &Report, output_level: &MessageCategory) -> (r: bool)
    ensures
        r == (severity(report.spec_category()) >= severity(*output_level)),
{
    report.category().at_least(output_level)
}

/// Whether the identifier of the report is none of `allow_list`.
pub fn filter_by_id(report: &Report, allow_list: &[String]) -> (r: bool)
    ensures
        r == forall|i: int|
            0 <= i < allow_list@.len() ==> (#[trigger] allow_list@[i])@ != report.spec_id(),
{
    let id = report.id();
    let mut i: usize = 0;
    while i < allow_list.len()
        invariant
            i <= allow_list@.len(),
            id@ == report.spec_id(),
            forall|k: int| 0 <= k < i ==> (#[trigger] allow_list@[k])@ != report.spec_id(),
        decreases allow_list@.len() - i,
    {
        if allow_list[i] == id {
            return false;
        }
        i += 1;
    }
    true
}

} // verus!
