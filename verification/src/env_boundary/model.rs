//! Findings with structured details, and reports with structured metadata.

use vstd::prelude::*;

use crate::env_boundary::detail_map::{insert_sorted, DetailMap};
pub use crate::model::Severity;

verus! {

/// One observation of an audit: a code, a message, an optional location, a
/// severity and structured details keyed by name.
#[derive(Debug, Clone)]
pub struct Finding {
    pub code: String,
    pub message: String,
    pub target: Option<String>,
    pub severity: Severity,
    pub details: DetailMap,
}

/// The mathematical value of a [`Finding`].
pub struct FindingView {
    pub code: Seq<char>,
    pub message: Seq<char>,
    pub target: Option<Seq<char>>,
    pub severity: Severity,
    pub details: Seq<(Seq<char>, serde_json::Value)>,
}

impl View for Finding {
    type V = FindingView;

    open spec fn view(&self) -> FindingView {
        FindingView {
            code: self.code@,
            message: self.message@,
            target: crate::model::opt_text_view(self.target),
            severity: self.severity,
            details: self.details@,
        }
    }
}

impl Finding {
    /// A finding of severity `Error` without a target or details.
    pub fn error(code: &str, message: &str) -> (finding: Self)
        ensures
            finding@ == (FindingView {
                code: code@,
                message: message@,
                target: None,
                severity: Severity::Error,
                details: Seq::empty(),
            }),
    {
        Finding {
            code: code.to_owned(),
            message: message.to_owned(),
            target: None,
            severity: Severity::Error,
            details: DetailMap::new(),
        }
    }

    /// A finding of severity `Info` without a target or details.
    pub fn info(code: &str, message: &str) -> (finding: Self)
        ensures
            finding@ == (FindingView {
                code: code@,
                message: message@,
                target: None,
                severity: Severity::Info,
                details: Seq::empty(),
            }),
    {
        Finding {
            code: code.to_owned(),
            message: message.to_owned(),
            target: None,
            severity: Severity::Info,
            details: DetailMap::new(),
        }
    }

    /// The same finding, located at `target`.
    pub fn with_target(self, target: &str) -> (finding: Self)
        ensures
            finding@ == (FindingView { target: Some(target@), ..self@ }),
    {
        let mut finding = self;
        finding.target = Some(target.to_owned());
        finding
    }

    /// The same finding, with `value` stored under `key` in its details.
    pub fn with_detail(self, key: &str, value: serde_json::Value) -> (finding: Self)
        ensures
            finding@ == (FindingView { details: insert_sorted(self@.details, key@, value), ..self@ }),
    {
        let mut finding = self;
        finding.details.insert(key, value);
        finding
    }
}

/// The number of findings of severity `Error` in `findings`.
pub open spec fn error_count(findings: Seq<FindingView>) -> nat
    decreases findings.len(),
{
    if findings.len() == 0 {
        0
    } else {
        error_count(findings.drop_last()) + if findings.last().severity == Severity::Error {
            1nat
        } else {
            0nat
        }
    }
}

/// Whether a finding is an error.
pub open spec fn is_error_finding() -> spec_fn(FindingView) -> bool {
    |f: FindingView| f.severity == Severity::Error
}

/// The error count of `findings` is the number of its findings whose
/// severity is `Error`: the length of the subsequence of its errors.
pub proof fn lemma_error_count_counts_errors(findings: Seq<FindingView>)
    ensures
        error_count(findings) == findings.filter(is_error_finding()).len(),
    decreases findings.len(),
{
    reveal(Seq::filter);
    if findings.len() > 0 {
        lemma_error_count_counts_errors(findings.drop_last());
    }
}

/// Pushing an error finding raises the error count by one; pushing any
/// other finding leaves it as it was.
pub proof fn lemma_push_changes_error_count(findings: Seq<FindingView>, finding: FindingView)
    ensures
        finding.severity == Severity::Error ==> error_count(findings.push(finding)) == error_count(findings) + 1,
        finding.severity != Severity::Error ==> error_count(findings.push(finding)) == error_count(findings),
{
    lemma_error_count_counts_errors(findings);
    lemma_error_count_counts_errors(findings.push(finding));
    reveal(Seq::filter);
    assert(findings.push(finding).drop_last() =~= findings);
}

/// A report of one command: its name, the findings collected in order, and
/// structured metadata keyed by name.
#[derive(Debug, Clone)]
pub struct CommandReport {
    pub command: String,
    pub findings: Vec<Finding>,
    pub metadata: DetailMap,
}

/// The mathematical value of a [`CommandReport`].
pub struct CommandReportView {
    pub command: Seq<char>,
    pub findings: Seq<FindingView>,
    pub metadata: Seq<(Seq<char>, serde_json::Value)>,
}

impl View for CommandReport {
    type V = CommandReportView;

    open spec fn view(&self) -> CommandReportView {
        CommandReportView {
            command: self.command@,
            findings: self.findings@.map_values(|f: Finding| f@),
            metadata: self.metadata@,
        }
    }
}

impl CommandReport {
    /// An empty report for `command`.
    pub fn new(command: &str) -> (report: Self)
        ensures
            report@.command == command@,
            report@.findings == Seq::<FindingView>::empty(),
            report@.metadata == Seq::<(Seq<char>, serde_json::Value)>::empty(),
    {
        CommandReport { command: command.to_owned(), findings: Vec::new(), metadata: DetailMap::new() }
    }

    /// Appends `finding` to the report.
    pub fn push(&mut self, finding: Finding)
        ensures
            final(self)@ == (CommandReportView { findings: old(self)@.findings.push(finding@), ..old(self)@ }),
    {
        self.findings.push(finding);
        proof {
            assert(self@.findings =~= old(self)@.findings.push(finding@));
        }
    }

    /// Stores `value` under `key` in the report's metadata.
    pub fn insert_metadata(&mut self, key: &str, value: serde_json::Value)
        ensures
            final(self)@ == (CommandReportView {
                metadata: insert_sorted(old(self)@.metadata, key@, value),
                ..old(self)@
            }),
    {
        self.metadata.insert(key, value);
    }

    /// The number of findings of severity `Error`.
    pub fn issue_count(&self) -> (count: usize)
        ensures
            count == error_count(self@.findings),
    {
        let mut count: usize = 0;
        let mut i: usize = 0;
        while i < self.findings.len()
            invariant
                i <= self.findings.len(),
                count <= i,
                count == error_count(self@.findings.take(i as int)),
            decreases self.findings.len() - i,
        {
            proof {
                assert(self@.findings.take(i + 1).drop_last() =~= self@.findings.take(i as int));
            }
            if self.findings[i].severity == Severity::Error {
                count = count + 1;
            }
            i = i + 1;
        }
        proof {
            assert(self@.findings.take(i as int) =~= self@.findings);
        }
        count
    }

    /// The finished report, unchanged.
    pub fn finalize(self) -> (report: Self)
        ensures
            report@ == self@,
    {
        self
    }
}

} // verus!
