//! Findings and the command report that collects them.

use vstd::prelude::*;

verus! {

/// How serious a finding is.
#[derive(Debug, Clone, Copy, PartialEq, Eq, Structural)]
pub enum Severity {
    Error,
    Info,
}

/// One observation of an audit: a machine-readable code, a human message,
/// an optional location and a severity.
#[derive(Debug, Clone)]
pub struct Finding {
    pub code: String,
    pub message: String,
    pub target: Option<String>,
    pub severity: Severity,
}

/// The mathematical value of a [`Finding`].
pub struct FindingView {
    pub code: Seq<char>,
    pub message: Seq<char>,
    pub target: Option<Seq<char>>,
    pub severity: Severity,
}

/// The view of an optional string.
pub open spec fn opt_text_view(s: Option<String>) -> Option<Seq<char>> {
    match s {
        Some(t) => Some(t@),
        None => None,
    }
}

impl View for Finding {
    type V = FindingView;

    open spec fn view(&self) -> FindingView {
        FindingView {
            code: self.code@,
            message: self.message@,
            target: opt_text_view(self.target),
            severity: self.severity,
        }
    }
}

impl Finding {
    /// A finding of severity `Error` without a target.
    pub fn error(code: &str, message: &str) -> (finding: Self)
        ensures
            finding@ == (FindingView {
                code: code@,
                message: message@,
                target: None,
                severity: Severity::Error,
            }),
    {
        Finding {
            code: code.to_owned(),
            message: message.to_owned(),
            target: None,
            severity: Severity::Error,
        }
    }

    /// A finding of severity `Info` without a target.
    pub fn info(code: &str, message: &str) -> (finding: Self)
        ensures
            finding@ == (FindingView {
                code: code@,
                message: message@,
                target: None,
                severity: Severity::Info,
            }),
    {
        Finding {
            code: code.to_owned(),
            message: message.to_owned(),
            target: None,
            severity: Severity::Info,
        }
    }

    /// The same finding, located at `target`.
    pub fn with_target(self, target: &str) -> (finding: Self)
        ensures
            finding@ == (FindingView { target: Some(target@), ..self@ }),
    {
        let mut finding = self;
        finding.target = Some(target.to_owned());
        finding
    }
}

/// The number of findings of severity `Error` in `findings`.
pub open spec fn error_count(findings: Seq<FindingView>) -> nat
    decreases findings.len(),
{
    if findings.len() == 0 {
        0
    } else {
        error_count(findings.drop_last()) + if findings.last().severity == Severity::Error {
            1nat
        } else {
            0nat
        }
    }
}

/// Counting errors distributes over concatenation.
pub proof fn lemma_error_count_append(a: Seq<FindingView>, b: Seq<FindingView>)
    ensures
        error_count(a + b) == error_count(a) + error_count(b),
    decreases b.len(),
{
    if b.len() == 0 {
        assert(a + b =~= a);
    } else {
        lemma_error_count_append(a, b.drop_last());
        assert((a + b).drop_last() =~= a + b.drop_last());
    }
}

/// Pushing a finding raises the error count by one exactly when the
/// finding is an error.
pub proof fn lemma_push_error_count(findings: Seq<FindingView>, finding: FindingView)
    ensures
        error_count(findings.push(finding)) == error_count(findings) + if finding.severity == Severity::Error {
            1nat
        } else {
            0nat
        },
{
    assert(findings.push(finding).drop_last() =~= findings);
}

/// Whether a finding is an error.
pub open spec fn is_error_finding() -> spec_fn(FindingView) -> bool {
    |f: FindingView| f.severity == Severity::Error
}

/// The error count of `findings` is the number of its findings whose
/// severity is `Error`: the length of the subsequence of its errors.
pub proof fn lemma_error_count_counts_errors(findings: Seq<FindingView>)
    ensures
        error_count(findings) == findings.filter(is_error_finding()).len(),
    decreases findings.len(),
{
    reveal(Seq::filter);
    if findings.len() > 0 {
        lemma_error_count_counts_errors(findings.drop_last());
    }
}

/// Pushing an error finding raises the error count by one; pushing any
/// other finding leaves it as it was.
pub proof fn lemma_push_changes_error_count(findings: Seq<FindingView>, finding: FindingView)
    ensures
        finding.severity == Severity::Error ==> error_count(findings.push(finding)) == error_count(findings) + 1,
        finding.severity != Severity::Error ==> error_count(findings.push(finding)) == error_count(findings),
{
    lemma_error_count_counts_errors(findings);
    lemma_error_count_counts_errors(findings.push(finding));
    reveal(Seq::filter);
    assert(findings.push(finding).drop_last() =~= findings);
}

/// A report of one command: its name and the findings collected in order.
#[derive(Debug, Clone)]
pub struct CommandReport {
    pub command: String,
    pub findings: Vec<Finding>,
}

/// The mathematical value of a [`CommandReport`].
pub struct CommandReportView {
    pub command: Seq<char>,
    pub findings: Seq<FindingView>,
}

impl View for CommandReport {
    type V = CommandReportView;

    open spec fn view(&self) -> CommandReportView {
        CommandReportView {
            command: self.command@,
            findings: self.findings@.map_values(|f: Finding| f@),
        }
    }
}

impl CommandReport {
    /// An empty report for `command`.
    pub fn new(command: &str) -> (report: Self)
        ensures
            report@.command == command@,
            report@.findings == Seq::<FindingView>::empty(),
    {
        CommandReport { command: command.to_owned(), findings: Vec::new() }
    }

    /// Appends `finding` to the report.
    pub fn push(&mut self, finding: Finding)
        ensures
            final(self)@.command == old(self)@.command,
            final(self)@.findings == old(self)@.findings.push(finding@),
    {
        self.findings.push(finding);
        proof {
            assert(self@.findings =~= old(self)@.findings.push(finding@));
        }
    }

    /// The number of findings of severity `Error`.
    pub fn issue_count(&self) -> (count: usize)
        ensures
            count == error_count(self@.findings),
    {
        let mut count: usize = 0;
        let mut i: usize = 0;
        while i < self.findings.len()
            invariant
                i <= self.findings.len(),
                count <= i,
                count == error_count(self@.findings.take(i as int)),
            decreases self.findings.len() - i,
        {
            proof {
                assert(self@.findings.take(i + 1).drop_last() =~= self@.findings.take(i as int));
            }
            if self.findings[i].severity == Severity::Error {
                count = count + 1;
            }
            i = i + 1;
        }
        proof {
            assert(self@.findings.take(i as int) =~= self@.findings);
        }
        count
    }

    /// The finished report, unchanged.
    pub fn finalize(self) -> (report: Self)
        ensures
            report@ == self@,
    {
        self
    }
}

} // verus!
