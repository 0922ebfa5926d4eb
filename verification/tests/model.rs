use ores_cli_sidecar_module::model::{CommandReport, Finding, Severity};

#[test]
fn findings_carry_code_message_target_and_severity() {
    let error = Finding::error("code-a", "message a");
    assert_eq!(error.code, "code-a");
    assert_eq!(error.message, "message a");
    assert_eq!(error.target, None);
    assert_eq!(error.severity, Severity::Error);
    let info = Finding::info("code-b", "message b").with_target("place");
    assert_eq!(info.code, "code-b");
    assert_eq!(info.target.as_deref(), Some("place"));
    assert_eq!(info.severity, Severity::Info);
    let moved = info.with_target("other");
    assert_eq!(moved.target.as_deref(), Some("other"));
    assert_eq!(moved.message, "message b");
}

#[test]
fn issue_count_counts_errors_only() {
    let mut report = CommandReport::new("audit repo");
    assert_eq!(report.issue_count(), 0);
    report.push(Finding::info("i", "info"));
    assert_eq!(report.issue_count(), 0);
    report.push(Finding::error("e", "error"));
    report.push(Finding::error("e2", "error"));
    assert_eq!(report.issue_count(), 2);
    let report = report.finalize();
    assert_eq!(report.findings.len(), 3);
    assert_eq!(report.command, "audit repo");
    assert_eq!(report.findings[1].code, "e");
}

#[test]
fn audit_options_can_be_cloned() {
    let options = ores_cli_sidecar_module::audit::RepositoryAuditOptions {
        path: std::path::PathBuf::from("repo"),
        profile: "baseline".to_owned(),
        additional_required_paths: vec!["a".to_owned()],
    };
    let copy = options.clone();
    assert_eq!(copy.path, options.path);
    assert_eq!(copy.profile, "baseline");
    assert_eq!(copy.additional_required_paths, vec!["a".to_owned()]);
}
