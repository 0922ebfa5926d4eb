use ores_cli_sidecar_module::env_boundary::detail_map::DetailMap;
use ores_cli_sidecar_module::env_boundary::model::{CommandReport, Finding, Severity};
use serde_json::Value;

#[test]
fn detail_map_reads_back_what_was_written() {
    let mut map = DetailMap::new();
    assert_eq!(map.len(), 0);
    map.insert("b", Value::from(2));
    map.insert("a", Value::from("one"));
    map.insert("c", Value::Bool(true));
    map.insert("b", Value::from(20));
    assert_eq!(map.len(), 3);
    assert_eq!(map.get("a"), Some(&Value::from("one")));
    assert_eq!(map.get("b"), Some(&Value::from(20)));
    assert_eq!(map.get("c"), Some(&Value::Bool(true)));
    assert_eq!(map.get("d"), None);
}

#[test]
fn detail_map_keeps_keys_in_byte_order() {
    let mut map = DetailMap::new();
    for key in ["zeta", "alpha", "Beta", "alphabet", "é", "a"] {
        map.insert(key, Value::Null);
    }
    let debug = format!("{map:?}");
    let positions: Vec<usize> = ["\"Beta\"", "\"a\"", "\"alpha\"", "\"alphabet\"", "\"zeta\"", "\"é\""]
        .iter()
        .map(|k| debug.find(k).expect("key printed"))
        .collect();
    assert!(positions.windows(2).all(|w| w[0] < w[1]), "{debug}");
}

#[test]
fn findings_and_reports_carry_details_and_metadata() {
    let finding = Finding::error("code", "message")
        .with_target("target")
        .with_detail("count", Value::from(3))
        .with_detail("count", Value::from(4));
    assert_eq!(finding.severity, Severity::Error);
    assert_eq!(finding.target.as_deref(), Some("target"));
    assert_eq!(finding.details.get("count"), Some(&Value::from(4)));
    assert_eq!(finding.details.len(), 1);

    let mut report = CommandReport::new("audit repo");
    report.insert_metadata("profile", Value::from("baseline"));
    report.push(finding);
    report.push(Finding::info("note", "fine"));
    assert_eq!(report.issue_count(), 1);
    assert_eq!(report.metadata.get("profile"), Some(&Value::from("baseline")));
    let report = report.finalize();
    assert_eq!(report.command, "audit repo");
    assert_eq!(report.findings.len(), 2);
}

#[test]
fn cloned_detail_map_keeps_keys_and_values() {
    let mut map = DetailMap::new();
    map.insert("b", Value::from(2));
    map.insert("a", Value::from("one"));
    let copy = map.clone();
    assert_eq!(copy.len(), 2);
    assert_eq!(copy.get("a"), Some(&Value::from("one")));
    assert_eq!(copy.get("b"), Some(&Value::from(2)));
    assert_eq!(format!("{copy:?}"), format!("{map:?}"));
}
