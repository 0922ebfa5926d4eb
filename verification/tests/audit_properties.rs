use ores_cli_sidecar_module::audit::audit_sidecar_text;
use ores_cli_sidecar_module::model::{CommandReport, Severity};

const HEAD: &str = "protocol = \"ores.sidecar-config.v1\"\n";
const UPDATES: &str = "[runtimeUpdates]\nprovider = \"ores-redis-lru-cache\"\nlruConfigPath = \"a.toml\"\nrole = \"server\"\ncache = \"runtime-env\"\n";

fn sidecar(name: &str) -> String {
    format!(
        "[[sidecars]]\nname = \"{name}\"\nenabled = true\nbindIp = \"127.0.0.1\"\nbindPort = 7410\nloopbackOnly = true\nruntimeNamespace = \"ns\"\nruntimeKeys = [\"A\"]\n"
    )
}

fn located(text: &str) -> Vec<(String, String)> {
    audit_sidecar_text(text, CommandReport::new("audit repo"))
        .findings
        .iter()
        .map(|f| (f.code.clone(), f.target.clone().unwrap_or_default()))
        .collect()
}

fn pair(code: &str, target: &str) -> (String, String) {
    (code.to_owned(), target.to_owned())
}

fn with_sidecars(n: usize) -> String {
    let names: Vec<String> = (0..n).map(|i| sidecar(&format!("s{i}"))).collect();
    format!("{HEAD}{UPDATES}{}", names.concat())
}

#[test]
fn count_error_comes_only_for_no_entry_or_more_than_sixty_four() {
    let empty = format!("{HEAD}sidecars = []\n{UPDATES}");
    assert_eq!(located(&empty), vec![pair("sidecar-count", "sidecars")]);
    for n in [1usize, 64] {
        let findings = located(&with_sidecars(n));
        assert_eq!(findings, vec![pair("sidecar-domain-inspected", ".ores-sidecar.toml")]);
    }
    let findings = located(&with_sidecars(65));
    assert_eq!(findings, vec![pair("sidecar-count", "sidecars")]);
}

#[test]
fn every_sidecar_finding_is_an_error_under_sidecars() {
    let text = format!("{HEAD}sidecars = [1, {{ name = 5 }}]\n{UPDATES}");
    let report = audit_sidecar_text(&text, CommandReport::new("audit repo"));
    assert!(!report.findings.is_empty());
    for finding in &report.findings {
        assert_eq!(finding.severity, Severity::Error);
        assert!(finding.target.as_deref().unwrap().starts_with("sidecars"));
    }
    assert_eq!(report.findings[0].code, "sidecar-entry-shape");
    assert_eq!(report.findings[0].target.as_deref(), Some("sidecars[0]"));
    assert!(report.findings[1..]
        .iter()
        .all(|f| f.target.as_deref().unwrap().starts_with("sidecars[1]")));
}

#[test]
fn duplicate_names_count_invalid_names_and_skip_the_first() {
    let text = format!(
        "{HEAD}{UPDATES}{}{}{}",
        sidecar("bad name"),
        sidecar("ok"),
        sidecar("bad name")
    );
    assert_eq!(
        located(&text),
        vec![
            pair("sidecar-segment-shape", "sidecars[0].name"),
            pair("sidecar-segment-shape", "sidecars[2].name"),
            pair("sidecar-duplicate-name", "sidecars[2].name"),
        ]
    );
}

#[test]
fn a_non_table_entry_gets_only_the_entry_shape_error_and_later_entries_are_checked() {
    let text = format!("{HEAD}sidecars = [\"x\", {{ name = \"x\" }}]\n{UPDATES}");
    let findings = located(&text);
    assert_eq!(findings[0], pair("sidecar-entry-shape", "sidecars[0]"));
    assert_eq!(
        findings.iter().filter(|(_, t)| t.starts_with("sidecars[0]")).count(),
        1
    );
    assert!(findings.iter().any(|(c, t)| c == "sidecar-boolean-shape" && t == "sidecars[1].enabled"));
    assert!(!findings.iter().any(|(c, _)| c == "sidecar-duplicate-name"));
}

#[test]
fn an_unknown_field_named_like_a_runtime_key_item_stays_apart() {
    let text = format!(
        "{HEAD}{UPDATES}{}\"runtimeKeys[0]\" = 1\n",
        sidecar("api").replace("[\"A\"]", "[\"A\", \"A\"]")
    );
    assert_eq!(
        located(&text),
        vec![
            pair("sidecar-unknown-field", "sidecars[0].runtimeKeys[0]"),
            pair("sidecar-runtime-key-duplicate", "sidecars[0].runtimeKeys[1]"),
        ]
    );
}

#[test]
fn root_rules_report_unknown_root_keys_then_the_protocol() {
    let text = format!("zeta = 1\nprotocol = \"other\"\nalpha = 2\n{UPDATES}{}", sidecar("api"));
    let findings = located(&text);
    let at_root: Vec<_> = findings.iter().filter(|(_, t)| t.starts_with("root.")).cloned().collect();
    assert_eq!(
        at_root,
        vec![
            pair("sidecar-unknown-field", "root.alpha"),
            pair("sidecar-unknown-field", "root.zeta"),
        ]
    );
    let protocol: Vec<_> = findings.iter().filter(|(c, _)| c == "sidecar-protocol").cloned().collect();
    assert_eq!(protocol, vec![pair("sidecar-protocol", "protocol")]);
    let fixed = text.replace("protocol = \"other\"", "protocol = \"ores.sidecar-config.v1\"");
    assert!(!located(&fixed).iter().any(|(c, _)| c == "sidecar-protocol"));
}
