use ores_cli_sidecar_module::audit::{audit_sidecar_document, audit_sidecar_text, parse_sidecar_config};
use ores_cli_sidecar_module::model::{CommandReport, Finding, Severity};
use ores_cli_sidecar_module::toml_tree::TomlValue;

const BASE: &str = r#"
protocol = "ores.sidecar-config.v1"

[runtimeUpdates]
provider = "ores-redis-lru-cache"
lruConfigPath = ".ores-lru.toml"
role = "server"
cache = "runtime-env"

[[sidecars]]
name = "api"
enabled = true
bindIp = "127.0.0.1"
bindPort = 7410
loopbackOnly = true
runtimeNamespace = "example-api"
runtimeKeys = ["REQUEST_TIMEOUT_MS"]
"#;

fn audit_into(contents: &str, report: CommandReport) -> CommandReport {
    let root = parse_sidecar_config(contents).expect("the configuration is a TOML table");
    audit_sidecar_document(&root, report)
}

fn audit(contents: &str) -> CommandReport {
    audit_sidecar_text(contents, CommandReport::new("audit repo"))
}

fn located(report: &CommandReport) -> Vec<(String, String)> {
    report
        .findings
        .iter()
        .map(|f| (f.code.clone(), f.target.clone().unwrap_or_default()))
        .collect()
}

fn pair(code: &str, target: &str) -> (String, String) {
    (code.to_owned(), target.to_owned())
}

#[test]
fn clean_config_gets_exactly_the_inspected_finding() {
    let report = audit(BASE);
    assert_eq!(report.findings.len(), 1);
    let finding = &report.findings[0];
    assert_eq!(finding.code, "sidecar-domain-inspected");
    assert_eq!(
        finding.message,
        ".ores-sidecar.toml passed the bounded peer-authority/runtime invariant audit"
    );
    assert_eq!(finding.target.as_deref(), Some(".ores-sidecar.toml"));
    assert_eq!(finding.severity, Severity::Info);
    assert_eq!(report.command, "audit repo");
}

#[test]
fn earlier_findings_are_kept_and_issue_count_grows_by_the_errors_found() {
    let mut start = CommandReport::new("audit repo");
    start.push(Finding::error("earlier", "an earlier problem").with_target("elsewhere"));
    let report = audit_into(&BASE.replace("role = \"server\"", "role = \"client\""), start);
    assert_eq!(report.findings[0].code, "earlier");
    assert_eq!(report.findings[0].target.as_deref(), Some("elsewhere"));
    assert_eq!(report.issue_count(), 2);
    assert_eq!(
        located(&report)[1..].to_vec(),
        vec![pair("sidecar-runtime-role", "runtimeUpdates.role")]
    );
}

#[test]
fn clean_config_after_earlier_errors_still_gets_the_inspected_finding() {
    let mut start = CommandReport::new("audit repo");
    start.push(Finding::error("earlier", "an earlier problem"));
    let report = audit_into(BASE, start);
    assert_eq!(report.issue_count(), 1);
    assert_eq!(report.findings.len(), 2);
    assert_eq!(report.findings[1].code, "sidecar-domain-inspected");
}

#[test]
fn root_level_errors_come_in_order() {
    let report = audit(
        "zeta = 1\nalpha = true\nprotocol = 3\nruntimeUpdates = \"x\"\nsidecars = \"y\"\n",
    );
    assert_eq!(
        located(&report),
        vec![
            pair("sidecar-unknown-field", "root.alpha"),
            pair("sidecar-unknown-field", "root.zeta"),
            pair("sidecar-protocol", "protocol"),
            pair("sidecar-runtime-updates-shape", "runtimeUpdates"),
            pair("sidecar-list-shape", "sidecars"),
        ]
    );
    assert!(report.findings.iter().all(|f| f.severity == Severity::Error));
    assert_eq!(report.issue_count(), 5);
}

#[test]
fn runtime_update_errors_each_field() {
    let text = r#"
protocol = "ores.sidecar-config.v1"

[runtimeUpdates]
provider = "other"
lruConfigPath = 7
role = "client"
extra = 1

[[sidecars]]
name = "api"
enabled = true
bindIp = "127.0.0.1"
bindPort = 7410
loopbackOnly = true
runtimeNamespace = "example-api"
runtimeKeys = []
"#;
    assert_eq!(
        located(&audit(text)),
        vec![
            pair("sidecar-unknown-field", "runtimeUpdates.extra"),
            pair("sidecar-runtime-provider", "runtimeUpdates.provider"),
            pair("sidecar-runtime-role", "runtimeUpdates.role"),
            pair("sidecar-string-shape", "runtimeUpdates.lruConfigPath"),
            pair("sidecar-runtime-cache", "runtimeUpdates.cache"),
        ]
    );
}

#[test]
fn lru_config_paths_must_be_bounded_and_relative() {
    let with_path = |p: &str| BASE.replace("lruConfigPath = \".ores-lru.toml\"", &format!("lruConfigPath = \"{p}\""));
    let lru = |p: &str| located(&audit(&with_path(p))).contains(&pair("sidecar-runtime-lru-path", "runtimeUpdates.lruConfigPath"));
    assert!(lru(""));
    assert!(lru("/etc/ores-lru.toml"));
    assert!(lru(".."));
    assert!(lru("config/../x.toml"));
    assert!(lru("config/.."));
    assert!(lru(&"a".repeat(257)));
    assert!(!lru(&"a".repeat(256)));
    assert!(!lru("config/..x/...toml"));
    assert!(!lru("./config/x.toml"));
    assert!(!lru("config//x.toml"));
}

#[test]
fn sidecar_list_entry_and_count_errors() {
    let head = "protocol = \"ores.sidecar-config.v1\"\n";
    let updates = "[runtimeUpdates]\nprovider = \"ores-redis-lru-cache\"\nlruConfigPath = \"a.toml\"\nrole = \"server\"\ncache = \"runtime-env\"\n";
    let entries = format!("{head}sidecars = [1, \"two\"]\n{updates}");
    assert_eq!(
        located(&audit(&entries)),
        vec![
            pair("sidecar-entry-shape", "sidecars[0]"),
            pair("sidecar-entry-shape", "sidecars[1]"),
        ]
    );
    let many = format!("{head}sidecars = [{}]\n{updates}", vec!["1"; 65].join(", "));
    let report = audit(&many);
    assert_eq!(report.findings[0].code, "sidecar-count");
    assert_eq!(report.findings[0].target.as_deref(), Some("sidecars"));
    assert_eq!(report.findings.len(), 66);
    assert_eq!(report.findings[65].target.as_deref(), Some("sidecars[64]"));
}

#[test]
fn sidecar_field_errors_come_in_order_with_their_targets() {
    let text = r#"
protocol = "ores.sidecar-config.v1"

[runtimeUpdates]
provider = "ores-redis-lru-cache"
lruConfigPath = ".ores-lru.toml"
role = "server"
cache = "runtime-env"

[[sidecars]]
name = "api"
enabled = true
bindIp = "127.0.0.1"
bindPort = 7410
loopbackOnly = true
runtimeNamespace = "example-api"
runtimeKeys = ["A"]

[[sidecars]]
name = "api"
enabled = "yes"
bindIp = "not an address"
bindPort = 70000
loopbackOnly = 1
runtimeNamespace = ""
runtimeKeys = ["OK_KEY", 5, "OK_KEY", "lower_secret", "9START"]
color = "blue"
"#;
    assert_eq!(
        located(&audit(text)),
        vec![
            pair("sidecar-unknown-field", "sidecars[1].color"),
            pair("sidecar-duplicate-name", "sidecars[1].name"),
            pair("sidecar-boolean-shape", "sidecars[1].enabled"),
            pair("sidecar-bind-ip", "sidecars[1].bindIp"),
            pair("sidecar-u16-shape", "sidecars[1].bindPort"),
            pair("sidecar-boolean-shape", "sidecars[1].loopbackOnly"),
            pair("sidecar-segment-shape", "sidecars[1].runtimeNamespace"),
            pair("sidecar-string-array-shape", "sidecars[1].runtimeKeys[1]"),
            pair("sidecar-runtime-key-duplicate", "sidecars[1].runtimeKeys[2]"),
            pair("sidecar-runtime-key-shape", "sidecars[1].runtimeKeys[3]"),
            pair("sidecar-runtime-key-sensitive", "sidecars[1].runtimeKeys[3]"),
            pair("sidecar-runtime-key-shape", "sidecars[1].runtimeKeys[4]"),
        ]
    );
}

#[test]
fn missing_sidecar_fields_are_reported() {
    let text = r#"
protocol = "ores.sidecar-config.v1"

[runtimeUpdates]
provider = "ores-redis-lru-cache"
lruConfigPath = ".ores-lru.toml"
role = "server"
cache = "runtime-env"

[[sidecars]]
"#;
    assert_eq!(
        located(&audit(text)),
        vec![
            pair("sidecar-string-shape", "sidecars[0].name"),
            pair("sidecar-boolean-shape", "sidecars[0].enabled"),
            pair("sidecar-string-shape", "sidecars[0].bindIp"),
            pair("sidecar-u16-shape", "sidecars[0].bindPort"),
            pair("sidecar-boolean-shape", "sidecars[0].loopbackOnly"),
            pair("sidecar-string-shape", "sidecars[0].runtimeNamespace"),
            pair("sidecar-string-array-shape", "sidecars[0].runtimeKeys"),
        ]
    );
}

#[test]
fn loopback_rule_needs_a_loopback_address_only_when_set() {
    let routable = BASE.replace("bindIp = \"127.0.0.1\"", "bindIp = \"10.0.0.5\"");
    assert_eq!(
        located(&audit(&routable)),
        vec![pair("sidecar-loopback-bind", "sidecars[0].bindIp")]
    );
    let open = routable.replace("loopbackOnly = true", "loopbackOnly = false");
    assert_eq!(audit(&open).issue_count(), 0);
    let v6 = BASE.replace("bindIp = \"127.0.0.1\"", "bindIp = \"::1\"");
    assert_eq!(audit(&v6).issue_count(), 0);
    let bad = BASE.replace("bindIp = \"127.0.0.1\"", "bindIp = \"localhost\"");
    assert_eq!(
        located(&audit(&bad)),
        vec![pair("sidecar-bind-ip", "sidecars[0].bindIp")]
    );
}

#[test]
fn runtime_key_count_is_bounded() {
    let keys: Vec<String> = (0..129).map(|i| format!("\"K{i}\"")).collect();
    let text = BASE.replace("[\"REQUEST_TIMEOUT_MS\"]", &format!("[{}]", keys.join(", ")));
    assert_eq!(
        located(&audit(&text)),
        vec![pair("sidecar-runtime-key-count", "sidecars[0].runtimeKeys")]
    );
    let keys: Vec<String> = (0..128).map(|i| format!("\"K{i}\"")).collect();
    let text = BASE.replace("[\"REQUEST_TIMEOUT_MS\"]", &format!("[{}]", keys.join(", ")));
    assert_eq!(audit(&text).issue_count(), 0);
}

#[test]
fn text_that_is_not_toml_leaves_the_report_unchanged() {
    let mut start = CommandReport::new("audit repo");
    start.push(Finding::info("earlier", "kept"));
    let report = audit_sidecar_text("protocol = = 1", start);
    assert_eq!(report.findings.len(), 1);
    assert_eq!(report.findings[0].code, "earlier");
}

#[test]
fn ipv6_and_mapped_addresses_follow_the_loopback_rule() {
    let with_ip = |ip: &str| BASE.replace("bindIp = \"127.0.0.1\"", &format!("bindIp = \"{ip}\""));
    assert_eq!(audit(&with_ip("::1")).issue_count(), 0);
    assert_eq!(audit(&with_ip("127.8.9.10")).issue_count(), 0);
    assert_eq!(
        located(&audit(&with_ip("::ffff:127.0.0.1"))),
        vec![pair("sidecar-loopback-bind", "sidecars[0].bindIp")]
    );
    assert_eq!(
        located(&audit(&with_ip("127.0.0.01"))),
        vec![pair("sidecar-bind-ip", "sidecars[0].bindIp")]
    );
}

#[test]
fn parse_sidecar_config_reads_the_root_table() {
    let root = parse_sidecar_config("b = 1\na = \"x\"\n[t]\nflag = true\nlist = [1.5, 2]\n")
        .expect("table");
    assert_eq!(root.len(), 3);
    assert_eq!(root[0].0, "a");
    assert!(matches!(&root[0].1, TomlValue::String(s) if s == "x"));
    assert_eq!(root[1].0, "b");
    assert!(matches!(root[1].1, TomlValue::Integer(1)));
    assert_eq!(root[2].0, "t");
    match &root[2].1 {
        TomlValue::Table(t) => {
            assert_eq!(t[0].0, "flag");
            assert!(matches!(t[0].1, TomlValue::Boolean(true)));
            assert_eq!(t[1].0, "list");
            match &t[1].1 {
                TomlValue::Array(items) => {
                    assert!(matches!(items[0], TomlValue::Other));
                    assert!(matches!(items[1], TomlValue::Integer(2)));
                }
                other => panic!("not an array: {other:?}"),
            }
        }
        other => panic!("not a table: {other:?}"),
    }
}

#[test]
fn parse_sidecar_config_rejects_text_that_is_not_toml() {
    assert!(parse_sidecar_config("protocol = = 1").is_none());
    assert!(parse_sidecar_config("[a]\n[a]\n").is_none());
    assert!(parse_sidecar_config("").is_some());
}
