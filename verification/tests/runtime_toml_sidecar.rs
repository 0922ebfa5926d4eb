use ores_cli_sidecar_module::audit::audit_sidecar_text;
use ores_cli_sidecar_module::model::CommandReport;

const OWNER_EXAMPLE: &str = r#"
protocol = "ores.sidecar-config.v1"

[runtimeUpdates]
provider = "ores-redis-lru-cache"
lruConfigPath = ".ores-lru.toml"
role = "server"
cache = "runtime-env"

[[sidecars]]
name = "api"
enabled = true
bindIp = "127.0.0.1"
bindPort = 7410
loopbackOnly = true
runtimeNamespace = "example-api"
runtimeKeys = ["REQUEST_TIMEOUT_MS"]

[[sidecars]]
name = "worker"
enabled = true
bindIp = "127.0.0.1"
bindPort = 7420
loopbackOnly = true
runtimeNamespace = "example-worker"
runtimeKeys = ["WORKER_BATCH_SIZE"]
"#;

fn audit(contents: &str) -> CommandReport {
    audit_sidecar_text(contents, CommandReport::new("audit repo"))
}

fn has(report: &CommandReport, code: &str) -> bool {
    report.findings.iter().any(|finding| finding.code == code)
}

#[test]
fn owner_example_passes_bounded_peer_authority_audit() {
    let report = audit(OWNER_EXAMPLE);
    assert_eq!(report.issue_count(), 0, "{:#?}", report.findings);
    assert!(has(&report, "sidecar-domain-inspected"));
}

#[test]
fn protocol_unknown_field_and_port_range_fail_closed() {
    let report = audit(
        &OWNER_EXAMPLE
            .replace("ores.sidecar-config.v1", "ores.sidecar-config.v2")
            .replace(
                "bindPort = 7410",
                "bindPort = 65536\nplaintextToken = \"nope\"",
            ),
    );
    assert!(has(&report, "sidecar-protocol"));
    assert!(has(&report, "sidecar-unknown-field"));
    assert!(has(&report, "sidecar-u16-shape"));
}

#[test]
fn missing_required_fields_fail_closed() {
    let report = audit(&OWNER_EXAMPLE.replace("cache = \"runtime-env\"\n", ""));
    assert!(has(&report, "sidecar-runtime-cache"));
}

#[test]
fn runtime_update_path_and_cache_fail_closed() {
    let report = audit(
        &OWNER_EXAMPLE
            .replace("lruConfigPath = \".ores-lru.toml\"", "lruConfigPath = \"../secrets/.ores-lru.toml\"")
            .replace("cache = \"runtime-env\"", "cache = \"redis-url\""),
    );
    assert!(has(&report, "sidecar-runtime-lru-path"));
    assert!(has(&report, "sidecar-runtime-cache"));
}

#[test]
fn sidecar_identity_listener_and_runtime_keys_fail_closed() {
    let report = audit(
        &OWNER_EXAMPLE
            .replace("name = \"worker\"", "name = \"api\"")
            .replace("bindIp = \"127.0.0.1\"", "bindIp = \"0.0.0.0\"")
            .replace("bindPort = 7410", "bindPort = 0")
            .replace("runtimeNamespace = \"example-api\"", "runtimeNamespace = \"bad namespace\"")
            .replace(
                "runtimeKeys = [\"REQUEST_TIMEOUT_MS\"]",
                "runtimeKeys = [\"REQUEST_TIMEOUT_MS\", \"REQUEST_TIMEOUT_MS\", \"API_TOKEN\", \"bad-key\"]",
            ),
    );
    assert!(has(&report, "sidecar-duplicate-name"));
    assert!(has(&report, "sidecar-u16-shape"));
    assert!(has(&report, "sidecar-loopback-bind"));
    assert!(has(&report, "sidecar-segment-shape"));
    assert!(has(&report, "sidecar-runtime-key-duplicate"));
    assert!(has(&report, "sidecar-runtime-key-sensitive"));
    assert!(has(&report, "sidecar-runtime-key-shape"));
}

#[test]
fn sidecar_count_is_bounded() {
    let report = audit(
        r#"
protocol = "ores.sidecar-config.v1"
sidecars = []

[runtimeUpdates]
provider = "ores-redis-lru-cache"
lruConfigPath = ".ores-lru.toml"
role = "server"
cache = "runtime-env"
"#,
    );
    assert!(has(&report, "sidecar-count"));
}

#[test]
fn compatibility_shell_is_minimal() {
    let report = CommandReport::new("audit repo");
    assert_eq!(report.issue_count(), 0);
}
