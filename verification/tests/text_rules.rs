use ores_cli_sidecar_module::text::{
    decimal_text, dotted_text, indexed_text, is_env_key, is_safe_relative_path, is_segment,
    is_sensitive_runtime_key,
};

#[test]
fn env_keys_are_bounded_uppercase_names() {
    assert!(is_env_key("REQUEST_TIMEOUT_MS"));
    assert!(is_env_key("_PRIVATE"));
    assert!(is_env_key("A1"));
    assert!(is_env_key(&"A".repeat(128)));
    assert!(!is_env_key(&"A".repeat(129)));
    assert!(!is_env_key(""));
    assert!(!is_env_key("1ABC"));
    assert!(!is_env_key("bad-key"));
    assert!(!is_env_key("Lower"));
    assert!(!is_env_key("ÄBC"));
}

#[test]
fn sensitive_keys_name_secrets_in_any_case() {
    assert!(is_sensitive_runtime_key("API_TOKEN"));
    assert!(is_sensitive_runtime_key("api_token"));
    assert!(is_sensitive_runtime_key("MY_SECRET_VALUE"));
    assert!(is_sensitive_runtime_key("password"));
    assert!(is_sensitive_runtime_key("X_PRIVATE_KEY"));
    assert!(is_sensitive_runtime_key("DATABASE_URL"));
    assert!(is_sensitive_runtime_key("CredentialS"));
    assert!(!is_sensitive_runtime_key("REQUEST_TIMEOUT_MS"));
    assert!(!is_sensitive_runtime_key("PRIVATEKEY"));
    assert!(!is_sensitive_runtime_key("TOKE"));
    assert!(!is_sensitive_runtime_key(""));
}

#[test]
fn segments_are_short_ascii_names() {
    assert!(is_segment("example-api"));
    assert!(is_segment("a.b_c-9"));
    assert!(is_segment(&"x".repeat(64)));
    assert!(!is_segment(&"x".repeat(65)));
    assert!(!is_segment(""));
    assert!(!is_segment("bad namespace"));
    assert!(!is_segment("naïve"));
    assert!(!is_segment("a/b"));
}

#[test]
fn relative_paths_reject_roots_and_parent_components() {
    assert!(is_safe_relative_path(".ores-lru.toml"));
    assert!(is_safe_relative_path("a/b/c.toml"));
    assert!(is_safe_relative_path("a/..b"));
    assert!(is_safe_relative_path("./a"));
    assert!(!is_safe_relative_path(""));
    assert!(!is_safe_relative_path("/a"));
    assert!(!is_safe_relative_path("../secrets/.ores-lru.toml"));
    assert!(!is_safe_relative_path("a/../b"));
    assert!(!is_safe_relative_path("a/.."));
    assert!(!is_safe_relative_path(".."));
    assert!(!is_safe_relative_path(&"é".repeat(129)));
    assert!(is_safe_relative_path(&"é".repeat(128)));
}

#[test]
fn decimal_numerals_and_targets() {
    assert_eq!(decimal_text(0), "0");
    assert_eq!(decimal_text(7), "7");
    assert_eq!(decimal_text(10), "10");
    assert_eq!(decimal_text(4096), "4096");
    assert_eq!(decimal_text(usize::MAX), usize::MAX.to_string());
    assert_eq!(dotted_text("sidecars[0]", "name"), "sidecars[0].name");
    assert_eq!(indexed_text("sidecars", 12), "sidecars[12]");
}
