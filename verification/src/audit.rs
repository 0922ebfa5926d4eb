//! The sidecar configuration audit.
//!
//! [`parse_sidecar_config`] turns the text of `.ores-sidecar.toml` into its
//! root table; [`audit_sidecar_document`] checks that table against the
//! sidecar configuration shape and its runtime constraints and appends one
//! error finding per violation, or, where there is none, one info finding
//! saying that the configuration passed; [`audit_sidecar_text`] does both.
//! [`lemma_audit_passes_iff_well_formed`] states which configurations pass.

use vstd::prelude::*;

use crate::address::{classify_bind_ip, ip_class, BindIpClass};
use crate::model::{error_count, lemma_error_count_append, CommandReport, Finding, FindingView, Severity};
use crate::text::{
    dotted, dotted_text, env_key, indexed, indexed_text, is_env_key, is_safe_relative_path,
    is_segment, is_sensitive_runtime_key, safe_relative_path, sensitive_key, valid_segment,
};
use crate::toml_tree::{
    entries_of, field_entries, field_flag, field_integer, field_items, field_text, flag_of,
    integer_of, items_of, lookup, parse_toml, same_text, text_of, toml_document, value_entries,
    value_text, TomlValue,
};

verus! {

/// The configuration file, relative to the repository root.
pub const CONFIG: &'static str = ".ores-sidecar.toml";
/// The one protocol the configuration may declare.
pub const CONFIG_PROTOCOL: &'static str = "ores.sidecar-config.v1";
/// The runtime cache that runtime updates must use.
pub const RUNTIME_CACHE_NAME: &'static str = "runtime-env";
/// The most sidecars one configuration may declare.
pub const MAX_SIDECARS: usize = 64;
/// The most runtime keys one sidecar may declare.
pub const MAX_RUNTIME_KEYS: usize = 128;

pub const UNKNOWN_FIELD: &'static str = "sidecar-unknown-field";
pub const UNKNOWN_FIELD_MESSAGE: &'static str = "field is not declared by the peer-authority SidecarConfig shape";
pub const MISMATCH_MESSAGE: &'static str = "string value does not match the peer-authority/runtime constant";
pub const STRING_SHAPE: &'static str = "sidecar-string-shape";
pub const STRING_SHAPE_MESSAGE: &'static str = "required field must be a string";
pub const BOOLEAN_SHAPE: &'static str = "sidecar-boolean-shape";
pub const BOOLEAN_SHAPE_MESSAGE: &'static str = "required field must be boolean";
pub const U16_SHAPE: &'static str = "sidecar-u16-shape";
pub const U16_SHAPE_MESSAGE: &'static str = "bindPort must be a non-zero integer in the uint16 range";
pub const LRU_PATH: &'static str = "sidecar-runtime-lru-path";
pub const LRU_PATH_MESSAGE: &'static str = "lruConfigPath must be a bounded repository-relative path without parent traversal";
pub const SEGMENT_SHAPE: &'static str = "sidecar-segment-shape";
pub const SEGMENT_SHAPE_MESSAGE: &'static str = "sidecar name/runtimeNamespace must be 1..=64 ASCII alphanumeric, '.', '_' or '-' bytes";

pub const STRING_ARRAY_SHAPE: &'static str = "sidecar-string-array-shape";
pub const STRING_ARRAY_MESSAGE: &'static str = "runtimeKeys must be an array of strings";
pub const STRING_ITEMS_MESSAGE: &'static str = "runtimeKeys must contain only strings";
pub const KEY_COUNT: &'static str = "sidecar-runtime-key-count";
pub const KEY_COUNT_MESSAGE: &'static str = "runtimeKeys must contain at most 128 entries";
pub const KEY_DUPLICATE: &'static str = "sidecar-runtime-key-duplicate";
pub const KEY_DUPLICATE_MESSAGE: &'static str = "runtimeKeys must not contain duplicate names";
pub const KEY_SHAPE: &'static str = "sidecar-runtime-key-shape";
pub const KEY_SHAPE_MESSAGE: &'static str = "runtime keys must be bounded uppercase environment-variable names";
pub const KEY_SENSITIVE: &'static str = "sidecar-runtime-key-sensitive";
pub const KEY_SENSITIVE_MESSAGE: &'static str = "runtime keys must not expose secret-bearing configuration names";

pub const RUNTIME_PROVIDER: &'static str = "sidecar-runtime-provider";
pub const RUNTIME_ROLE: &'static str = "sidecar-runtime-role";
pub const RUNTIME_CACHE: &'static str = "sidecar-runtime-cache";
pub const RUNTIME_UPDATES_SHAPE: &'static str = "sidecar-runtime-updates-shape";
pub const RUNTIME_UPDATES_SHAPE_MESSAGE: &'static str = "runtimeUpdates must be a TOML table";
pub const LIST_SHAPE: &'static str = "sidecar-list-shape";
pub const LIST_SHAPE_MESSAGE: &'static str = "sidecars must be an array of TOML tables";
pub const SIDECAR_COUNT: &'static str = "sidecar-count";
pub const SIDECAR_COUNT_MESSAGE: &'static str = "sidecars must contain 1..=64 entries";
pub const ENTRY_SHAPE: &'static str = "sidecar-entry-shape";
pub const ENTRY_SHAPE_MESSAGE: &'static str = "sidecar entries must be TOML tables";
pub const DUPLICATE_NAME: &'static str = "sidecar-duplicate-name";
pub const DUPLICATE_NAME_MESSAGE: &'static str = "sidecar names must be unique within one config";
pub const BIND_IP: &'static str = "sidecar-bind-ip";
pub const BIND_IP_MESSAGE: &'static str = "bindIp must be an IPv4 or IPv6 address";
pub const LOOPBACK_BIND: &'static str = "sidecar-loopback-bind";
pub const LOOPBACK_BIND_MESSAGE: &'static str = "loopbackOnly=true requires a loopback bindIp";
pub const PROTOCOL: &'static str = "sidecar-protocol";
pub const PROTOCOL_MESSAGE: &'static str = "protocol must equal ores.sidecar-config.v1";
pub const DOMAIN_INSPECTED: &'static str = "sidecar-domain-inspected";
pub const DOMAIN_INSPECTED_MESSAGE: &'static str = ".ores-sidecar.toml passed the bounded peer-authority/runtime invariant audit";

/// The path type of `std`, carried through unopened.
#[verifier::external_type_specification]
#[verifier::external_body]
pub struct ExPathBuf(std::path::PathBuf);

/// Copies a `std::path::PathBuf` with its `Clone`; nothing is claimed of the
/// copy.
pub assume_specification[ <std::path::PathBuf as Clone>::clone ](path: &std::path::PathBuf) -> std::path::PathBuf;

/// Where and how to audit a repository.
#[derive(Debug, Clone)]
pub struct RepositoryAuditOptions {
    pub path: std::path::PathBuf,
    pub profile: String,
    pub additional_required_paths: Vec<String>,
}

/// An error finding located at `target`.
pub open spec fn error_at(code: Seq<char>, message: Seq<char>, target: Seq<char>) -> FindingView {
    FindingView { code, message, target: Some(target), severity: Severity::Error }
}

/// One unknown-field error for each key of `entries`, in order, that
/// `allowed` does not list.
pub open spec fn unknown_field_findings(
    entries: Seq<(String, TomlValue)>,
    allowed: Seq<Seq<char>>,
    target: Seq<char>,
) -> Seq<FindingView>
    decreases entries.len(),
{
    if entries.len() == 0 {
        seq![]
    } else {
        let key = entries.last().0@;
        unknown_field_findings(entries.drop_last(), allowed, target) + if allowed.contains(key) {
            seq![]
        } else {
            seq![error_at(UNKNOWN_FIELD@, UNKNOWN_FIELD_MESSAGE@, dotted(target, key))]
        }
    }
}

/// An error coded `code` unless `field` holds the string `expected`.
pub open spec fn string_eq_findings(
    entries: Seq<(String, TomlValue)>,
    field: Seq<char>,
    expected: Seq<char>,
    code: Seq<char>,
    target: Seq<char>,
) -> Seq<FindingView> {
    if text_of(lookup(entries, field)) == Some(expected) {
        seq![]
    } else {
        seq![error_at(code, MISMATCH_MESSAGE@, dotted(target, field))]
    }
}

/// An error unless `field` holds a string.
pub open spec fn string_shape_findings(
    entries: Seq<(String, TomlValue)>,
    field: Seq<char>,
    target: Seq<char>,
) -> Seq<FindingView> {
    if text_of(lookup(entries, field)) is Some {
        seq![]
    } else {
        seq![error_at(STRING_SHAPE@, STRING_SHAPE_MESSAGE@, dotted(target, field))]
    }
}

/// An error unless `field` holds a boolean.
pub open spec fn bool_shape_findings(
    entries: Seq<(String, TomlValue)>,
    field: Seq<char>,
    target: Seq<char>,
) -> Seq<FindingView> {
    if flag_of(lookup(entries, field)) is Some {
        seq![]
    } else {
        seq![error_at(BOOLEAN_SHAPE@, BOOLEAN_SHAPE_MESSAGE@, dotted(target, field))]
    }
}

/// An error unless `field` holds an integer in `1..=65535`.
pub open spec fn port_findings(
    entries: Seq<(String, TomlValue)>,
    field: Seq<char>,
    target: Seq<char>,
) -> Seq<FindingView> {
    match integer_of(lookup(entries, field)) {
        Some(n) if 1 <= n <= 65535 => seq![],
        _ => seq![error_at(U16_SHAPE@, U16_SHAPE_MESSAGE@, dotted(target, field))],
    }
}

/// An error when `field` holds a string that is not a safe relative path.
pub open spec fn relative_path_findings(
    entries: Seq<(String, TomlValue)>,
    field: Seq<char>,
    target: Seq<char>,
) -> Seq<FindingView> {
    match text_of(lookup(entries, field)) {
        Some(path) if !safe_relative_path(path) => seq![
            error_at(LRU_PATH@, LRU_PATH_MESSAGE@, dotted(target, field)),
        ],
        _ => seq![],
    }
}

/// An error unless `value` is a valid name or namespace.
pub open spec fn segment_findings(value: Seq<char>, field: Seq<char>, target: Seq<char>) -> Seq<FindingView> {
    if valid_segment(value) {
        seq![]
    } else {
        seq![error_at(SEGMENT_SHAPE@, SEGMENT_SHAPE_MESSAGE@, dotted(target, field))]
    }
}

/// Appends an error finding located at `target`.
pub(crate) fn push_error(report: &mut CommandReport, code: &str, message: &str, target: &str)
    ensures
        final(report)@.command == old(report)@.command,
        final(report)@.findings == old(report)@.findings.push(error_at(code@, message@, target@)),
{
    report.push(Finding::error(code, message).with_target(target));
}

/// Whether `key` is one of `allowed`.
pub(crate) fn is_listed(allowed: &[&str], key: &str) -> (listed: bool)
    ensures
        listed == allowed@.map_values(|a: &str| a@).contains(key@),
{
    let ghost names = allowed@.map_values(|a: &str| a@);
    let mut i: usize = 0;
    while i < allowed.len()
        invariant
            names == allowed@.map_values(|a: &str| a@),
            i <= allowed@.len(),
            forall|j: int| 0 <= j < i ==> names[j] != key@,
        decreases allowed.len() - i,
    {
        if same_text(allowed[i], key) {
            proof {
                assert(names[i as int] == key@);
            }
            return true;
        }
        i = i + 1;
    }
    false
}

/// Reports each key of `table` that `allowed` does not list.
pub(crate) fn audit_closed_keys(
    table: &Vec<(String, TomlValue)>,
    allowed: &[&str],
    target: &str,
    report: &mut CommandReport,
)
    ensures
        final(report)@.command == old(report)@.command,
        final(report)@.findings == old(report)@.findings + unknown_field_findings(
            table@,
            allowed@.map_values(|a: &str| a@),
            target@,
        ),
{
    let ghost names = allowed@.map_values(|a: &str| a@);
    let mut i: usize = 0;
    while i < table.len()
        invariant
            names == allowed@.map_values(|a: &str| a@),
            i <= table@.len(),
            report@.command == old(report)@.command,
            report@.findings == old(report)@.findings + unknown_field_findings(
                table@.take(i as int),
                names,
                target@,
            ),
        decreases table.len() - i,
    {
        let key = table[i].0.as_str();
        proof {
            assert(table@.take(i + 1).drop_last() =~= table@.take(i as int));
        }
        if !is_listed(allowed, key) {
            let located = dotted_text(target, key);
            push_error(report, UNKNOWN_FIELD, UNKNOWN_FIELD_MESSAGE, located.as_str());
        }
        proof {
            assert(report@.findings =~= old(report)@.findings + unknown_field_findings(
                table@.take(i + 1),
                names,
                target@,
            ));
        }
        i = i + 1;
    }
    proof {
        assert(table@.take(i as int) =~= table@);
    }
}

/// Reports `code` unless `field` holds the string `expected`.
pub(crate) fn require_string_eq(
    table: &Vec<(String, TomlValue)>,
    field: &str,
    expected: &str,
    code: &str,
    target: &str,
    report: &mut CommandReport,
)
    ensures
        final(report)@.command == old(report)@.command,
        final(report)@.findings == old(report)@.findings + string_eq_findings(
            table@,
            field@,
            expected@,
            code@,
            target@,
        ),
{
    let matches = match field_text(table, field) {
        Some(s) => same_text(s.as_str(), expected),
        None => false,
    };
    if !matches {
        let located = dotted_text(target, field);
        push_error(report, code, MISMATCH_MESSAGE, located.as_str());
    }
    proof {
        assert(report@.findings =~= old(report)@.findings + string_eq_findings(
            table@,
            field@,
            expected@,
            code@,
            target@,
        ));
    }
}

/// Reports a shape error unless `field` holds a string.
pub(crate) fn require_string(table: &Vec<(String, TomlValue)>, field: &str, target: &str, report: &mut CommandReport)
    ensures
        final(report)@.command == old(report)@.command,
        final(report)@.findings == old(report)@.findings + string_shape_findings(table@, field@, target@),
{
    if field_text(table, field).is_none() {
        let located = dotted_text(target, field);
        push_error(report, STRING_SHAPE, STRING_SHAPE_MESSAGE, located.as_str());
    }
    proof {
        assert(report@.findings =~= old(report)@.findings + string_shape_findings(table@, field@, target@));
    }
}

/// Reports a shape error unless `field` holds a boolean.
pub(crate) fn require_bool(table: &Vec<(String, TomlValue)>, field: &str, target: &str, report: &mut CommandReport)
    ensures
        final(report)@.command == old(report)@.command,
        final(report)@.findings == old(report)@.findings + bool_shape_findings(table@, field@, target@),
{
    if field_flag(table, field).is_none() {
        let located = dotted_text(target, field);
        push_error(report, BOOLEAN_SHAPE, BOOLEAN_SHAPE_MESSAGE, located.as_str());
    }
    proof {
        assert(report@.findings =~= old(report)@.findings + bool_shape_findings(table@, field@, target@));
    }
}

/// Reports a shape error unless `field` holds an integer in `1..=65535`.
pub(crate) fn require_u16_nonzero(table: &Vec<(String, TomlValue)>, field: &str, target: &str, report: &mut CommandReport)
    ensures
        final(report)@.command == old(report)@.command,
        final(report)@.findings == old(report)@.findings + port_findings(table@, field@, target@),
{
    let in_range = match field_integer(table, field) {
        Some(n) => 1 <= n && n <= 65535,
        None => false,
    };
    if !in_range {
        let located = dotted_text(target, field);
        push_error(report, U16_SHAPE, U16_SHAPE_MESSAGE, located.as_str());
    }
    proof {
        assert(report@.findings =~= old(report)@.findings + port_findings(table@, field@, target@));
    }
}

/// Reports an error when `field` holds a string that is not a bounded
/// repository-relative path.
pub(crate) fn require_safe_relative_path(
    table: &Vec<(String, TomlValue)>,
    field: &str,
    target: &str,
    report: &mut CommandReport,
)
    ensures
        final(report)@.command == old(report)@.command,
        final(report)@.findings == old(report)@.findings + relative_path_findings(table@, field@, target@),
{
    if let Some(value) = field_text(table, field) {
        if !is_safe_relative_path(value.as_str()) {
            let located = dotted_text(target, field);
            push_error(report, LRU_PATH, LRU_PATH_MESSAGE, located.as_str());
        }
    }
    proof {
        assert(report@.findings =~= old(report)@.findings + relative_path_findings(table@, field@, target@));
    }
}

/// Reports an error unless `value` is a valid sidecar name or namespace.
pub(crate) fn validate_segment(value: &str, field: &str, target: &str, report: &mut CommandReport)
    ensures
        final(report)@.command == old(report)@.command,
        final(report)@.findings == old(report)@.findings + segment_findings(value@, field@, target@),
{
    if !is_segment(value) {
        let located = dotted_text(target, field);
        push_error(report, SEGMENT_SHAPE, SEGMENT_SHAPE_MESSAGE, located.as_str());
    }
    proof {
        assert(report@.findings =~= old(report)@.findings + segment_findings(value@, field@, target@));
    }
}

/// The item at `i` is a string that an earlier item already holds.
pub open spec fn repeated_text(values: Seq<TomlValue>, i: int, key: Seq<char>) -> bool {
    exists|j: int| 0 <= j < i && text_of(Some(values[j])) == Some(key)
}

/// The errors for runtime key `i` of `values`, listed under `base`.
pub open spec fn key_item_findings(values: Seq<TomlValue>, i: int, base: Seq<char>) -> Seq<FindingView> {
    let at = indexed(base, i as nat);
    match text_of(Some(values[i])) {
        None => seq![error_at(STRING_ARRAY_SHAPE@, STRING_ITEMS_MESSAGE@, at)],
        Some(key) => (if repeated_text(values, i, key) {
            seq![error_at(KEY_DUPLICATE@, KEY_DUPLICATE_MESSAGE@, at)]
        } else {
            seq![]
        }) + (if env_key(key) {
            seq![]
        } else {
            seq![error_at(KEY_SHAPE@, KEY_SHAPE_MESSAGE@, at)]
        }) + (if sensitive_key(key) {
            seq![error_at(KEY_SENSITIVE@, KEY_SENSITIVE_MESSAGE@, at)]
        } else {
            seq![]
        }),
    }
}

/// The errors for the first `n` runtime keys of `values`, in order.
pub open spec fn key_list_findings(values: Seq<TomlValue>, n: nat, base: Seq<char>) -> Seq<FindingView>
    decreases n,
{
    if n == 0 {
        seq![]
    } else {
        key_list_findings(values, (n - 1) as nat, base) + key_item_findings(values, n - 1, base)
    }
}

/// The errors for the `runtimeKeys` field of a sidecar table.
pub open spec fn runtime_key_findings(entries: Seq<(String, TomlValue)>, target: Seq<char>) -> Seq<FindingView> {
    let base = dotted(target, "runtimeKeys"@);
    match items_of(lookup(entries, "runtimeKeys"@)) {
        None => seq![error_at(STRING_ARRAY_SHAPE@, STRING_ARRAY_MESSAGE@, base)],
        Some(values) => (if values.len() > 128 {
            seq![error_at(KEY_COUNT@, KEY_COUNT_MESSAGE@, base)]
        } else {
            seq![]
        }) + key_list_findings(values, values.len(), base),
    }
}

/// Whether an item of `values` before `i` is the string `key`.
pub(crate) fn text_seen_before(values: &Vec<TomlValue>, i: usize, key: &str) -> (seen: bool)
    requires
        i <= values@.len(),
    ensures
        seen == repeated_text(values@, i as int, key@),
{
    let mut j: usize = 0;
    while j < i
        invariant
            i <= values@.len(),
            j <= i,
            forall|k: int| 0 <= k < j ==> text_of(Some(#[trigger] values@[k])) != Some(key@),
        decreases i - j,
    {
        if let Some(earlier) = value_text(&values[j]) {
            if same_text(earlier.as_str(), key) {
                return true;
            }
        }
        j = j + 1;
    }
    false
}

/// Reports the runtime keys of a sidecar table that are missing, too many,
/// not strings, repeated, not environment-variable names or secret-bearing.
pub(crate) fn audit_runtime_keys(table: &Vec<(String, TomlValue)>, target: &str, report: &mut CommandReport)
    ensures
        final(report)@.command == old(report)@.command,
        final(report)@.findings == old(report)@.findings + runtime_key_findings(table@, target@),
{
    let base = dotted_text(target, "runtimeKeys");
    let values = match field_items(table, "runtimeKeys") {
        Some(values) => values,
        None => {
            push_error(report, STRING_ARRAY_SHAPE, STRING_ARRAY_MESSAGE, base.as_str());
            proof {
                assert(report@.findings =~= old(report)@.findings + runtime_key_findings(table@, target@));
            }
            return;
        },
    };
    if values.len() > MAX_RUNTIME_KEYS {
        push_error(report, KEY_COUNT, KEY_COUNT_MESSAGE, base.as_str());
    }
    let ghost head = report@.findings;
    let mut i: usize = 0;
    while i < values.len()
        invariant
            i <= values@.len(),
            report@.command == old(report)@.command,
            report@.findings == head + key_list_findings(values@, i as nat, base@),
        decreases values.len() - i,
    {
        let ghost before = report@.findings;
        let at = indexed_text(base.as_str(), i);
        match value_text(&values[i]) {
            None => {
                push_error(report, STRING_ARRAY_SHAPE, STRING_ITEMS_MESSAGE, at.as_str());
            },
            Some(key) => {
                if text_seen_before(values, i, key.as_str()) {
                    push_error(report, KEY_DUPLICATE, KEY_DUPLICATE_MESSAGE, at.as_str());
                }
                if !is_env_key(key.as_str()) {
                    push_error(report, KEY_SHAPE, KEY_SHAPE_MESSAGE, at.as_str());
                }
                if is_sensitive_runtime_key(key.as_str()) {
                    push_error(report, KEY_SENSITIVE, KEY_SENSITIVE_MESSAGE, at.as_str());
                }
            },
        }
        proof {
            assert(report@.findings =~= before + key_item_findings(values@, i as int, base@));
            assert(report@.findings =~= head + key_list_findings(values@, (i + 1) as nat, base@));
        }
        i = i + 1;
    }
    proof {
        assert(report@.findings =~= old(report)@.findings + runtime_key_findings(table@, target@));
    }
}

/// The fields a sidecar table may hold.
pub open spec fn sidecar_keys() -> Seq<Seq<char>> {
    seq![
        "name"@,
        "enabled"@,
        "bindIp"@,
        "bindPort"@,
        "loopbackOnly"@,
        "runtimeNamespace"@,
        "runtimeKeys"@,
    ]
}

/// The fields the `runtimeUpdates` table may hold.
pub open spec fn runtime_update_keys() -> Seq<Seq<char>> {
    seq!["provider"@, "lruConfigPath"@, "role"@, "cache"@]
}

/// The fields the root table may hold.
pub open spec fn root_keys() -> Seq<Seq<char>> {
    seq!["protocol"@, "runtimeUpdates"@, "sidecars"@]
}

/// The string name of a sidecar entry, when it is a table with one.
pub open spec fn name_of(value: TomlValue) -> Option<Seq<char>> {
    match entries_of(Some(value)) {
        Some(t) => text_of(lookup(t, "name"@)),
        None => None,
    }
}

/// A sidecar before `i` has the name `name`.
pub open spec fn repeated_name(list: Seq<TomlValue>, i: int, name: Seq<char>) -> bool {
    exists|j: int| 0 <= j < i && name_of(list[j]) == Some(name)
}

/// The errors for the name of sidecar `i`, when it is a string.
pub open spec fn name_findings(
    list: Seq<TomlValue>,
    i: int,
    t: Seq<(String, TomlValue)>,
    target: Seq<char>,
) -> Seq<FindingView> {
    match text_of(lookup(t, "name"@)) {
        None => seq![],
        Some(name) => segment_findings(name, "name"@, target) + if repeated_name(list, i, name) {
            seq![error_at(DUPLICATE_NAME@, DUPLICATE_NAME_MESSAGE@, dotted(target, "name"@))]
        } else {
            seq![]
        },
    }
}

/// An error when the sidecar's `bindIp` is a string that names no IP address.
pub open spec fn bind_ip_findings(t: Seq<(String, TomlValue)>, target: Seq<char>) -> Seq<FindingView> {
    match text_of(lookup(t, "bindIp"@)) {
        Some(ip) if ip_class(ip) == BindIpClass::Invalid => seq![
            error_at(BIND_IP@, BIND_IP_MESSAGE@, dotted(target, "bindIp"@)),
        ],
        _ => seq![],
    }
}

/// An error when the sidecar is loopback-only but binds an address that is
/// not a loopback address.
pub open spec fn loopback_findings(t: Seq<(String, TomlValue)>, target: Seq<char>) -> Seq<FindingView> {
    match text_of(lookup(t, "bindIp"@)) {
        Some(ip) if flag_of(lookup(t, "loopbackOnly"@)) == Some(true) && ip_class(ip)
            == BindIpClass::NotLoopback => seq![
            error_at(LOOPBACK_BIND@, LOOPBACK_BIND_MESSAGE@, dotted(target, "bindIp"@)),
        ],
        _ => seq![],
    }
}

/// The errors for the runtime namespace of a sidecar, when it is a string.
pub open spec fn namespace_findings(t: Seq<(String, TomlValue)>, target: Seq<char>) -> Seq<FindingView> {
    match text_of(lookup(t, "runtimeNamespace"@)) {
        None => seq![],
        Some(ns) => segment_findings(ns, "runtimeNamespace"@, target),
    }
}

/// The identity checks of a sidecar table: its fields, its name, whether
/// it is enabled.
pub open spec fn identity_findings(
    list: Seq<TomlValue>,
    i: int,
    t: Seq<(String, TomlValue)>,
    target: Seq<char>,
) -> Seq<FindingView> {
    unknown_field_findings(t, sidecar_keys(), target) + string_shape_findings(t, "name"@, target)
        + name_findings(list, i, t, target) + bool_shape_findings(t, "enabled"@, target)
}

/// The listener checks of a sidecar table: address, port, loopback rule.
pub open spec fn listener_findings(t: Seq<(String, TomlValue)>, target: Seq<char>) -> Seq<FindingView> {
    string_shape_findings(t, "bindIp"@, target) + bind_ip_findings(t, target) + port_findings(
        t,
        "bindPort"@,
        target,
    ) + bool_shape_findings(t, "loopbackOnly"@, target) + loopback_findings(t, target)
}

/// The runtime checks of a sidecar table: namespace and runtime keys.
pub open spec fn runtime_findings(t: Seq<(String, TomlValue)>, target: Seq<char>) -> Seq<FindingView> {
    string_shape_findings(t, "runtimeNamespace"@, target) + namespace_findings(t, target)
        + runtime_key_findings(t, target)
}

/// The errors for sidecar `i` of `list`.
pub open spec fn sidecar_findings(list: Seq<TomlValue>, i: int) -> Seq<FindingView> {
    let target = indexed("sidecars"@, i as nat);
    match entries_of(Some(list[i])) {
        None => seq![error_at(ENTRY_SHAPE@, ENTRY_SHAPE_MESSAGE@, target)],
        Some(t) => identity_findings(list, i, t, target) + listener_findings(t, target)
            + runtime_findings(t, target),
    }
}

/// The errors for the first `n` sidecars of `list`, in order.
pub open spec fn sidecar_entries_findings(list: Seq<TomlValue>, n: nat) -> Seq<FindingView>
    decreases n,
{
    if n == 0 {
        seq![]
    } else {
        sidecar_entries_findings(list, (n - 1) as nat) + sidecar_findings(list, n - 1)
    }
}

/// The errors for the `sidecars` value of the root table.
pub open spec fn sidecar_list_findings(value: Option<TomlValue>) -> Seq<FindingView> {
    match items_of(value) {
        None => seq![error_at(LIST_SHAPE@, LIST_SHAPE_MESSAGE@, "sidecars"@)],
        Some(list) => (if list.len() == 0 || list.len() > 64 {
            seq![error_at(SIDECAR_COUNT@, SIDECAR_COUNT_MESSAGE@, "sidecars"@)]
        } else {
            seq![]
        }) + sidecar_entries_findings(list, list.len()),
    }
}

/// Whether a sidecar before `i` has the name `name`.
pub(crate) fn name_seen_before(list: &Vec<TomlValue>, i: usize, name: &str) -> (seen: bool)
    requires
        i <= list@.len(),
    ensures
        seen == repeated_name(list@, i as int, name@),
{
    let mut j: usize = 0;
    while j < i
        invariant
            i <= list@.len(),
            j <= i,
            forall|k: int| 0 <= k < j ==> name_of(#[trigger] list@[k]) != Some(name@),
        decreases i - j,
    {
        if let Some(t) = value_entries(&list[j]) {
            if let Some(earlier) = field_text(t, "name") {
                if same_text(earlier.as_str(), name) {
                    return true;
                }
            }
        }
        j = j + 1;
    }
    false
}

/// Checks the fields, the name and the `enabled` flag of sidecar table `i`.
pub(crate) fn audit_sidecar_identity(
    list: &Vec<TomlValue>,
    i: usize,
    table: &Vec<(String, TomlValue)>,
    target: &str,
    report: &mut CommandReport,
)
    requires
        i <= list@.len(),
    ensures
        final(report)@.command == old(report)@.command,
        final(report)@.findings == old(report)@.findings + identity_findings(list@, i as int, table@, target@),
{
    let allowed = ["name", "enabled", "bindIp", "bindPort", "loopbackOnly", "runtimeNamespace", "runtimeKeys"];
    proof {
        assert(allowed@.map_values(|a: &str| a@) =~= sidecar_keys());
    }
    audit_closed_keys(table, &allowed, target, report);
    require_string(table, "name", target, report);
    let ghost before_name = report@.findings;
    if let Some(name) = field_text(table, "name") {
        validate_segment(name.as_str(), "name", target, report);
        if name_seen_before(list, i, name.as_str()) {
            let located = dotted_text(target, "name");
            push_error(report, DUPLICATE_NAME, DUPLICATE_NAME_MESSAGE, located.as_str());
        }
    }
    proof {
        assert(report@.findings =~= before_name + name_findings(list@, i as int, table@, target@));
    }
    require_bool(table, "enabled", target, report);
    proof {
        assert(report@.findings =~= old(report)@.findings + identity_findings(list@, i as int, table@, target@));
    }
}

/// Checks the address, port and loopback rule of a sidecar table.
pub(crate) fn audit_sidecar_listener(table: &Vec<(String, TomlValue)>, target: &str, report: &mut CommandReport)
    ensures
        final(report)@.command == old(report)@.command,
        final(report)@.findings == old(report)@.findings + listener_findings(table@, target@),
{
    require_string(table, "bindIp", target, report);
    let class = match field_text(table, "bindIp") {
        Some(ip) => Some(classify_bind_ip(ip.as_str())),
        None => None,
    };
    if class == Some(BindIpClass::Invalid) {
        let located = dotted_text(target, "bindIp");
        push_error(report, BIND_IP, BIND_IP_MESSAGE, located.as_str());
    }
    require_u16_nonzero(table, "bindPort", target, report);
    require_bool(table, "loopbackOnly", target, report);
    let loopback_only = field_flag(table, "loopbackOnly");
    if loopback_only == Some(true) && class == Some(BindIpClass::NotLoopback) {
        let located = dotted_text(target, "bindIp");
        push_error(report, LOOPBACK_BIND, LOOPBACK_BIND_MESSAGE, located.as_str());
    }
    proof {
        assert(report@.findings =~= old(report)@.findings + listener_findings(table@, target@));
    }
}

/// Checks the runtime namespace and runtime keys of a sidecar table.
pub(crate) fn audit_sidecar_runtime(table: &Vec<(String, TomlValue)>, target: &str, report: &mut CommandReport)
    ensures
        final(report)@.command == old(report)@.command,
        final(report)@.findings == old(report)@.findings + runtime_findings(table@, target@),
{
    require_string(table, "runtimeNamespace", target, report);
    if let Some(namespace) = field_text(table, "runtimeNamespace") {
        validate_segment(namespace.as_str(), "runtimeNamespace", target, report);
    }
    audit_runtime_keys(table, target, report);
    proof {
        assert(report@.findings =~= old(report)@.findings + runtime_findings(table@, target@));
    }
}

/// Checks sidecar entry `i` of `list`.
pub(crate) fn audit_sidecar(list: &Vec<TomlValue>, i: usize, report: &mut CommandReport)
    requires
        i < list@.len(),
    ensures
        final(report)@.command == old(report)@.command,
        final(report)@.findings == old(report)@.findings + sidecar_findings(list@, i as int),
{
    let target = indexed_text("sidecars", i);
    match value_entries(&list[i]) {
        None => {
            push_error(report, ENTRY_SHAPE, ENTRY_SHAPE_MESSAGE, target.as_str());
        },
        Some(table) => {
            audit_sidecar_identity(list, i, table, target.as_str(), report);
            audit_sidecar_listener(table, target.as_str(), report);
            audit_sidecar_runtime(table, target.as_str(), report);
            proof {
                let t = table@;
                let tg = target@;
                assert(report@.findings =~= old(report)@.findings + (identity_findings(list@, i as int, t, tg)
                    + listener_findings(t, tg) + runtime_findings(t, tg)));
            }
        },
    }
    proof {
        assert(report@.findings =~= old(report)@.findings + sidecar_findings(list@, i as int));
    }
}

/// Checks the `sidecars` array of the root table.
pub(crate) fn audit_sidecars(root: &Vec<(String, TomlValue)>, report: &mut CommandReport)
    ensures
        final(report)@.command == old(report)@.command,
        final(report)@.findings == old(report)@.findings + sidecar_list_findings(lookup(root@, "sidecars"@)),
{
    let list = match field_items(root, "sidecars") {
        Some(list) => list,
        None => {
            push_error(report, LIST_SHAPE, LIST_SHAPE_MESSAGE, "sidecars");
            proof {
                assert(report@.findings =~= old(report)@.findings + sidecar_list_findings(
                    lookup(root@, "sidecars"@),
                ));
            }
            return;
        },
    };
    if list.len() == 0 || list.len() > MAX_SIDECARS {
        push_error(report, SIDECAR_COUNT, SIDECAR_COUNT_MESSAGE, "sidecars");
    }
    let ghost head = report@.findings;
    let mut i: usize = 0;
    while i < list.len()
        invariant
            i <= list@.len(),
            report@.command == old(report)@.command,
            report@.findings == head + sidecar_entries_findings(list@, i as nat),
        decreases list.len() - i,
    {
        audit_sidecar(list, i, report);
        proof {
            assert(report@.findings =~= head + sidecar_entries_findings(list@, (i + 1) as nat));
        }
        i = i + 1;
    }
    proof {
        assert(report@.findings =~= old(report)@.findings + sidecar_list_findings(lookup(root@, "sidecars"@)));
    }
}

/// The errors for the `runtimeUpdates` value of the root table.
pub open spec fn runtime_update_findings(value: Option<TomlValue>) -> Seq<FindingView> {
    match entries_of(value) {
        None => seq![error_at(RUNTIME_UPDATES_SHAPE@, RUNTIME_UPDATES_SHAPE_MESSAGE@, "runtimeUpdates"@)],
        Some(t) => unknown_field_findings(t, runtime_update_keys(), "runtimeUpdates"@) + string_eq_findings(
            t,
            "provider"@,
            "ores-redis-lru-cache"@,
            RUNTIME_PROVIDER@,
            "runtimeUpdates"@,
        ) + string_eq_findings(t, "role"@, "server"@, RUNTIME_ROLE@, "runtimeUpdates"@)
            + string_shape_findings(t, "lruConfigPath"@, "runtimeUpdates"@) + relative_path_findings(
            t,
            "lruConfigPath"@,
            "runtimeUpdates"@,
        ) + string_eq_findings(t, "cache"@, RUNTIME_CACHE_NAME@, RUNTIME_CACHE@, "runtimeUpdates"@),
    }
}

/// An error unless the root table declares the supported protocol.
pub open spec fn protocol_findings(root: Seq<(String, TomlValue)>) -> Seq<FindingView> {
    if text_of(lookup(root, "protocol"@)) == Some(CONFIG_PROTOCOL@) {
        seq![]
    } else {
        seq![error_at(PROTOCOL@, PROTOCOL_MESSAGE@, "protocol"@)]
    }
}

/// Every error the audit finds in the root table `root`, in the order it
/// reports them.
pub open spec fn config_findings(root: Seq<(String, TomlValue)>) -> Seq<FindingView> {
    unknown_field_findings(root, root_keys(), "root"@) + protocol_findings(root)
        + runtime_update_findings(lookup(root, "runtimeUpdates"@)) + sidecar_list_findings(
        lookup(root, "sidecars"@),
    )
}

/// The info finding that records a configuration without errors.
pub open spec fn inspected_finding() -> FindingView {
    FindingView {
        code: DOMAIN_INSPECTED@,
        message: DOMAIN_INSPECTED_MESSAGE@,
        target: Some(CONFIG@),
        severity: Severity::Info,
    }
}

/// What the audit appends to a report: the errors it finds, or, when there
/// is none, the one info finding that says so.
pub open spec fn audit_findings(root: Seq<(String, TomlValue)>) -> Seq<FindingView> {
    let errors = config_findings(root);
    if errors.len() == 0 {
        seq![inspected_finding()]
    } else {
        errors
    }
}

/// Every finding of `findings` is an error, with one of the error codes.
pub open spec fn all_errors(findings: Seq<FindingView>) -> bool {
    forall|i: int| 0 <= i < findings.len() ==> (#[trigger] findings[i]).severity == Severity::Error
        && error_code(findings[i].code)
}

/// One of the codes the audit gives its error findings.
pub open spec fn error_code(code: Seq<char>) -> bool {
    ||| code == UNKNOWN_FIELD@
    ||| code == STRING_SHAPE@
    ||| code == BOOLEAN_SHAPE@
    ||| code == U16_SHAPE@
    ||| code == LRU_PATH@
    ||| code == SEGMENT_SHAPE@
    ||| code == STRING_ARRAY_SHAPE@
    ||| code == KEY_COUNT@
    ||| code == KEY_DUPLICATE@
    ||| code == KEY_SHAPE@
    ||| code == KEY_SENSITIVE@
    ||| code == RUNTIME_PROVIDER@
    ||| code == RUNTIME_ROLE@
    ||| code == RUNTIME_CACHE@
    ||| code == RUNTIME_UPDATES_SHAPE@
    ||| code == LIST_SHAPE@
    ||| code == SIDECAR_COUNT@
    ||| code == ENTRY_SHAPE@
    ||| code == DUPLICATE_NAME@
    ||| code == BIND_IP@
    ||| code == LOOPBACK_BIND@
    ||| code == PROTOCOL@
}

/// No error code is the code of the info finding.
pub proof fn lemma_error_codes_differ_from_inspected(code: Seq<char>)
    requires
        error_code(code),
    ensures
        code != DOMAIN_INSPECTED@,
{
    reveal_strlit("sidecar-domain-inspected");
    reveal_strlit("sidecar-unknown-field");
    reveal_strlit("sidecar-string-shape");
    reveal_strlit("sidecar-boolean-shape");
    reveal_strlit("sidecar-u16-shape");
    reveal_strlit("sidecar-runtime-lru-path");
    reveal_strlit("sidecar-segment-shape");
    reveal_strlit("sidecar-string-array-shape");
    reveal_strlit("sidecar-runtime-key-count");
    reveal_strlit("sidecar-runtime-key-duplicate");
    reveal_strlit("sidecar-runtime-key-shape");
    reveal_strlit("sidecar-runtime-key-sensitive");
    reveal_strlit("sidecar-runtime-provider");
    reveal_strlit("sidecar-runtime-role");
    reveal_strlit("sidecar-runtime-cache");
    reveal_strlit("sidecar-runtime-updates-shape");
    reveal_strlit("sidecar-list-shape");
    reveal_strlit("sidecar-count");
    reveal_strlit("sidecar-entry-shape");
    reveal_strlit("sidecar-duplicate-name");
    reveal_strlit("sidecar-bind-ip");
    reveal_strlit("sidecar-loopback-bind");
    reveal_strlit("sidecar-protocol");
    assert(DOMAIN_INSPECTED@[8] == 'd');
    if code.len() == DOMAIN_INSPECTED@.len() && code[8] == 'd' {
        assert(code[9] != DOMAIN_INSPECTED@[9]);
    }
}

/// Checks the `runtimeUpdates` table of the root table.
pub(crate) fn audit_runtime_updates(root: &Vec<(String, TomlValue)>, report: &mut CommandReport)
    ensures
        final(report)@.command == old(report)@.command,
        final(report)@.findings == old(report)@.findings + runtime_update_findings(
            lookup(root@, "runtimeUpdates"@),
        ),
{
    let table = match field_entries(root, "runtimeUpdates") {
        Some(table) => table,
        None => {
            push_error(report, RUNTIME_UPDATES_SHAPE, RUNTIME_UPDATES_SHAPE_MESSAGE, "runtimeUpdates");
            proof {
                assert(report@.findings =~= old(report)@.findings + runtime_update_findings(
                    lookup(root@, "runtimeUpdates"@),
                ));
            }
            return;
        },
    };
    let allowed = ["provider", "lruConfigPath", "role", "cache"];
    proof {
        assert(allowed@.map_values(|a: &str| a@) =~= runtime_update_keys());
    }
    audit_closed_keys(table, &allowed, "runtimeUpdates", report);
    require_string_eq(table, "provider", "ores-redis-lru-cache", RUNTIME_PROVIDER, "runtimeUpdates", report);
    require_string_eq(table, "role", "server", RUNTIME_ROLE, "runtimeUpdates", report);
    require_string(table, "lruConfigPath", "runtimeUpdates", report);
    require_safe_relative_path(table, "lruConfigPath", "runtimeUpdates", report);
    require_string_eq(table, "cache", RUNTIME_CACHE_NAME, RUNTIME_CACHE, "runtimeUpdates", report);
    proof {
        assert(report@.findings =~= old(report)@.findings + runtime_update_findings(
            lookup(root@, "runtimeUpdates"@),
        ));
    }
}

proof fn lemma_error_count_of_errors(findings: Seq<FindingView>)
    requires
        all_errors(findings),
    ensures
        error_count(findings) == findings.len(),
    decreases findings.len(),
{
    if findings.len() > 0 {
        assert(findings.last() == findings[findings.len() - 1]);
        lemma_error_count_of_errors(findings.drop_last());
    }
}

proof fn lemma_all_errors_append(a: Seq<FindingView>, b: Seq<FindingView>)
    requires
        all_errors(a),
        all_errors(b),
    ensures
        all_errors(a + b),
{
    assert forall|i: int| 0 <= i < (a + b).len() implies (#[trigger] (a + b)[i]).severity == Severity::Error by {
        if i < a.len() {
            assert((a + b)[i] == a[i]);
        } else {
            assert((a + b)[i] == b[i - a.len()]);
        }
    }
}

proof fn lemma_unknown_field_errors(entries: Seq<(String, TomlValue)>, allowed: Seq<Seq<char>>, target: Seq<char>)
    ensures
        all_errors(unknown_field_findings(entries, allowed, target)),
    decreases entries.len(),
{
    if entries.len() > 0 {
        let key = entries.last().0@;
        lemma_unknown_field_errors(entries.drop_last(), allowed, target);
        let last: Seq<FindingView> = if allowed.contains(key) {
            seq![]
        } else {
            seq![error_at(UNKNOWN_FIELD@, UNKNOWN_FIELD_MESSAGE@, dotted(target, key))]
        };
        assert(all_errors(last));
        lemma_all_errors_append(unknown_field_findings(entries.drop_last(), allowed, target), last);
    }
}

proof fn lemma_key_list_errors(values: Seq<TomlValue>, n: nat, base: Seq<char>)
    ensures
        all_errors(key_list_findings(values, n, base)),
    decreases n,
{
    if n > 0 {
        lemma_key_list_errors(values, (n - 1) as nat, base);
        let item = key_item_findings(values, n - 1, base);
        assert(all_errors(item));
        lemma_all_errors_append(key_list_findings(values, (n - 1) as nat, base), item);
    }
}

proof fn lemma_runtime_key_errors(entries: Seq<(String, TomlValue)>, target: Seq<char>)
    ensures
        all_errors(runtime_key_findings(entries, target)),
{
    let base = dotted(target, "runtimeKeys"@);
    match items_of(lookup(entries, "runtimeKeys"@)) {
        None => {},
        Some(values) => {
            lemma_key_list_errors(values, values.len(), base);
        },
    }
}

proof fn lemma_sidecar_errors(list: Seq<TomlValue>, i: int)
    ensures
        all_errors(sidecar_findings(list, i)),
{
    let target = indexed("sidecars"@, i as nat);
    match entries_of(Some(list[i])) {
        None => {},
        Some(t) => {
            lemma_unknown_field_errors(t, sidecar_keys(), target);
            lemma_runtime_key_errors(t, target);
        },
    }
}

proof fn lemma_sidecar_entries_errors(list: Seq<TomlValue>, n: nat)
    ensures
        all_errors(sidecar_entries_findings(list, n)),
    decreases n,
{
    if n > 0 {
        lemma_sidecar_entries_errors(list, (n - 1) as nat);
        lemma_sidecar_errors(list, n - 1);
        lemma_all_errors_append(sidecar_entries_findings(list, (n - 1) as nat), sidecar_findings(list, n - 1));
    }
}

/// Every finding that the configuration checks produce is an error: only
/// the closing "inspected" finding of a clean audit is informational.
pub proof fn lemma_config_findings_are_errors(root: Seq<(String, TomlValue)>)
    ensures
        all_errors(config_findings(root)),
{
    lemma_unknown_field_errors(root, root_keys(), "root"@);
    match entries_of(lookup(root, "runtimeUpdates"@)) {
        None => {},
        Some(t) => {
            lemma_unknown_field_errors(t, runtime_update_keys(), "runtimeUpdates"@);
        },
    }
    match items_of(lookup(root, "sidecars"@)) {
        None => {},
        Some(list) => {
            lemma_sidecar_entries_errors(list, list.len());
        },
    }
}

/// Parses the text of the sidecar configuration and hands back its root
/// table; `None` where the text is not TOML or its root is not a table.
pub fn parse_sidecar_config(text: &str) -> (root: Option<Vec<(String, TomlValue)>>)
    ensures
        root == (match toml_document(text@) {
            Some(TomlValue::Table(t)) => Some(t),
            _ => None,
        }),
{
    match parse_toml(text) {
        Some(TomlValue::Table(t)) => Some(t),
        _ => None,
    }
}

/// Audits the root table of the sidecar configuration and appends what it
/// finds to `report`: one error per violation, in order, or, when there is
/// none, the info finding that the configuration passed.
pub fn audit_sidecar_document(root: &Vec<(String, TomlValue)>, report: CommandReport) -> (audited: CommandReport)
    ensures
        audited@.command == report@.command,
        audited@.findings == report@.findings + audit_findings(root@),
{
    let ghost initial = report@.findings;
    let mut report = report;
    let issues_before = report.issue_count();
    let allowed = ["protocol", "runtimeUpdates", "sidecars"];
    proof {
        assert(allowed@.map_values(|a: &str| a@) =~= root_keys());
    }
    audit_closed_keys(root, &allowed, "root", &mut report);
    let ghost after_keys = report@.findings;
    let protocol_ok = match field_text(root, "protocol") {
        Some(p) => same_text(p.as_str(), CONFIG_PROTOCOL),
        None => false,
    };
    if !protocol_ok {
        push_error(&mut report, PROTOCOL, PROTOCOL_MESSAGE, "protocol");
    }
    proof {
        assert(report@.findings =~= after_keys + protocol_findings(root@));
    }
    audit_runtime_updates(root, &mut report);
    audit_sidecars(root, &mut report);
    let ghost errors = config_findings(root@);
    proof {
        assert(report@.findings =~= initial + errors);
        lemma_config_findings_are_errors(root@);
        lemma_error_count_of_errors(errors);
        lemma_error_count_append(initial, errors);
    }
    if report.issue_count() == issues_before {
        report.push(Finding::info(DOMAIN_INSPECTED, DOMAIN_INSPECTED_MESSAGE).with_target(CONFIG));
        proof {
            assert(errors.len() == 0);
            assert(report@.findings =~= initial + audit_findings(root@));
        }
    }
    report.finalize()
}

/// Runtime key `j` of `values` is a string that no earlier key repeats, an
/// environment-variable name, and not secret-bearing.
pub open spec fn valid_runtime_key_at(values: Seq<TomlValue>, j: int) -> bool {
    match text_of(Some(values[j])) {
        Some(key) => !repeated_text(values, j, key) && env_key(key) && !sensitive_key(key),
        None => false,
    }
}

/// Every key of the table `entries` is one of `allowed`.
pub open spec fn closed_keys(entries: Seq<(String, TomlValue)>, allowed: Seq<Seq<char>>) -> bool {
    forall|k: int| 0 <= k < entries.len() ==> allowed.contains(#[trigger] entries[k].0@)
}

/// The sidecar table `t` (entry `i` of `list`) declares only the known
/// fields, a valid name that no earlier sidecar uses, and an `enabled` flag.
pub open spec fn identity_ok(list: Seq<TomlValue>, i: int, t: Seq<(String, TomlValue)>) -> bool {
    &&& closed_keys(t, sidecar_keys())
    &&& text_of(lookup(t, "name"@)) matches Some(name) && valid_segment(name) && !repeated_name(list, i, name)
    &&& flag_of(lookup(t, "enabled"@)) is Some
}

/// The sidecar table `t` declares an IP address, a non-zero 16-bit port
/// and a `loopbackOnly` flag that, when set, holds of the address.
pub open spec fn listener_ok(t: Seq<(String, TomlValue)>) -> bool {
    &&& text_of(lookup(t, "bindIp"@)) matches Some(ip) && ip_class(ip) != BindIpClass::Invalid && (flag_of(
        lookup(t, "loopbackOnly"@),
    ) == Some(true) ==> ip_class(ip) == BindIpClass::Loopback)
    &&& integer_of(lookup(t, "bindPort"@)) matches Some(port) && 1 <= port <= 65535
    &&& flag_of(lookup(t, "loopbackOnly"@)) is Some
}

/// The sidecar table `t` declares a valid namespace and at most 128
/// distinct, valid, non-secret runtime keys.
pub open spec fn runtime_ok(t: Seq<(String, TomlValue)>) -> bool {
    &&& text_of(lookup(t, "runtimeNamespace"@)) matches Some(ns) && valid_segment(ns)
    &&& items_of(lookup(t, "runtimeKeys"@)) matches Some(keys) && keys.len() <= 128 && forall|j: int|
        0 <= j < keys.len() ==> #[trigger] valid_runtime_key_at(keys, j)
}

/// Sidecar `i` of `list` is well formed: a table whose identity, listener
/// and runtime settings are all in order.
pub open spec fn well_formed_sidecar(list: Seq<TomlValue>, i: int) -> bool {
    match entries_of(Some(list[i])) {
        None => false,
        Some(t) => identity_ok(list, i, t) && listener_ok(t) && runtime_ok(t),
    }
}

/// The root table of a sidecar configuration is well formed: only the
/// declared fields; the supported protocol; a `runtimeUpdates` table with
/// only its declared fields, the required provider, role and cache and a
/// bounded relative `lruConfigPath`; and 1 to 64 sidecars, each well formed.
pub open spec fn well_formed_config(root: Seq<(String, TomlValue)>) -> bool {
    &&& closed_keys(root, root_keys())
    &&& text_of(lookup(root, "protocol"@)) == Some(CONFIG_PROTOCOL@)
    &&& entries_of(lookup(root, "runtimeUpdates"@)) matches Some(u) && {
        &&& closed_keys(u, runtime_update_keys())
        &&& text_of(lookup(u, "provider"@)) == Some("ores-redis-lru-cache"@)
        &&& text_of(lookup(u, "role"@)) == Some("server"@)
        &&& text_of(lookup(u, "lruConfigPath"@)) matches Some(path) && safe_relative_path(path)
        &&& text_of(lookup(u, "cache"@)) == Some(RUNTIME_CACHE_NAME@)
    }
    &&& items_of(lookup(root, "sidecars"@)) matches Some(list) && 1 <= list.len() <= 64 && forall|i: int|
        0 <= i < list.len() ==> #[trigger] well_formed_sidecar(list, i)
}

proof fn lemma_unknown_fields_clean(entries: Seq<(String, TomlValue)>, allowed: Seq<Seq<char>>, target: Seq<char>)
    ensures
        unknown_field_findings(entries, allowed, target).len() == 0 <==> closed_keys(entries, allowed),
    decreases entries.len(),
{
    if entries.len() > 0 {
        let rest = entries.drop_last();
        lemma_unknown_fields_clean(rest, allowed, target);
        if closed_keys(entries, allowed) {
            assert forall|k: int| 0 <= k < rest.len() implies allowed.contains(#[trigger] rest[k].0@) by {
                assert(rest[k] == entries[k]);
            }
            assert(allowed.contains(entries[entries.len() - 1].0@));
        }
        if unknown_field_findings(entries, allowed, target).len() == 0 {
            assert forall|k: int| 0 <= k < entries.len() implies allowed.contains(#[trigger] entries[k].0@) by {
                if k < rest.len() {
                    assert(rest[k] == entries[k]);
                }
            }
        }
    }
}

proof fn lemma_key_list_clean(values: Seq<TomlValue>, n: nat, base: Seq<char>)
    requires
        n <= values.len(),
    ensures
        key_list_findings(values, n, base).len() == 0 <==> forall|j: int| 0 <= j < n ==> #[trigger] valid_runtime_key_at(values, j),
    decreases n,
{
    if n > 0 {
        lemma_key_list_clean(values, (n - 1) as nat, base);
        let item = key_item_findings(values, n - 1, base);
        assert(item.len() == 0 <==> valid_runtime_key_at(values, n - 1));
    }
}

proof fn lemma_runtime_keys_clean(t: Seq<(String, TomlValue)>, target: Seq<char>)
    ensures
        runtime_key_findings(t, target).len() == 0 <==> (items_of(lookup(t, "runtimeKeys"@)) matches Some(keys)
            && keys.len() <= 128 && forall|j: int| 0 <= j < keys.len() ==> #[trigger] valid_runtime_key_at(keys, j)),
{
    match items_of(lookup(t, "runtimeKeys"@)) {
        None => {},
        Some(keys) => {
            lemma_key_list_clean(keys, keys.len(), dotted(target, "runtimeKeys"@));
        },
    }
}

proof fn lemma_identity_clean(list: Seq<TomlValue>, i: int, t: Seq<(String, TomlValue)>, target: Seq<char>)
    ensures
        identity_findings(list, i, t, target).len() == 0 <==> identity_ok(list, i, t),
{
    lemma_unknown_fields_clean(t, sidecar_keys(), target);
}

proof fn lemma_listener_clean(t: Seq<(String, TomlValue)>, target: Seq<char>)
    ensures
        listener_findings(t, target).len() == 0 <==> listener_ok(t),
{
}

proof fn lemma_runtime_clean(t: Seq<(String, TomlValue)>, target: Seq<char>)
    ensures
        runtime_findings(t, target).len() == 0 <==> runtime_ok(t),
{
    lemma_runtime_keys_clean(t, target);
}

proof fn lemma_sidecar_clean(list: Seq<TomlValue>, i: int)
    ensures
        sidecar_findings(list, i).len() == 0 <==> well_formed_sidecar(list, i),
{
    let target = indexed("sidecars"@, i as nat);
    match entries_of(Some(list[i])) {
        None => {},
        Some(t) => {
            lemma_identity_clean(list, i, t, target);
            lemma_listener_clean(t, target);
            lemma_runtime_clean(t, target);
        },
    }
}

proof fn lemma_sidecar_entries_clean(list: Seq<TomlValue>, n: nat)
    requires
        n <= list.len(),
    ensures
        sidecar_entries_findings(list, n).len() == 0 <==> forall|i: int| 0 <= i < n ==> #[trigger] well_formed_sidecar(list, i),
    decreases n,
{
    if n > 0 {
        lemma_sidecar_entries_clean(list, (n - 1) as nat);
        lemma_sidecar_clean(list, n - 1);
    }
}

/// A configuration passes the audit, that is, the audit appends exactly the
/// one info finding and no error, if and only if it is well formed; in
/// every other case it appends at least one error and no info finding.
pub proof fn lemma_audit_passes_iff_well_formed(root: Seq<(String, TomlValue)>)
    ensures
        well_formed_config(root) <==> audit_findings(root) == seq![inspected_finding()],
        well_formed_config(root) <==> error_count(audit_findings(root)) == 0,
        !well_formed_config(root) ==> audit_findings(root) == config_findings(root)
            && audit_findings(root).len() > 0 && all_errors(audit_findings(root)),
{
    lemma_unknown_fields_clean(root, root_keys(), "root"@);
    match entries_of(lookup(root, "runtimeUpdates"@)) {
        None => {},
        Some(u) => {
            lemma_unknown_fields_clean(u, runtime_update_keys(), "runtimeUpdates"@);
        },
    }
    match items_of(lookup(root, "sidecars"@)) {
        None => {},
        Some(list) => {
            lemma_sidecar_entries_clean(list, list.len());
        },
    }
    lemma_config_findings_are_errors(root);
    let errors = config_findings(root);
    lemma_error_count_of_errors(errors);
    assert(error_count(seq![inspected_finding()]) == 0) by {
        let single = seq![inspected_finding()];
        assert(single.drop_last() =~= Seq::<FindingView>::empty());
        assert(error_count(single.drop_last()) == 0);
        assert(single.last().severity == Severity::Info);
    }
    if errors.len() > 0 {
        assert(errors[0].severity == Severity::Error);
        assert(errors != seq![inspected_finding()]);
    }
}

/// The audit raises a report's issue count by exactly the number of
/// violations it finds in the configuration.
pub proof fn lemma_audit_issue_count(
    before: Seq<FindingView>,
    root: Seq<(String, TomlValue)>
)
    ensures
        error_count(before + audit_findings(root)) == error_count(before) + config_findings(root).len(),
{
    lemma_audit_passes_iff_well_formed(root);
    lemma_config_findings_are_errors(root);
    lemma_error_count_of_errors(config_findings(root));
    lemma_error_count_append(before, audit_findings(root));
}

/// Parses the text of the sidecar configuration and audits it. A text that
/// is not TOML, or whose root is not a table, leaves the report as it was.
pub fn audit_sidecar_text(text: &str, report: CommandReport) -> (audited: CommandReport)
    ensures
        audited@.command == report@.command,
        audited@.findings == (match toml_document(text@) {
            Some(TomlValue::Table(root)) => report@.findings + audit_findings(root@),
            _ => report@.findings,
        }),
{
    match parse_sidecar_config(text) {
        Some(root) => audit_sidecar_document(&root, report),
        None => report.finalize(),
    }
}

/// The audit appends a finding with the "inspected" code exactly when the
/// configuration is well formed, and then only that one, with severity
/// `Info` and target `.ores-sidecar.toml`; no error it reports carries that
/// code, and every other finding it appends is an error.
pub proof fn lemma_inspected_iff_well_formed(root: Seq<(String, TomlValue)>)
    ensures
        (exists|i: int| 0 <= i < audit_findings(root).len() && (#[trigger] audit_findings(root)[i]).code
            == DOMAIN_INSPECTED@) <==> well_formed_config(root),
        forall|i: int| 0 <= i < audit_findings(root).len() && (#[trigger] audit_findings(root)[i]).code
            == DOMAIN_INSPECTED@ ==> audit_findings(root)[i] == inspected_finding() && audit_findings(root).len()
            == 1,
        forall|i: int| 0 <= i < audit_findings(root).len() && (#[trigger] audit_findings(root)[i]).code
            != DOMAIN_INSPECTED@ ==> audit_findings(root)[i].severity == Severity::Error,
{
    lemma_audit_passes_iff_well_formed(root);
    let found = audit_findings(root);
    if well_formed_config(root) {
        assert(found[0].code == DOMAIN_INSPECTED@);
    } else {
        assert forall|i: int| 0 <= i < found.len() implies (#[trigger] found[i]).code != DOMAIN_INSPECTED@ by {
            lemma_error_codes_differ_from_inspected(found[i].code);
        }
    }
}

} // verus!
