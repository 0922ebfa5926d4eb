//! Properties of the findings the audit reports: where each finding of the
//! `sidecars` list is located and in which order they come, when the count,
//! entry-shape, name, address and runtime-key errors come, and which
//! findings the root table gets.

use vstd::prelude::*;

use crate::audit::{
    lemma_audit_passes_iff_well_formed, well_formed_config, well_formed_sidecar, valid_runtime_key_at,
    repeated_text, KEY_DUPLICATE_MESSAGE, KEY_SHAPE_MESSAGE, KEY_SENSITIVE_MESSAGE, STRING_ITEMS_MESSAGE,
    audit_findings, bind_ip_findings, bool_shape_findings, config_findings, error_at,
    identity_findings, inspected_finding, key_item_findings, key_list_findings,
    lemma_error_codes_differ_from_inspected, listener_findings, loopback_findings, name_findings,
    name_of, namespace_findings, port_findings, protocol_findings, relative_path_findings,
    repeated_name, root_keys, runtime_findings, runtime_key_findings, runtime_update_findings,
    runtime_update_keys, segment_findings, sidecar_entries_findings, sidecar_findings, sidecar_keys,
    sidecar_list_findings, string_eq_findings, string_shape_findings, unknown_field_findings,
    BIND_IP, BIND_IP_MESSAGE, BOOLEAN_SHAPE, CONFIG, DUPLICATE_NAME, DUPLICATE_NAME_MESSAGE,
    ENTRY_SHAPE, ENTRY_SHAPE_MESSAGE, KEY_COUNT, KEY_COUNT_MESSAGE, KEY_DUPLICATE, KEY_SENSITIVE,
    KEY_SHAPE, LIST_SHAPE, LOOPBACK_BIND, LOOPBACK_BIND_MESSAGE, LRU_PATH, PROTOCOL, RUNTIME_CACHE,
    RUNTIME_CACHE_NAME, RUNTIME_PROVIDER, RUNTIME_ROLE, RUNTIME_UPDATES_SHAPE, SEGMENT_SHAPE,
    SIDECAR_COUNT, SIDECAR_COUNT_MESSAGE, STRING_ARRAY_SHAPE, STRING_SHAPE, U16_SHAPE,
    UNKNOWN_FIELD, UNKNOWN_FIELD_MESSAGE,
};
use crate::model::{FindingView, Severity};
use crate::text::{decimal, digit_char, dotted, indexed};
use crate::toml_tree::{entries_of, items_of, lookup, text_of, TomlValue};

verus! {

/// `target` is `base` itself, or a field or item below it (`base.…`).
pub open spec fn located_under(target: Seq<char>, base: Seq<char>) -> bool {
    ||| target == base
    ||| {
        &&& base.len() < target.len()
        &&& target.subrange(0, base.len() as int) == base
        &&& target[base.len() as int] == '.'
    }
}

/// The place of sidecar entry `i` in finding targets: `sidecars[i]`.
pub open spec fn entry_target(i: nat) -> Seq<char> {
    indexed("sidecars"@, i)
}

/// One of the codes the audit gives the errors of a single sidecar entry.
pub open spec fn entry_code(code: Seq<char>) -> bool {
    ||| code == UNKNOWN_FIELD@
    ||| code == STRING_SHAPE@
    ||| code == BOOLEAN_SHAPE@
    ||| code == U16_SHAPE@
    ||| code == SEGMENT_SHAPE@
    ||| code == STRING_ARRAY_SHAPE@
    ||| code == KEY_COUNT@
    ||| code == KEY_DUPLICATE@
    ||| code == KEY_SHAPE@
    ||| code == KEY_SENSITIVE@
    ||| code == ENTRY_SHAPE@
    ||| code == DUPLICATE_NAME@
    ||| code == BIND_IP@
    ||| code == LOOPBACK_BIND@
}

/// `f` is an error with an entry code, located at or below `base`.
pub open spec fn entry_error_under(f: FindingView, base: Seq<char>) -> bool {
    &&& f.severity == Severity::Error
    &&& entry_code(f.code)
    &&& f.target matches Some(t) && located_under(t, base)
}

/// Every finding of `findings` is an entry error located at or below `base`.
pub open spec fn all_under(findings: Seq<FindingView>, base: Seq<char>) -> bool {
    forall|k: int| 0 <= k < findings.len() ==> entry_error_under(#[trigger] findings[k], base)
}

proof fn lemma_all_under_append(a: Seq<FindingView>, b: Seq<FindingView>, base: Seq<char>)
    requires
        all_under(a, base),
        all_under(b, base),
    ensures
        all_under(a + b, base),
{
    assert forall|k: int| 0 <= k < (a + b).len() implies entry_error_under(#[trigger] (a + b)[k], base) by {
        if k < a.len() {
            assert((a + b)[k] == a[k]);
        } else {
            assert((a + b)[k] == b[k - a.len()]);
        }
    }
}

proof fn lemma_dotted_under(base: Seq<char>, field: Seq<char>)
    ensures
        located_under(dotted(base, field), base),
{
    reveal_strlit(".");
    let t = dotted(base, field);
    assert(t.subrange(0, base.len() as int) =~= base);
    assert(t[base.len() as int] == '.');
}

proof fn lemma_item_under(base: Seq<char>, field: Seq<char>, j: nat)
    ensures
        located_under(indexed(dotted(base, field), j), base),
{
    reveal_strlit(".");
    let t = indexed(dotted(base, field), j);
    assert(t.subrange(0, base.len() as int) =~= base);
    assert(t[base.len() as int] == '.');
}

proof fn lemma_unknown_fields_under(entries: Seq<(String, TomlValue)>, allowed: Seq<Seq<char>>, target: Seq<char>)
    ensures
        all_under(unknown_field_findings(entries, allowed, target), target),
    decreases entries.len(),
{
    if entries.len() > 0 {
        let key = entries.last().0@;
        lemma_unknown_fields_under(entries.drop_last(), allowed, target);
        lemma_dotted_under(target, key);
        let tail: Seq<FindingView> = if allowed.contains(key) {
            seq![]
        } else {
            seq![error_at(UNKNOWN_FIELD@, UNKNOWN_FIELD_MESSAGE@, dotted(target, key))]
        };
        lemma_all_under_append(unknown_field_findings(entries.drop_last(), allowed, target), tail, target);
    }
}

proof fn lemma_field_checks_under(t: Seq<(String, TomlValue)>, field: Seq<char>, value: Seq<char>, target: Seq<char>)
    ensures
        all_under(string_shape_findings(t, field, target), target),
        all_under(bool_shape_findings(t, field, target), target),
        all_under(port_findings(t, field, target), target),
        all_under(segment_findings(value, field, target), target),
{
    lemma_dotted_under(target, field);
}

proof fn lemma_name_and_address_under(list: Seq<TomlValue>, i: int, t: Seq<(String, TomlValue)>, target: Seq<char>)
    ensures
        all_under(name_findings(list, i, t, target), target),
        all_under(bind_ip_findings(t, target), target),
        all_under(loopback_findings(t, target), target),
{
    lemma_dotted_under(target, "name"@);
    lemma_dotted_under(target, "bindIp"@);
    if let Some(name) = text_of(lookup(t, "name"@)) {
        let dup: Seq<FindingView> = if repeated_name(list, i, name) {
            seq![error_at(DUPLICATE_NAME@, DUPLICATE_NAME_MESSAGE@, dotted(target, "name"@))]
        } else {
            seq![]
        };
        lemma_all_under_append(segment_findings(name, "name"@, target), dup, target);
    }
    let b = bind_ip_findings(t, target);
    assert forall|k: int| 0 <= k < b.len() implies entry_error_under(#[trigger] b[k], target) by {
        assert(b[k] == error_at(BIND_IP@, BIND_IP_MESSAGE@, dotted(target, "bindIp"@)));
    }
    let l = loopback_findings(t, target);
    assert forall|k: int| 0 <= k < l.len() implies entry_error_under(#[trigger] l[k], target) by {
        assert(l[k] == error_at(LOOPBACK_BIND@, LOOPBACK_BIND_MESSAGE@, dotted(target, "bindIp"@)));
    }
}

proof fn lemma_key_list_under(values: Seq<TomlValue>, n: nat, target: Seq<char>)
    requires
        n <= values.len(),
    ensures
        all_under(key_list_findings(values, n, dotted(target, "runtimeKeys"@)), target),
    decreases n,
{
    if n > 0 {
        let base = dotted(target, "runtimeKeys"@);
        lemma_key_list_under(values, (n - 1) as nat, target);
        lemma_item_under(target, "runtimeKeys"@, (n - 1) as nat);
        lemma_all_under_append(
            key_list_findings(values, (n - 1) as nat, base),
            key_item_findings(values, n - 1, base),
            target,
        );
    }
}

proof fn lemma_runtime_keys_under(t: Seq<(String, TomlValue)>, target: Seq<char>)
    ensures
        all_under(runtime_key_findings(t, target), target),
{
    let base = dotted(target, "runtimeKeys"@);
    lemma_dotted_under(target, "runtimeKeys"@);
    if let Some(values) = items_of(lookup(t, "runtimeKeys"@)) {
        let head: Seq<FindingView> = if values.len() > 128 {
            seq![error_at(KEY_COUNT@, KEY_COUNT_MESSAGE@, base)]
        } else {
            seq![]
        };
        lemma_key_list_under(values, values.len(), target);
        lemma_all_under_append(head, key_list_findings(values, values.len(), base), target);
    }
}

proof fn lemma_sidecar_table_under(list: Seq<TomlValue>, i: int, t: Seq<(String, TomlValue)>, target: Seq<char>)
    ensures
        all_under(identity_findings(list, i, t, target), target),
        all_under(listener_findings(t, target), target),
        all_under(runtime_findings(t, target), target),
{
    lemma_unknown_fields_under(t, sidecar_keys(), target);
    lemma_field_checks_under(t, "name"@, text_of(lookup(t, "name"@)).unwrap_or(seq![]), target);
    lemma_field_checks_under(t, "enabled"@, seq![], target);
    lemma_field_checks_under(t, "bindIp"@, seq![], target);
    lemma_field_checks_under(t, "bindPort"@, seq![], target);
    lemma_field_checks_under(t, "loopbackOnly"@, seq![], target);
    lemma_field_checks_under(
        t,
        "runtimeNamespace"@,
        text_of(lookup(t, "runtimeNamespace"@)).unwrap_or(seq![]),
        target,
    );
    lemma_runtime_keys_under(t, target);
    lemma_name_and_address_under(list, i, t, target);
    let a = unknown_field_findings(t, sidecar_keys(), target);
    let b = string_shape_findings(t, "name"@, target);
    let c = name_findings(list, i, t, target);
    let d = bool_shape_findings(t, "enabled"@, target);
    lemma_all_under_append(a, b, target);
    lemma_all_under_append(a + b, c, target);
    lemma_all_under_append(a + b + c, d, target);
    let e = string_shape_findings(t, "bindIp"@, target);
    let f = bind_ip_findings(t, target);
    let g = port_findings(t, "bindPort"@, target);
    let h = bool_shape_findings(t, "loopbackOnly"@, target);
    let l = loopback_findings(t, target);
    lemma_all_under_append(e, f, target);
    lemma_all_under_append(e + f, g, target);
    lemma_all_under_append(e + f + g, h, target);
    lemma_all_under_append(e + f + g + h, l, target);
    let m = string_shape_findings(t, "runtimeNamespace"@, target);
    let n = namespace_findings(t, target);
    let r = runtime_key_findings(t, target);
    lemma_all_under_append(m, n, target);
    lemma_all_under_append(m + n, r, target);
}

/// Every finding the audit reports for sidecar entry `i` is an error with an
/// entry code, located at `sidecars[i]` or below it.
pub proof fn lemma_sidecar_findings_located(list: Seq<TomlValue>, i: int)
    requires
        0 <= i < list.len(),
    ensures
        all_under(sidecar_findings(list, i), entry_target(i as nat)),
{
    let target = entry_target(i as nat);
    if let Some(t) = entries_of(Some(list[i])) {
        lemma_sidecar_table_under(list, i, t, target);
        lemma_all_under_append(identity_findings(list, i, t, target), listener_findings(t, target), target);
        lemma_all_under_append(
            identity_findings(list, i, t, target) + listener_findings(t, target),
            runtime_findings(t, target),
            target,
        );
    }
}

proof fn lemma_entry_codes_are_not_list_codes(code: Seq<char>)
    requires
        entry_code(code),
    ensures
        code != SIDECAR_COUNT@,
        code != LIST_SHAPE@,
{
    reveal_strlit("sidecar-count");
    reveal_strlit("sidecar-list-shape");
    reveal_strlit("sidecar-unknown-field");
    reveal_strlit("sidecar-string-shape");
    reveal_strlit("sidecar-boolean-shape");
    reveal_strlit("sidecar-u16-shape");
    reveal_strlit("sidecar-segment-shape");
    reveal_strlit("sidecar-string-array-shape");
    reveal_strlit("sidecar-runtime-key-count");
    reveal_strlit("sidecar-runtime-key-duplicate");
    reveal_strlit("sidecar-runtime-key-shape");
    reveal_strlit("sidecar-runtime-key-sensitive");
    reveal_strlit("sidecar-entry-shape");
    reveal_strlit("sidecar-duplicate-name");
    reveal_strlit("sidecar-bind-ip");
    reveal_strlit("sidecar-loopback-bind");
    if code.len() == LIST_SHAPE@.len() {
        assert(code[8] != LIST_SHAPE@[8]);
    }
}

/// `f` is an entry error located at `sidecars[i]` or below it, for some
/// `i < n`.
pub open spec fn of_some_entry(f: FindingView, n: nat) -> bool {
    exists|i: int| 0 <= i < n && #[trigger] entry_error_under(f, entry_target(i as nat))
}

/// Each finding of the first `n` entries belongs to one of them: it is an
/// entry error located at `sidecars[i]` or below it, for some `i < n`.
pub proof fn lemma_sidecar_entries_located(list: Seq<TomlValue>, n: nat)
    requires
        n <= list.len(),
    ensures
        forall|k: int|
            0 <= k < sidecar_entries_findings(list, n).len() ==> of_some_entry(
                #[trigger] sidecar_entries_findings(list, n)[k],
                n,
            ),
    decreases n,
{
    if n > 0 {
        let prev = sidecar_entries_findings(list, (n - 1) as nat);
        let last = sidecar_findings(list, n - 1);
        lemma_sidecar_entries_located(list, (n - 1) as nat);
        lemma_sidecar_findings_located(list, n - 1);
        let all = sidecar_entries_findings(list, n);
        assert(all == prev + last);
        assert forall|k: int| 0 <= k < all.len() implies of_some_entry(#[trigger] all[k], n) by {
            if k < prev.len() {
                assert(all[k] == prev[k]);
                let i = choose|i: int| 0 <= i < n - 1 && #[trigger] entry_error_under(prev[k], entry_target(i as nat));
                assert(entry_error_under(all[k], entry_target(i as nat)));
            } else {
                assert(all[k] == last[k - prev.len()]);
                assert(entry_error_under(all[k], entry_target((n - 1) as nat)));
            }
        }
    }
}

proof fn lemma_under_entry_starts_with_list(t: Seq<char>, i: nat)
    requires
        located_under(t, entry_target(i)),
    ensures
        "sidecars"@.is_prefix_of(t),
{
    reveal_strlit("sidecars");
    let base = entry_target(i);
    assert(base.subrange(0, 8) =~= "sidecars"@);
    if t != base {
        assert(t.subrange(0, 8) =~= base.subrange(0, 8));
    }
    assert(t.subrange(0, 8) =~= "sidecars"@);
}

/// The count rule of the `sidecars` list: when the list has no entry or
/// more than 64, the count error is the first finding; no other finding of
/// the list carries the count code.
pub proof fn lemma_sidecar_count_rule(value: Option<TomlValue>, list: Seq<TomlValue>)
    requires
        items_of(value) == Some(list),
    ensures
        (exists|k: int|
            0 <= k < sidecar_list_findings(value).len() && (#[trigger] sidecar_list_findings(value)[k]).code
                == SIDECAR_COUNT@) <==> (list.len() == 0 || list.len() > 64),
        list.len() == 0 || list.len() > 64 ==> sidecar_list_findings(value)[0] == error_at(
            SIDECAR_COUNT@,
            SIDECAR_COUNT_MESSAGE@,
            "sidecars"@,
        ),
        forall|k: int|
            1 <= k < sidecar_list_findings(value).len() ==> (#[trigger] sidecar_list_findings(value)[k]).code
                != SIDECAR_COUNT@,
{
    let f = sidecar_list_findings(value);
    let entries = sidecar_entries_findings(list, list.len());
    lemma_sidecar_entries_located(list, list.len());
    assert forall|k: int| 0 <= k < entries.len() implies (#[trigger] entries[k]).code != SIDECAR_COUNT@ by {
        let i = choose|i: int| 0 <= i < list.len() && #[trigger] entry_error_under(entries[k], entry_target(i as nat));
        lemma_entry_codes_are_not_list_codes(entries[k].code);
    }
    if list.len() == 0 || list.len() > 64 {
        let count = error_at(SIDECAR_COUNT@, SIDECAR_COUNT_MESSAGE@, "sidecars"@);
        assert(f == seq![count] + entries);
        assert(f[0] == count);
        assert forall|k: int| 1 <= k < f.len() implies (#[trigger] f[k]).code != SIDECAR_COUNT@ by {
            assert(f[k] == entries[k - 1]);
        }
    } else {
        assert(f =~= entries);
    }
}

/// Every finding of the `sidecars` list audit is an error whose target
/// starts with `sidecars`.
pub proof fn lemma_sidecar_list_findings_are_list_errors(value: Option<TomlValue>)
    ensures
        forall|k: int|
            0 <= k < sidecar_list_findings(value).len() ==> {
                let f = #[trigger] sidecar_list_findings(value)[k];
                &&& f.severity == Severity::Error
                &&& f.target matches Some(t) && "sidecars"@.is_prefix_of(t)
            },
{
    reveal_strlit("sidecars");
    let f = sidecar_list_findings(value);
    assert("sidecars"@.is_prefix_of("sidecars"@)) by {
        assert("sidecars"@.subrange(0, 8) =~= "sidecars"@);
    }
    if let Some(list) = items_of(value) {
        let entries = sidecar_entries_findings(list, list.len());
        lemma_sidecar_entries_located(list, list.len());
        let head: Seq<FindingView> = if list.len() == 0 || list.len() > 64 {
            seq![error_at(SIDECAR_COUNT@, SIDECAR_COUNT_MESSAGE@, "sidecars"@)]
        } else {
            seq![]
        };
        assert(f == head + entries);
        assert forall|k: int| 0 <= k < f.len() implies {
            let g = #[trigger] f[k];
            &&& g.severity == Severity::Error
            &&& g.target matches Some(t) && "sidecars"@.is_prefix_of(t)
        } by {
            if k >= head.len() {
                assert(f[k] == entries[k - head.len()]);
                let i = choose|i: int|
                    0 <= i < list.len() && #[trigger] entry_error_under(entries[k - head.len()], entry_target(i as nat));
                lemma_under_entry_starts_with_list(f[k].target.unwrap(), i as nat);
            }
        }
    }
}

/// A decimal digit.
pub open spec fn is_digit_char(c: char) -> bool {
    '0' <= c <= '9'
}

proof fn lemma_decimal_digits(n: nat)
    ensures
        decimal(n).len() >= 1,
        forall|q: int| 0 <= q < decimal(n).len() ==> is_digit_char(#[trigger] decimal(n)[q]),
    decreases n,
{
    if n >= 10 {
        lemma_decimal_digits(n / 10);
    }
}

proof fn lemma_digit_char_injective(a: nat, b: nat)
    requires
        a < 10,
        b < 10,
        digit_char(a) == digit_char(b),
    ensures
        a == b,
{
}

proof fn lemma_decimal_injective(m: nat, n: nat)
    requires
        decimal(m) == decimal(n),
    ensures
        m == n,
    decreases m,
{
    lemma_decimal_digits(m / 10);
    lemma_decimal_digits(n / 10);
    if m >= 10 && n >= 10 {
        assert(decimal(m / 10) =~= decimal(m).drop_last());
        assert(decimal(n / 10) =~= decimal(n).drop_last());
        lemma_decimal_injective(m / 10, n / 10);
        assert(decimal(m).last() == digit_char(m % 10));
        assert(decimal(n).last() == digit_char(n % 10));
        lemma_digit_char_injective(m % 10, n % 10);
        assert(m == 10 * (m / 10) + m % 10);
        assert(n == 10 * (n / 10) + n % 10);
    } else if m < 10 && n < 10 {
        assert(decimal(m)[0] == digit_char(m));
        assert(decimal(n)[0] == digit_char(n));
        lemma_digit_char_injective(m, n);
    } else if m < 10 {
        assert(decimal(n).len() == decimal(n / 10).len() + 1);
    } else {
        assert(decimal(m).len() == decimal(m / 10).len() + 1);
    }
}

/// No target lies under two different entries.
pub proof fn lemma_entry_targets_apart(t: Seq<char>, i: nat, j: nat)
    requires
        located_under(t, entry_target(i)),
        located_under(t, entry_target(j)),
    ensures
        i == j,
{
    reveal_strlit("sidecars");
    reveal_strlit("[");
    reveal_strlit("]");
    lemma_decimal_digits(i);
    lemma_decimal_digits(j);
    let a = entry_target(i);
    let b = entry_target(j);
    let di = decimal(i);
    let dj = decimal(j);
    assert(a.len() == 10 + di.len());
    assert(b.len() == 10 + dj.len());
    assert forall|p: int| 0 <= p < a.len() implies t[p] == #[trigger] a[p] by {
        if t != a {
            assert(t.subrange(0, a.len() as int)[p] == t[p]);
        }
    }
    assert forall|p: int| 0 <= p < b.len() implies t[p] == #[trigger] b[p] by {
        if t != b {
            assert(t.subrange(0, b.len() as int)[p] == t[p]);
        }
    }
    if di.len() < dj.len() {
        let p: int = 9 + di.len() as int;
        assert(a[p] == ']');
        assert(b[p] == dj[p - 9]);
        assert(is_digit_char(dj[p - 9]));
    } else if dj.len() < di.len() {
        let p: int = 9 + dj.len() as int;
        assert(b[p] == ']');
        assert(a[p] == di[p - 9]);
        assert(is_digit_char(di[p - 9]));
    } else {
        assert forall|q: int| 0 <= q < di.len() implies di[q] == dj[q] by {
            assert(a[9 + q] == di[q]);
            assert(b[9 + q] == dj[q]);
        }
        assert(di =~= dj);
        lemma_decimal_injective(i, j);
    }
}

/// The findings of the entries come entry by entry, in index order: a
/// finding located under `sidecars[i1]` never follows one located under
/// `sidecars[i2]` with `i2 < i1`.
pub proof fn lemma_sidecar_entries_in_order(list: Seq<TomlValue>, n: nat)
    requires
        n <= list.len(),
    ensures
        forall|k1: int, k2: int, i1: nat, i2: nat|
            0 <= k1 <= k2 < sidecar_entries_findings(list, n).len() && #[trigger] entry_error_under(
                sidecar_entries_findings(list, n)[k1],
                entry_target(i1),
            ) && #[trigger] entry_error_under(sidecar_entries_findings(list, n)[k2], entry_target(i2))
                ==> i1 <= i2,
    decreases n,
{
    if n > 0 {
        let prev = sidecar_entries_findings(list, (n - 1) as nat);
        let last = sidecar_findings(list, n - 1);
        let all = sidecar_entries_findings(list, n);
        lemma_sidecar_entries_in_order(list, (n - 1) as nat);
        lemma_sidecar_entries_located(list, (n - 1) as nat);
        lemma_sidecar_findings_located(list, n - 1);
        assert(all == prev + last);
        assert forall|k1: int, k2: int, i1: nat, i2: nat|
            0 <= k1 <= k2 < all.len() && #[trigger] entry_error_under(all[k1], entry_target(i1))
                && #[trigger] entry_error_under(all[k2], entry_target(i2)) implies i1 <= i2 by {
            if k2 < prev.len() {
                assert(all[k1] == prev[k1]);
                assert(all[k2] == prev[k2]);
            } else {
                assert(all[k2] == last[k2 - prev.len()]);
                assert(entry_error_under(all[k2], entry_target((n - 1) as nat)));
                lemma_entry_targets_apart(all[k2].target.unwrap(), i2, (n - 1) as nat);
                if k1 < prev.len() {
                    assert(all[k1] == prev[k1]);
                    assert(of_some_entry(prev[k1], (n - 1) as nat));
                    let i = choose|i: int|
                        0 <= i < n - 1 && #[trigger] entry_error_under(prev[k1], entry_target(i as nat));
                    lemma_entry_targets_apart(all[k1].target.unwrap(), i1, i as nat);
                } else {
                    assert(all[k1] == last[k1 - prev.len()]);
                    assert(entry_error_under(all[k1], entry_target((n - 1) as nat)));
                    lemma_entry_targets_apart(all[k1].target.unwrap(), i1, (n - 1) as nat);
                }
            }
        }
    }
}

/// Whether a finding is located at `sidecars[j]` or below it.
pub open spec fn at_entry(j: nat) -> spec_fn(FindingView) -> bool {
    |f: FindingView| f.target matches Some(t) && located_under(t, entry_target(j))
}

proof fn lemma_filter_none<A>(s: Seq<A>, p: spec_fn(A) -> bool)
    requires
        forall|k: int| 0 <= k < s.len() ==> !p(#[trigger] s[k]),
    ensures
        s.filter(p) == Seq::<A>::empty(),
    decreases s.len(),
{
    reveal(Seq::filter);
    if s.len() > 0 {
        lemma_filter_none(s.drop_last(), p);
    }
}

proof fn lemma_filter_all<A>(s: Seq<A>, p: spec_fn(A) -> bool)
    requires
        forall|k: int| 0 <= k < s.len() ==> p(#[trigger] s[k]),
    ensures
        s.filter(p) == s,
    decreases s.len(),
{
    reveal(Seq::filter);
    if s.len() > 0 {
        lemma_filter_all(s.drop_last(), p);
        assert(s.drop_last().push(s.last()) =~= s);
    }
}

/// The findings of `findings` that `pred` keeps, in their order.
#[verifier::opaque]
pub open spec fn selected(findings: Seq<FindingView>, pred: spec_fn(FindingView) -> bool) -> Seq<FindingView> {
    findings.filter(pred)
}

proof fn lemma_selected_add(a: Seq<FindingView>, b: Seq<FindingView>, pred: spec_fn(FindingView) -> bool)
    ensures
        selected(a + b, pred) == selected(a, pred) + selected(b, pred),
{
    reveal(selected);
    Seq::filter_distributes_over_add(a, b, pred);
}

proof fn lemma_selected_none(s: Seq<FindingView>, pred: spec_fn(FindingView) -> bool)
    requires
        forall|k: int| 0 <= k < s.len() ==> !pred(#[trigger] s[k]),
    ensures
        selected(s, pred) == Seq::<FindingView>::empty(),
{
    reveal(selected);
    lemma_filter_none(s, pred);
}

proof fn lemma_selected_all(s: Seq<FindingView>, pred: spec_fn(FindingView) -> bool)
    requires
        forall|k: int| 0 <= k < s.len() ==> pred(#[trigger] s[k]),
    ensures
        selected(s, pred) == s,
{
    reveal(selected);
    lemma_filter_all(s, pred);
}

proof fn lemma_entries_at_entry(list: Seq<TomlValue>, m: nat, j: nat)
    requires
        m <= list.len(),
        j < list.len(),
    ensures
        selected(sidecar_entries_findings(list, m), at_entry(j)) == if j < m {
            sidecar_findings(list, j as int)
        } else {
            Seq::<FindingView>::empty()
        },
    decreases m,
{
    if m == 0 {
        lemma_selected_none(sidecar_entries_findings(list, m), at_entry(j));
    }
    if m > 0 {
        let prev = sidecar_entries_findings(list, (m - 1) as nat);
        let last = sidecar_findings(list, m - 1);
        lemma_entries_at_entry(list, (m - 1) as nat, j);
        lemma_sidecar_findings_located(list, m - 1);
        lemma_selected_add(prev, last, at_entry(j));
        if m - 1 == j {
            lemma_selected_all(last, at_entry(j));
            assert(selected(prev, at_entry(j)) + last =~= last);
        } else {
            assert forall|k: int| 0 <= k < last.len() implies !at_entry(j)(#[trigger] last[k]) by {
                assert(entry_error_under(last[k], entry_target((m - 1) as nat)));
                if at_entry(j)(last[k]) {
                    lemma_entry_targets_apart(last[k].target.unwrap(), j, (m - 1) as nat);
                }
            }
            lemma_selected_none(last, at_entry(j));
            assert(selected(prev, at_entry(j)) + Seq::<FindingView>::empty() =~= selected(prev, at_entry(j)));
        }
    }
}

/// Of the findings of the `sidecars` list, those located at `sidecars[j]`
/// or below it are exactly the findings of entry `j`, in the same order.
pub proof fn lemma_entry_findings_in_list(value: Option<TomlValue>, list: Seq<TomlValue>, j: nat)
    requires
        items_of(value) == Some(list),
        j < list.len(),
    ensures
        selected(sidecar_list_findings(value), at_entry(j)) == sidecar_findings(list, j as int),
{
    reveal_strlit("sidecars");
    let entries = sidecar_entries_findings(list, list.len());
    let head: Seq<FindingView> = if list.len() == 0 || list.len() > 64 {
        seq![error_at(SIDECAR_COUNT@, SIDECAR_COUNT_MESSAGE@, "sidecars"@)]
    } else {
        seq![]
    };
    assert(sidecar_list_findings(value) == head + entries);
    assert forall|k: int| 0 <= k < head.len() implies !at_entry(j)(#[trigger] head[k]) by {
        assert(entry_target(j).len() > "sidecars"@.len());
    }
    lemma_selected_none(head, at_entry(j));
    lemma_entries_at_entry(list, list.len(), j);
    lemma_selected_add(head, entries, at_entry(j));
    assert(Seq::<FindingView>::empty() + sidecar_findings(list, j as int) =~= sidecar_findings(list, j as int));
}

/// Whether a finding carries the code `code`.
pub open spec fn with_code(code: Seq<char>) -> spec_fn(FindingView) -> bool {
    |f: FindingView| f.code == code
}

/// Every finding of `findings` carries the code `code`.
pub open spec fn all_coded(findings: Seq<FindingView>, code: Seq<char>) -> bool {
    forall|k: int| 0 <= k < findings.len() ==> (#[trigger] findings[k]).code == code
}

/// One of the codes of the runtime-key checks.
pub open spec fn key_code(code: Seq<char>) -> bool {
    ||| code == STRING_ARRAY_SHAPE@
    ||| code == KEY_COUNT@
    ||| code == KEY_DUPLICATE@
    ||| code == KEY_SHAPE@
    ||| code == KEY_SENSITIVE@
}

proof fn lemma_coded_selected(s: Seq<FindingView>, a: Seq<char>, c: Seq<char>)
    requires
        all_coded(s, a),
    ensures
        selected(s, with_code(c)) == if a == c {
            s
        } else {
            Seq::<FindingView>::empty()
        },
{
    if a == c {
        lemma_selected_all(s, with_code(c));
    } else {
        lemma_selected_none(s, with_code(c));
    }
}

proof fn lemma_unknown_fields_coded(entries: Seq<(String, TomlValue)>, allowed: Seq<Seq<char>>, target: Seq<char>)
    ensures
        all_coded(unknown_field_findings(entries, allowed, target), UNKNOWN_FIELD@),
    decreases entries.len(),
{
    if entries.len() > 0 {
        lemma_unknown_fields_coded(entries.drop_last(), allowed, target);
        let prev = unknown_field_findings(entries.drop_last(), allowed, target);
        let all = unknown_field_findings(entries, allowed, target);
        assert forall|k: int| 0 <= k < all.len() implies (#[trigger] all[k]).code == UNKNOWN_FIELD@ by {
            if k < prev.len() {
                assert(all[k] == prev[k]);
            }
        }
    }
}

proof fn lemma_key_list_coded(values: Seq<TomlValue>, n: nat, base: Seq<char>)
    requires
        n <= values.len(),
    ensures
        forall|k: int|
            0 <= k < key_list_findings(values, n, base).len() ==> key_code(
                (#[trigger] key_list_findings(values, n, base)[k]).code,
            ),
    decreases n,
{
    if n > 0 {
        lemma_key_list_coded(values, (n - 1) as nat, base);
        let prev = key_list_findings(values, (n - 1) as nat, base);
        let item = key_item_findings(values, n - 1, base);
        let all = key_list_findings(values, n, base);
        assert forall|k: int| 0 <= k < all.len() implies key_code((#[trigger] all[k]).code) by {
            if k < prev.len() {
                assert(all[k] == prev[k]);
            } else {
                assert(all[k] == item[k - prev.len()]);
            }
        }
    }
}

proof fn lemma_runtime_keys_coded(t: Seq<(String, TomlValue)>, target: Seq<char>)
    ensures
        forall|k: int|
            0 <= k < runtime_key_findings(t, target).len() ==> key_code(
                (#[trigger] runtime_key_findings(t, target)[k]).code,
            ),
{
    let base = dotted(target, "runtimeKeys"@);
    if let Some(values) = items_of(lookup(t, "runtimeKeys"@)) {
        let head: Seq<FindingView> = if values.len() > 128 {
            seq![error_at(KEY_COUNT@, KEY_COUNT_MESSAGE@, base)]
        } else {
            seq![]
        };
        let rest = key_list_findings(values, values.len(), base);
        lemma_key_list_coded(values, values.len(), base);
        let all = runtime_key_findings(t, target);
        assert(all == head + rest);
        assert forall|k: int| 0 <= k < all.len() implies key_code((#[trigger] all[k]).code) by {
            if k >= head.len() {
                assert(all[k] == rest[k - head.len()]);
            }
        }
    }
}

proof fn lemma_rule_codes_differ()
    ensures
        forall|c: Seq<char>|
            #[trigger] key_code(c) ==> c != DUPLICATE_NAME@ && c != BIND_IP@ && c != LOOPBACK_BIND@ && c
                != ENTRY_SHAPE@,
        UNKNOWN_FIELD@ != DUPLICATE_NAME@ && UNKNOWN_FIELD@ != BIND_IP@ && UNKNOWN_FIELD@ != LOOPBACK_BIND@,
        STRING_SHAPE@ != DUPLICATE_NAME@ && STRING_SHAPE@ != BIND_IP@ && STRING_SHAPE@ != LOOPBACK_BIND@,
        SEGMENT_SHAPE@ != DUPLICATE_NAME@ && SEGMENT_SHAPE@ != BIND_IP@ && SEGMENT_SHAPE@ != LOOPBACK_BIND@,
        BOOLEAN_SHAPE@ != DUPLICATE_NAME@ && BOOLEAN_SHAPE@ != BIND_IP@ && BOOLEAN_SHAPE@ != LOOPBACK_BIND@,
        U16_SHAPE@ != DUPLICATE_NAME@ && U16_SHAPE@ != BIND_IP@ && U16_SHAPE@ != LOOPBACK_BIND@,
        DUPLICATE_NAME@ != BIND_IP@ && DUPLICATE_NAME@ != LOOPBACK_BIND@ && BIND_IP@ != LOOPBACK_BIND@,
        UNKNOWN_FIELD@ != ENTRY_SHAPE@ && STRING_SHAPE@ != ENTRY_SHAPE@ && SEGMENT_SHAPE@ != ENTRY_SHAPE@
            && BOOLEAN_SHAPE@ != ENTRY_SHAPE@ && U16_SHAPE@ != ENTRY_SHAPE@,
        DUPLICATE_NAME@ != ENTRY_SHAPE@ && BIND_IP@ != ENTRY_SHAPE@ && LOOPBACK_BIND@ != ENTRY_SHAPE@,
{
    reveal_strlit("sidecar-unknown-field");
    reveal_strlit("sidecar-string-shape");
    reveal_strlit("sidecar-boolean-shape");
    reveal_strlit("sidecar-u16-shape");
    reveal_strlit("sidecar-segment-shape");
    reveal_strlit("sidecar-string-array-shape");
    reveal_strlit("sidecar-runtime-key-count");
    reveal_strlit("sidecar-runtime-key-duplicate");
    reveal_strlit("sidecar-runtime-key-shape");
    reveal_strlit("sidecar-runtime-key-sensitive");
    reveal_strlit("sidecar-entry-shape");
    reveal_strlit("sidecar-duplicate-name");
    reveal_strlit("sidecar-bind-ip");
    reveal_strlit("sidecar-loopback-bind");
    assert(UNKNOWN_FIELD@.len() == 21);
    assert(STRING_SHAPE@.len() == 20);
    assert(BOOLEAN_SHAPE@.len() == 21);
    assert(U16_SHAPE@.len() == 17);
    assert(SEGMENT_SHAPE@.len() == 21);
    assert(STRING_ARRAY_SHAPE@.len() == 26);
    assert(KEY_COUNT@.len() == 25);
    assert(KEY_DUPLICATE@.len() == 29);
    assert(KEY_SHAPE@.len() == 25);
    assert(KEY_SENSITIVE@.len() == 29);
    assert(ENTRY_SHAPE@.len() == 19);
    assert(DUPLICATE_NAME@.len() == 22);
    assert(BIND_IP@.len() == 15);
    assert(LOOPBACK_BIND@.len() == 21);
    assert(UNKNOWN_FIELD@[8] != LOOPBACK_BIND@[8]);
    assert(SEGMENT_SHAPE@[8] != LOOPBACK_BIND@[8]);
    assert(BOOLEAN_SHAPE@[8] != LOOPBACK_BIND@[8]);
}

/// The duplicate-name error of sidecar `i`: one, at `target.name`, when
/// the entry is a table whose name is a string that an earlier entry
/// already uses.
pub open spec fn duplicate_name_findings(list: Seq<TomlValue>, i: int, target: Seq<char>) -> Seq<FindingView> {
    match name_of(list[i]) {
        Some(name) if repeated_name(list, i, name) => seq![
            error_at(DUPLICATE_NAME@, DUPLICATE_NAME_MESSAGE@, dotted(target, "name"@)),
        ],
        _ => seq![],
    }
}

proof fn lemma_no_key_code_selected(s: Seq<FindingView>, c: Seq<char>)
    requires
        forall|k: int| 0 <= k < s.len() ==> key_code((#[trigger] s[k]).code),
        !key_code(c),
    ensures
        selected(s, with_code(c)) == Seq::<FindingView>::empty(),
{
    assert forall|k: int| 0 <= k < s.len() implies !with_code(c)(#[trigger] s[k]) by {
        assert(key_code(s[k].code));
    }
    lemma_selected_none(s, with_code(c));
}

proof fn lemma_name_selected(list: Seq<TomlValue>, i: int, t: Seq<(String, TomlValue)>, target: Seq<char>, c: Seq<char>)
    requires
        0 <= i < list.len(),
        entries_of(Some(list[i])) == Some(t),
        c != SEGMENT_SHAPE@,
    ensures
        selected(name_findings(list, i, t, target), with_code(c)) == if c == DUPLICATE_NAME@ {
            duplicate_name_findings(list, i, target)
        } else {
            Seq::<FindingView>::empty()
        },
{
    let e = Seq::<FindingView>::empty();
    let dup = duplicate_name_findings(list, i, target);
    assert(all_coded(dup, DUPLICATE_NAME@));
    lemma_coded_selected(dup, DUPLICATE_NAME@, c);
    match text_of(lookup(t, "name"@)) {
        Some(name) => {
            let seg = segment_findings(name, "name"@, target);
            assert(name_findings(list, i, t, target) == seg + dup);
            lemma_coded_selected(seg, SEGMENT_SHAPE@, c);
            lemma_selected_add(seg, dup, with_code(c));
            assert(e + selected(dup, with_code(c)) =~= selected(dup, with_code(c)));
        },
        None => {
            assert(name_findings(list, i, t, target) == e);
            assert(dup == e);
            lemma_selected_none(e, with_code(c));
        },
    }
}

proof fn lemma_identity_selected(list: Seq<TomlValue>, i: int, t: Seq<(String, TomlValue)>, target: Seq<char>, c: Seq<char>)
    requires
        0 <= i < list.len(),
        entries_of(Some(list[i])) == Some(t),
        c != UNKNOWN_FIELD@,
        c != STRING_SHAPE@,
        c != SEGMENT_SHAPE@,
        c != BOOLEAN_SHAPE@,
    ensures
        selected(identity_findings(list, i, t, target), with_code(c)) == if c == DUPLICATE_NAME@ {
            duplicate_name_findings(list, i, target)
        } else {
            Seq::<FindingView>::empty()
        },
{
    let e = Seq::<FindingView>::empty();
    let u = unknown_field_findings(t, sidecar_keys(), target);
    let sn = string_shape_findings(t, "name"@, target);
    let nf = name_findings(list, i, t, target);
    let be = bool_shape_findings(t, "enabled"@, target);
    let d = selected(nf, with_code(c));
    assert(identity_findings(list, i, t, target) == u + sn + nf + be);
    lemma_unknown_fields_coded(t, sidecar_keys(), target);
    lemma_coded_selected(u, UNKNOWN_FIELD@, c);
    lemma_coded_selected(sn, STRING_SHAPE@, c);
    lemma_coded_selected(be, BOOLEAN_SHAPE@, c);
    lemma_name_selected(list, i, t, target, c);
    lemma_selected_add(u, sn, with_code(c));
    lemma_selected_add(u + sn, nf, with_code(c));
    lemma_selected_add(u + sn + nf, be, with_code(c));
    assert(e + e + d + e =~= d);
}

proof fn lemma_listener_selected(t: Seq<(String, TomlValue)>, target: Seq<char>, c: Seq<char>)
    requires
        c != STRING_SHAPE@,
        c != U16_SHAPE@,
        c != BOOLEAN_SHAPE@,
        BIND_IP@ != LOOPBACK_BIND@,
    ensures
        selected(listener_findings(t, target), with_code(c)) == if c == BIND_IP@ {
            bind_ip_findings(t, target)
        } else if c == LOOPBACK_BIND@ {
            loopback_findings(t, target)
        } else {
            Seq::<FindingView>::empty()
        },
{
    let e = Seq::<FindingView>::empty();
    let sb = string_shape_findings(t, "bindIp"@, target);
    let bi = bind_ip_findings(t, target);
    let pp = port_findings(t, "bindPort"@, target);
    let bl = bool_shape_findings(t, "loopbackOnly"@, target);
    let lb = loopback_findings(t, target);
    let fb = if c == BIND_IP@ { bi } else { e };
    let fl = if c == LOOPBACK_BIND@ { lb } else { e };
    assert(all_coded(bi, BIND_IP@));
    assert(all_coded(lb, LOOPBACK_BIND@));
    lemma_coded_selected(sb, STRING_SHAPE@, c);
    lemma_coded_selected(bi, BIND_IP@, c);
    lemma_coded_selected(pp, U16_SHAPE@, c);
    lemma_coded_selected(bl, BOOLEAN_SHAPE@, c);
    lemma_coded_selected(lb, LOOPBACK_BIND@, c);
    lemma_selected_add(sb, bi, with_code(c));
    lemma_selected_add(sb + bi, pp, with_code(c));
    lemma_selected_add(sb + bi + pp, bl, with_code(c));
    lemma_selected_add(sb + bi + pp + bl, lb, with_code(c));
    assert(e + fb + e + e + fl =~= fb + fl);
    assert(fb + e =~= fb);
    assert(e + fl =~= fl);
}

proof fn lemma_runtime_selected(t: Seq<(String, TomlValue)>, target: Seq<char>, c: Seq<char>)
    requires
        c != STRING_SHAPE@,
        c != SEGMENT_SHAPE@,
        !key_code(c),
    ensures
        selected(runtime_findings(t, target), with_code(c)) == Seq::<FindingView>::empty(),
{
    let e = Seq::<FindingView>::empty();
    let sr = string_shape_findings(t, "runtimeNamespace"@, target);
    let ns = namespace_findings(t, target);
    let rk = runtime_key_findings(t, target);
    assert(all_coded(ns, SEGMENT_SHAPE@));
    lemma_coded_selected(sr, STRING_SHAPE@, c);
    lemma_coded_selected(ns, SEGMENT_SHAPE@, c);
    lemma_runtime_keys_coded(t, target);
    lemma_no_key_code_selected(rk, c);
    lemma_selected_add(sr, ns, with_code(c));
    lemma_selected_add(sr + ns, rk, with_code(c));
    assert(e + e + e =~= e);
}

proof fn lemma_table_selected(list: Seq<TomlValue>, i: int, t: Seq<(String, TomlValue)>, c: Seq<char>)
    requires
        0 <= i < list.len(),
        entries_of(Some(list[i])) == Some(t),
        c == DUPLICATE_NAME@ || c == BIND_IP@ || c == LOOPBACK_BIND@ || c == ENTRY_SHAPE@,
    ensures
        selected(sidecar_findings(list, i), with_code(c)) == if c == DUPLICATE_NAME@ {
            duplicate_name_findings(list, i, entry_target(i as nat))
        } else if c == BIND_IP@ {
            bind_ip_findings(t, entry_target(i as nat))
        } else if c == LOOPBACK_BIND@ {
            loopback_findings(t, entry_target(i as nat))
        } else {
            Seq::<FindingView>::empty()
        },
{
    let target = entry_target(i as nat);
    lemma_rule_codes_differ();
    let id = identity_findings(list, i, t, target);
    let li = listener_findings(t, target);
    let rt = runtime_findings(t, target);
    assert(sidecar_findings(list, i) == id + li + rt);
    lemma_identity_selected(list, i, t, target, c);
    lemma_listener_selected(t, target, c);
    lemma_runtime_selected(t, target, c);
    lemma_selected_add(id, li, with_code(c));
    lemma_selected_add(id + li, rt, with_code(c));
    let e = Seq::<FindingView>::empty();
    let a = selected(id, with_code(c));
    let b = selected(li, with_code(c));
    assert(a + b + e =~= a + b);
    if c == DUPLICATE_NAME@ {
        assert(a + e =~= a);
    } else {
        assert(e + b =~= b);
    }
}

/// The bind-address error of sidecar `j`: one, at `sidecars[j].bindIp`,
/// when the entry is a table whose `bindIp` is a string naming no IP
/// address.
pub open spec fn entry_bind_ip_findings(list: Seq<TomlValue>, j: nat) -> Seq<FindingView> {
    match entries_of(Some(list[j as int])) {
        Some(t) => bind_ip_findings(t, entry_target(j)),
        None => seq![],
    }
}

/// The loopback error of sidecar `j`: one, at `sidecars[j].bindIp`, when
/// the entry is a table with `loopbackOnly = true` whose `bindIp` names an
/// IP address that is not a loopback address.
pub open spec fn entry_loopback_findings(list: Seq<TomlValue>, j: nat) -> Seq<FindingView> {
    match entries_of(Some(list[j as int])) {
        Some(t) => loopback_findings(t, entry_target(j)),
        None => seq![],
    }
}

/// The duplicate-name rule for entry `j` of the `sidecars` list: the
/// duplicate-name errors located at `sidecars[j]` or below it are
/// [`duplicate_name_findings`], one exactly when the entry is a table whose
/// string name is the string name of an earlier table entry, whether or not
/// it is a valid name.
pub proof fn lemma_duplicate_name_rule(value: Option<TomlValue>, list: Seq<TomlValue>, j: nat)
    requires
        items_of(value) == Some(list),
        j < list.len(),
    ensures
        selected(selected(sidecar_list_findings(value), at_entry(j)), with_code(DUPLICATE_NAME@))
            == duplicate_name_findings(list, j as int, entry_target(j)),
{
    lemma_entry_findings_in_list(value, list, j);
    lemma_rule_codes_differ();
    let i = j as int;
    match entries_of(Some(list[i])) {
        Some(t) => {
            lemma_table_selected(list, i, t, DUPLICATE_NAME@);
        },
        None => {
            let only = seq![error_at(ENTRY_SHAPE@, ENTRY_SHAPE_MESSAGE@, entry_target(j))];
            assert(sidecar_findings(list, i) == only);
            assert(all_coded(only, ENTRY_SHAPE@));
            lemma_coded_selected(only, ENTRY_SHAPE@, DUPLICATE_NAME@);
        },
    }
}

/// The bind-address rule for entry `j` of the `sidecars` list: the
/// bind-address errors located at `sidecars[j]` or below it are
/// [`entry_bind_ip_findings`], one exactly when the entry is a table whose
/// `bindIp` is a string naming no IP address; a missing or non-string
/// `bindIp` gives none.
pub proof fn lemma_bind_ip_rule(value: Option<TomlValue>, list: Seq<TomlValue>, j: nat)
    requires
        items_of(value) == Some(list),
        j < list.len(),
    ensures
        selected(selected(sidecar_list_findings(value), at_entry(j)), with_code(BIND_IP@)) == entry_bind_ip_findings(list, j),
{
    lemma_entry_findings_in_list(value, list, j);
    lemma_rule_codes_differ();
    let i = j as int;
    match entries_of(Some(list[i])) {
        Some(t) => {
            lemma_table_selected(list, i, t, BIND_IP@);
        },
        None => {
            let only = seq![error_at(ENTRY_SHAPE@, ENTRY_SHAPE_MESSAGE@, entry_target(j))];
            assert(sidecar_findings(list, i) == only);
            assert(all_coded(only, ENTRY_SHAPE@));
            lemma_coded_selected(only, ENTRY_SHAPE@, BIND_IP@);
        },
    }
}

/// The loopback rule for entry `j` of the `sidecars` list: the loopback
/// errors located at `sidecars[j]` or below it are
/// [`entry_loopback_findings`], one exactly when the entry is a table with
/// `loopbackOnly = true` whose `bindIp` names an IP address that is not a
/// loopback address; an unparsable or missing `bindIp` gives none.
pub proof fn lemma_loopback_rule(value: Option<TomlValue>, list: Seq<TomlValue>, j: nat)
    requires
        items_of(value) == Some(list),
        j < list.len(),
    ensures
        selected(selected(sidecar_list_findings(value), at_entry(j)), with_code(LOOPBACK_BIND@)) == entry_loopback_findings(list, j),
{
    lemma_entry_findings_in_list(value, list, j);
    lemma_rule_codes_differ();
    let i = j as int;
    match entries_of(Some(list[i])) {
        Some(t) => {
            lemma_table_selected(list, i, t, LOOPBACK_BIND@);
        },
        None => {
            let only = seq![error_at(ENTRY_SHAPE@, ENTRY_SHAPE_MESSAGE@, entry_target(j))];
            assert(sidecar_findings(list, i) == only);
            assert(all_coded(only, ENTRY_SHAPE@));
            lemma_coded_selected(only, ENTRY_SHAPE@, LOOPBACK_BIND@);
        },
    }
}

/// The entry-shape rule for entry `j` of the `sidecars` list: an entry that
/// is not a table gets exactly one finding located at `sidecars[j]` or
/// below it, the entry-shape error at `sidecars[j]`; a table entry never
/// gets the entry-shape error.
pub proof fn lemma_entry_shape_rule(value: Option<TomlValue>, list: Seq<TomlValue>, j: nat)
    requires
        items_of(value) == Some(list),
        j < list.len(),
    ensures
        entries_of(Some(list[j as int])) is None ==> selected(sidecar_list_findings(value), at_entry(j)) == seq![
            error_at(ENTRY_SHAPE@, ENTRY_SHAPE_MESSAGE@, entry_target(j)),
        ],
        entries_of(Some(list[j as int])) is Some ==> selected(selected(sidecar_list_findings(value), at_entry(j)), 
            with_code(ENTRY_SHAPE@),
        ) == Seq::<FindingView>::empty(),
{
    lemma_entry_findings_in_list(value, list, j);
    let i = j as int;
    match entries_of(Some(list[i])) {
        Some(t) => {
            lemma_rule_codes_differ();
            lemma_table_selected(list, i, t, ENTRY_SHAPE@);
        },
        None => {
            assert(sidecar_findings(list, i) == seq![error_at(ENTRY_SHAPE@, ENTRY_SHAPE_MESSAGE@, entry_target(j))]);
        },
    }
}

/// Whether a finding carries a runtime-key code and is located exactly at
/// `target`.
pub open spec fn at_key_item(target: Seq<char>) -> spec_fn(FindingView) -> bool {
    |f: FindingView| key_code(f.code) && f.target == Some(target)
}

/// The place of runtime key `i` of sidecar `j`: `sidecars[j].runtimeKeys[i]`.
pub open spec fn key_item_target(j: nat, i: nat) -> Seq<char> {
    indexed(dotted(entry_target(j), "runtimeKeys"@), i)
}

proof fn lemma_indexed_apart(base: Seq<char>, i: nat, k: nat)
    requires
        indexed(base, i) == indexed(base, k),
    ensures
        i == k,
{
    reveal_strlit("[");
    reveal_strlit("]");
    let a = indexed(base, i);
    let di = decimal(i);
    let dk = decimal(k);
    assert(a.len() == base.len() + 2 + di.len());
    assert(di.len() == dk.len());
    assert forall|q: int| 0 <= q < di.len() implies di[q] == dk[q] by {
        assert(a[base.len() + 1 + q] == di[q]);
        assert(indexed(base, k)[base.len() + 1 + q] == dk[q]);
    }
    assert(di =~= dk);
    lemma_decimal_injective(i, k);
}

proof fn lemma_key_codes_apart(c: Seq<char>)
    requires
        key_code(c),
    ensures
        c != UNKNOWN_FIELD@ && c != STRING_SHAPE@ && c != SEGMENT_SHAPE@ && c != BOOLEAN_SHAPE@ && c != U16_SHAPE@,
        c != DUPLICATE_NAME@ && c != BIND_IP@ && c != LOOPBACK_BIND@,
{
    reveal_strlit("sidecar-unknown-field");
    reveal_strlit("sidecar-string-shape");
    reveal_strlit("sidecar-boolean-shape");
    reveal_strlit("sidecar-u16-shape");
    reveal_strlit("sidecar-segment-shape");
    reveal_strlit("sidecar-string-array-shape");
    reveal_strlit("sidecar-runtime-key-count");
    reveal_strlit("sidecar-runtime-key-duplicate");
    reveal_strlit("sidecar-runtime-key-shape");
    reveal_strlit("sidecar-runtime-key-sensitive");
    reveal_strlit("sidecar-duplicate-name");
    reveal_strlit("sidecar-bind-ip");
    reveal_strlit("sidecar-loopback-bind");
    assert(c.len() >= 25);
}

proof fn lemma_key_list_at_item(values: Seq<TomlValue>, n: nat, base: Seq<char>, i: nat)
    requires
        n <= values.len(),
        i < values.len(),
    ensures
        selected(key_list_findings(values, n, base), at_key_item(indexed(base, i))) == if i < n {
            key_item_findings(values, i as int, base)
        } else {
            Seq::<FindingView>::empty()
        },
    decreases n,
{
    if n == 0 {
        lemma_selected_none(key_list_findings(values, n, base), at_key_item(indexed(base, i)));
    } else {
        let prev = key_list_findings(values, (n - 1) as nat, base);
        let item = key_item_findings(values, n - 1, base);
        let pred = at_key_item(indexed(base, i));
        lemma_key_list_at_item(values, (n - 1) as nat, base, i);
        lemma_selected_add(prev, item, pred);
        assert(forall|k: int| 0 <= k < item.len() ==> key_code((#[trigger] item[k]).code));
        assert(forall|k: int| 0 <= k < item.len() ==> (#[trigger] item[k]).target == Some(indexed(base, (n - 1) as nat)));
        if n - 1 == i {
            lemma_selected_all(item, pred);
            assert(selected(prev, pred) + item =~= item);
        } else {
            assert forall|k: int| 0 <= k < item.len() implies !pred(#[trigger] item[k]) by {
                if pred(item[k]) {
                    lemma_indexed_apart(base, i, (n - 1) as nat);
                }
            }
            lemma_selected_none(item, pred);
            assert(selected(prev, pred) + Seq::<FindingView>::empty() =~= selected(prev, pred));
        }
    }
}

/// One of the codes of a sidecar's identity and listener checks.
pub open spec fn table_code(code: Seq<char>) -> bool {
    ||| code == UNKNOWN_FIELD@
    ||| code == STRING_SHAPE@
    ||| code == SEGMENT_SHAPE@
    ||| code == DUPLICATE_NAME@
    ||| code == BOOLEAN_SHAPE@
    ||| code == BIND_IP@
    ||| code == U16_SHAPE@
    ||| code == LOOPBACK_BIND@
}

proof fn lemma_identity_listener_codes(list: Seq<TomlValue>, i: int, t: Seq<(String, TomlValue)>, target: Seq<char>)
    ensures
        forall|k: int|
            0 <= k < identity_findings(list, i, t, target).len() ==> table_code(
                (#[trigger] identity_findings(list, i, t, target)[k]).code,
            ),
        forall|k: int|
            0 <= k < listener_findings(t, target).len() ==> table_code(
                (#[trigger] listener_findings(t, target)[k]).code,
            ),
{
    let u = unknown_field_findings(t, sidecar_keys(), target);
    let sn = string_shape_findings(t, "name"@, target);
    let nf = name_findings(list, i, t, target);
    let be = bool_shape_findings(t, "enabled"@, target);
    lemma_unknown_fields_coded(t, sidecar_keys(), target);
    assert forall|k: int| 0 <= k < nf.len() implies table_code((#[trigger] nf[k]).code) by {
        if let Some(name) = text_of(lookup(t, "name"@)) {
            let seg = segment_findings(name, "name"@, target);
            if k < seg.len() {
                assert(nf[k] == seg[k]);
            }
        }
    }
    let id = identity_findings(list, i, t, target);
    assert(id == u + sn + nf + be);
    assert forall|k: int| 0 <= k < id.len() implies table_code((#[trigger] id[k]).code) by {
        if k < u.len() {
            assert(id[k] == u[k]);
        } else if k < u.len() + sn.len() {
            assert(id[k] == sn[k - u.len()]);
        } else if k < u.len() + sn.len() + nf.len() {
            assert(id[k] == nf[k - u.len() - sn.len()]);
        } else {
            assert(id[k] == be[k - u.len() - sn.len() - nf.len()]);
        }
    }
}

proof fn lemma_entry_at_key_item(list: Seq<TomlValue>, j: nat, t: Seq<(String, TomlValue)>, values: Seq<TomlValue>, i: nat)
    requires
        j < list.len(),
        entries_of(Some(list[j as int])) == Some(t),
        items_of(lookup(t, "runtimeKeys"@)) == Some(values),
        i < values.len(),
    ensures
        selected(sidecar_findings(list, j as int), at_key_item(key_item_target(j, i))) == key_item_findings(
            values,
            i as int,
            dotted(entry_target(j), "runtimeKeys"@),
        ),
{
    reveal_strlit("[");
    let target = entry_target(j);
    let base = dotted(target, "runtimeKeys"@);
    let pred = at_key_item(key_item_target(j, i));
    let e = Seq::<FindingView>::empty();
    let id = identity_findings(list, j as int, t, target);
    let li = listener_findings(t, target);
    let sr = string_shape_findings(t, "runtimeNamespace"@, target);
    let ns = namespace_findings(t, target);
    let rk = runtime_key_findings(t, target);
    let head: Seq<FindingView> = if values.len() > 128 {
        seq![error_at(KEY_COUNT@, KEY_COUNT_MESSAGE@, base)]
    } else {
        seq![]
    };
    let kl = key_list_findings(values, values.len(), base);
    assert(sidecar_findings(list, j as int) == id + li + (sr + ns + rk));
    assert(rk == head + kl);
    lemma_sidecar_table_under(list, j as int, t, target);
    lemma_identity_listener_codes(list, j as int, t, target);
    assert forall|k: int| 0 <= k < id.len() implies !pred(#[trigger] id[k]) by {
        assert(table_code(id[k].code));
        if key_code(id[k].code) {
            lemma_key_codes_apart(id[k].code);
        }
    }
    assert forall|k: int| 0 <= k < li.len() implies !pred(#[trigger] li[k]) by {
        assert(table_code(li[k].code));
        if key_code(li[k].code) {
            lemma_key_codes_apart(li[k].code);
        }
    }
    assert(all_coded(ns, SEGMENT_SHAPE@));
    assert forall|k: int| 0 <= k < sr.len() implies !pred(#[trigger] sr[k]) by {
        if key_code(sr[k].code) {
            lemma_key_codes_apart(sr[k].code);
        }
    }
    assert forall|k: int| 0 <= k < ns.len() implies !pred(#[trigger] ns[k]) by {
        if key_code(ns[k].code) {
            lemma_key_codes_apart(ns[k].code);
        }
    }
    assert forall|k: int| 0 <= k < head.len() implies !pred(#[trigger] head[k]) by {
        assert(indexed(base, i).len() > base.len());
    }
    lemma_selected_none(id, pred);
    lemma_selected_none(li, pred);
    lemma_selected_none(sr, pred);
    lemma_selected_none(ns, pred);
    lemma_selected_none(head, pred);
    lemma_key_list_at_item(values, values.len(), base, i);
    lemma_selected_add(head, kl, pred);
    lemma_selected_add(sr, ns, pred);
    lemma_selected_add(sr + ns, rk, pred);
    lemma_selected_add(id, li, pred);
    lemma_selected_add(id + li, sr + ns + rk, pred);
    let item = key_item_findings(values, i as int, base);
    assert(e + item =~= item);
    assert(e + e + item =~= item);
    assert(e + e + item =~= item);
}

/// The runtime-key rule for key `i` of sidecar `j`, a table whose
/// `runtimeKeys` is an array: the runtime-key findings located exactly at
/// `sidecars[j].runtimeKeys[i]` are [`key_item_findings`]. A key that is no
/// string gets one string-array error there and nothing else; a string key
/// gets one duplicate error exactly when an earlier key is the same string
/// (the first occurrence never gets one), one shape error exactly when it
/// is not an environment-variable name, and one sensitivity error exactly
/// when it names secret-bearing configuration.
pub proof fn lemma_runtime_key_rule(
    value: Option<TomlValue>,
    list: Seq<TomlValue>,
    j: nat,
    t: Seq<(String, TomlValue)>,
    values: Seq<TomlValue>,
    i: nat,
)
    requires
        items_of(value) == Some(list),
        j < list.len(),
        entries_of(Some(list[j as int])) == Some(t),
        items_of(lookup(t, "runtimeKeys"@)) == Some(values),
        i < values.len(),
    ensures
        selected(selected(sidecar_list_findings(value), at_entry(j)), at_key_item(key_item_target(j, i)))
            == key_item_findings(values, i as int, dotted(entry_target(j), "runtimeKeys"@)),
{
    lemma_entry_findings_in_list(value, list, j);
    lemma_entry_at_key_item(list, j, t, values, i);
}

/// Whether a finding is located in the root table: its target starts with
/// `root.`.
pub open spec fn at_root() -> spec_fn(FindingView) -> bool {
    |f: FindingView| f.target matches Some(t) && "root."@.is_prefix_of(t)
}

/// `f` carries neither the code `code` nor a target in the root table.
pub open spec fn apart_from(f: FindingView, code: Seq<char>) -> bool {
    f.code != code && !at_root()(f)
}

proof fn lemma_dotted_prefix(base: Seq<char>, field: Seq<char>)
    ensures
        base.is_prefix_of(dotted(base, field)),
        (base + "."@).is_prefix_of(dotted(base, field)),
{
    reveal_strlit(".");
    assert(dotted(base, field).subrange(0, base.len() as int) =~= base);
    assert(dotted(base, field).subrange(0, base.len() as int + 1) =~= base + "."@);
}

proof fn lemma_not_at_root(f: FindingView, p: Seq<char>)
    requires
        f.target matches Some(t) && p.is_prefix_of(t),
        p == "runtimeUpdates"@ || p == "sidecars"@ || p == "protocol"@,
    ensures
        !at_root()(f),
{
    reveal_strlit("root.");
    reveal_strlit("runtimeUpdates");
    reveal_strlit("sidecars");
    reveal_strlit("protocol");
    let t = f.target.unwrap();
    if "root."@.is_prefix_of(t) {
        assert(t.subrange(0, 5)[0] == t[0]);
        assert(t.subrange(0, 5)[1] == t[1]);
        assert(t.subrange(0, p.len() as int)[0] == t[0]);
        assert(t.subrange(0, p.len() as int)[1] == t[1]);
        assert(t[0] == p[0]);
        assert(t[1] == p[1]);
    }
}

/// One of the codes of the `runtimeUpdates` checks.
pub open spec fn update_code(code: Seq<char>) -> bool {
    ||| code == UNKNOWN_FIELD@
    ||| code == RUNTIME_PROVIDER@
    ||| code == RUNTIME_ROLE@
    ||| code == STRING_SHAPE@
    ||| code == LRU_PATH@
    ||| code == RUNTIME_CACHE@
    ||| code == RUNTIME_UPDATES_SHAPE@
}

proof fn lemma_protocol_code_apart(code: Seq<char>)
    requires
        update_code(code) || entry_code(code) || code == LIST_SHAPE@ || code == SIDECAR_COUNT@,
    ensures
        code != PROTOCOL@,
{
    reveal_strlit("sidecar-protocol");
    reveal_strlit("sidecar-runtime-provider");
    reveal_strlit("sidecar-runtime-role");
    reveal_strlit("sidecar-runtime-lru-path");
    reveal_strlit("sidecar-runtime-cache");
    reveal_strlit("sidecar-runtime-updates-shape");
    reveal_strlit("sidecar-list-shape");
    reveal_strlit("sidecar-count");
    reveal_strlit("sidecar-unknown-field");
    reveal_strlit("sidecar-string-shape");
    reveal_strlit("sidecar-boolean-shape");
    reveal_strlit("sidecar-u16-shape");
    reveal_strlit("sidecar-segment-shape");
    reveal_strlit("sidecar-string-array-shape");
    reveal_strlit("sidecar-runtime-key-count");
    reveal_strlit("sidecar-runtime-key-duplicate");
    reveal_strlit("sidecar-runtime-key-shape");
    reveal_strlit("sidecar-runtime-key-sensitive");
    reveal_strlit("sidecar-entry-shape");
    reveal_strlit("sidecar-duplicate-name");
    reveal_strlit("sidecar-bind-ip");
    reveal_strlit("sidecar-loopback-bind");
    assert(PROTOCOL@.len() == 16);
    assert(code.len() != 16);
}

proof fn lemma_unknown_fields_prefixed(entries: Seq<(String, TomlValue)>, allowed: Seq<Seq<char>>, target: Seq<char>)
    ensures
        forall|k: int|
            0 <= k < unknown_field_findings(entries, allowed, target).len() ==> {
                let f = #[trigger] unknown_field_findings(entries, allowed, target)[k];
                &&& f.code == UNKNOWN_FIELD@
                &&& f.target matches Some(t) && (target + "."@).is_prefix_of(t)
            },
    decreases entries.len(),
{
    if entries.len() > 0 {
        let key = entries.last().0@;
        lemma_unknown_fields_prefixed(entries.drop_last(), allowed, target);
        lemma_dotted_prefix(target, key);
        let prev = unknown_field_findings(entries.drop_last(), allowed, target);
        let all = unknown_field_findings(entries, allowed, target);
        assert forall|k: int| 0 <= k < all.len() implies {
            let f = #[trigger] all[k];
            &&& f.code == UNKNOWN_FIELD@
            &&& f.target matches Some(t) && (target + "."@).is_prefix_of(t)
        } by {
            if k < prev.len() {
                assert(all[k] == prev[k]);
            }
        }
    }
}

proof fn lemma_runtime_updates_apart(value: Option<TomlValue>)
    ensures
        forall|k: int|
            0 <= k < runtime_update_findings(value).len() ==> apart_from(
                #[trigger] runtime_update_findings(value)[k],
                PROTOCOL@,
            ),
{
    reveal_strlit("runtimeUpdates");
    let f = runtime_update_findings(value);
    let base = "runtimeUpdates"@;
    assert(base.is_prefix_of(base)) by {
        assert(base.subrange(0, base.len() as int) =~= base);
    }
    if let Some(t) = entries_of(value) {
        let u = unknown_field_findings(t, runtime_update_keys(), base);
        lemma_unknown_fields_prefixed(t, runtime_update_keys(), base);
        lemma_dotted_prefix(base, "provider"@);
        lemma_dotted_prefix(base, "role"@);
        lemma_dotted_prefix(base, "lruConfigPath"@);
        lemma_dotted_prefix(base, "cache"@);
        let rest = string_eq_findings(t, "provider"@, "ores-redis-lru-cache"@, RUNTIME_PROVIDER@, base)
            + string_eq_findings(t, "role"@, "server"@, RUNTIME_ROLE@, base) + string_shape_findings(
            t,
            "lruConfigPath"@,
            base,
        ) + relative_path_findings(t, "lruConfigPath"@, base) + string_eq_findings(
            t,
            "cache"@,
            RUNTIME_CACHE_NAME@,
            RUNTIME_CACHE@,
            base,
        );
        assert(f =~= u + rest);
        assert forall|k: int| 0 <= k < f.len() implies apart_from(#[trigger] f[k], PROTOCOL@) by {
            if k < u.len() {
                assert(f[k] == u[k]);
                let t = f[k].target.unwrap();
                assert(base.is_prefix_of(t)) by {
                    assert((base + "."@).subrange(0, base.len() as int) =~= base);
                    assert(t.subrange(0, base.len() as int) =~= (base + "."@).subrange(0, base.len() as int));
                }
            } else {
                assert(f[k] == rest[k - u.len()]);
            }
            lemma_protocol_code_apart(f[k].code);
            lemma_not_at_root(f[k], base);
        }
    } else {
        assert forall|k: int| 0 <= k < f.len() implies apart_from(#[trigger] f[k], PROTOCOL@) by {
            lemma_protocol_code_apart(f[k].code);
            lemma_not_at_root(f[k], base);
        }
    }
}

proof fn lemma_sidecar_list_apart(value: Option<TomlValue>)
    ensures
        forall|k: int|
            0 <= k < sidecar_list_findings(value).len() ==> apart_from(
                #[trigger] sidecar_list_findings(value)[k],
                PROTOCOL@,
            ),
{
    reveal_strlit("sidecars");
    let f = sidecar_list_findings(value);
    lemma_sidecar_list_findings_are_list_errors(value);
    if let Some(list) = items_of(value) {
        let entries = sidecar_entries_findings(list, list.len());
        lemma_sidecar_entries_located(list, list.len());
        let head: Seq<FindingView> = if list.len() == 0 || list.len() > 64 {
            seq![error_at(SIDECAR_COUNT@, SIDECAR_COUNT_MESSAGE@, "sidecars"@)]
        } else {
            seq![]
        };
        assert(f == head + entries);
        assert forall|k: int| 0 <= k < f.len() implies apart_from(#[trigger] f[k], PROTOCOL@) by {
            if k >= head.len() {
                assert(f[k] == entries[k - head.len()]);
                assert(of_some_entry(entries[k - head.len()], list.len()));
            }
            lemma_protocol_code_apart(f[k].code);
            lemma_not_at_root(f[k], "sidecars"@);
        }
    } else {
        assert forall|k: int| 0 <= k < f.len() implies apart_from(#[trigger] f[k], PROTOCOL@) by {
            lemma_protocol_code_apart(f[k].code);
            lemma_not_at_root(f[k], "sidecars"@);
        }
    }
}

proof fn lemma_four_parts_selected(
    u: Seq<FindingView>,
    p: Seq<FindingView>,
    ru: Seq<FindingView>,
    sl: Seq<FindingView>,
    pred: spec_fn(FindingView) -> bool,
)
    requires
        selected(u, pred) == Seq::<FindingView>::empty() || selected(p, pred) == Seq::<FindingView>::empty(),
        selected(ru, pred) == Seq::<FindingView>::empty(),
        selected(sl, pred) == Seq::<FindingView>::empty(),
    ensures
        selected(u + p + ru + sl, pred) == selected(u, pred) + selected(p, pred),
{
    let e = Seq::<FindingView>::empty();
    lemma_selected_add(u, p, pred);
    lemma_selected_add(u + p, ru, pred);
    lemma_selected_add(u + p + ru, sl, pred);
    assert(selected(u, pred) + selected(p, pred) + e + e =~= selected(u, pred) + selected(p, pred));
}

proof fn lemma_root_parts_selected(root: Seq<(String, TomlValue)>)
    ensures
        selected(unknown_field_findings(root, root_keys(), "root"@), with_code(PROTOCOL@)) == Seq::<FindingView>::empty(),
        selected(unknown_field_findings(root, root_keys(), "root"@), at_root()) == unknown_field_findings(
            root,
            root_keys(),
            "root"@,
        ),
        selected(protocol_findings(root), with_code(PROTOCOL@)) == protocol_findings(root),
        selected(protocol_findings(root), at_root()) == Seq::<FindingView>::empty(),
{
    reveal_strlit("root");
    reveal_strlit(".");
    reveal_strlit("root.");
    reveal_strlit("protocol");
    let u = unknown_field_findings(root, root_keys(), "root"@);
    let p = protocol_findings(root);
    lemma_unknown_fields_prefixed(root, root_keys(), "root"@);
    assert("root"@ + "."@ =~= "root."@);
    lemma_protocol_code_apart(UNKNOWN_FIELD@);
    assert forall|k: int| 0 <= k < u.len() implies !with_code(PROTOCOL@)(#[trigger] u[k]) by {}
    lemma_selected_none(u, with_code(PROTOCOL@));
    assert forall|k: int| 0 <= k < u.len() implies at_root()(#[trigger] u[k]) by {}
    lemma_selected_all(u, at_root());
    assert forall|k: int| 0 <= k < p.len() implies with_code(PROTOCOL@)(#[trigger] p[k]) by {}
    lemma_selected_all(p, with_code(PROTOCOL@));
    assert forall|k: int| 0 <= k < p.len() implies !at_root()(#[trigger] p[k]) by {
        let t = "protocol"@;
        assert(t.is_prefix_of(t)) by {
            assert(t.subrange(0, t.len() as int) =~= t);
        }
        lemma_not_at_root(p[k], t);
    }
    lemma_selected_none(p, at_root());
}

proof fn lemma_config_root_selected(root: Seq<(String, TomlValue)>)
    ensures
        selected(config_findings(root), with_code(PROTOCOL@)) == protocol_findings(root),
        selected(config_findings(root), at_root()) == unknown_field_findings(root, root_keys(), "root"@),
{
    let e = Seq::<FindingView>::empty();
    let u = unknown_field_findings(root, root_keys(), "root"@);
    let p = protocol_findings(root);
    let ru = runtime_update_findings(lookup(root, "runtimeUpdates"@));
    let sl = sidecar_list_findings(lookup(root, "sidecars"@));
    lemma_runtime_updates_apart(lookup(root, "runtimeUpdates"@));
    lemma_sidecar_list_apart(lookup(root, "sidecars"@));
    assert forall|k: int| 0 <= k < ru.len() implies !with_code(PROTOCOL@)(#[trigger] ru[k]) by {
        assert(apart_from(ru[k], PROTOCOL@));
    }
    assert forall|k: int| 0 <= k < ru.len() implies !at_root()(#[trigger] ru[k]) by {
        assert(apart_from(ru[k], PROTOCOL@));
    }
    assert forall|k: int| 0 <= k < sl.len() implies !with_code(PROTOCOL@)(#[trigger] sl[k]) by {
        assert(apart_from(sl[k], PROTOCOL@));
    }
    assert forall|k: int| 0 <= k < sl.len() implies !at_root()(#[trigger] sl[k]) by {
        assert(apart_from(sl[k], PROTOCOL@));
    }
    lemma_selected_none(ru, with_code(PROTOCOL@));
    lemma_selected_none(ru, at_root());
    lemma_selected_none(sl, with_code(PROTOCOL@));
    lemma_selected_none(sl, at_root());
    lemma_root_parts_selected(root);
    assert(config_findings(root) == u + p + ru + sl);
    lemma_four_parts_selected(u, p, ru, sl, with_code(PROTOCOL@));
    lemma_four_parts_selected(u, p, ru, sl, at_root());
    assert(e + p =~= p);
    assert(u + e =~= u);
}

proof fn lemma_inspected_apart()
    ensures
        !at_root()(inspected_finding()),
        !with_code(PROTOCOL@)(inspected_finding()),
{
    reveal_strlit(".ores-sidecar.toml");
    reveal_strlit("root.");
    lemma_error_codes_differ_from_inspected(PROTOCOL@);
    let t = CONFIG@;
    if "root."@.is_prefix_of(t) {
        assert(t.subrange(0, 5)[0] == t[0]);
    }
}

/// The root-table rules of the audit. Of what it appends for the root table
/// `root`:
/// - the protocol errors are [`protocol_findings`]: one, at `protocol`,
///   exactly when the root's `protocol` is not the string
///   `ores.sidecar-config.v1`, none otherwise;
/// - the findings located in the root table (their target starts with
///   `root.`) are the unknown-field errors at `root.<key>`, one for each
///   root key, in order, that is not `protocol`, `runtimeUpdates` or
///   `sidecars`.
pub proof fn lemma_root_rules(root: Seq<(String, TomlValue)>)
    ensures
        selected(audit_findings(root), with_code(PROTOCOL@)) == protocol_findings(root),
        selected(audit_findings(root), at_root()) == unknown_field_findings(root, root_keys(), "root"@),
{
    lemma_config_root_selected(root);
    let c = config_findings(root);
    if c.len() == 0 {
        let only = seq![inspected_finding()];
        lemma_inspected_apart();
        assert forall|k: int| 0 <= k < only.len() implies !with_code(PROTOCOL@)(#[trigger] only[k]) by {}
        assert forall|k: int| 0 <= k < only.len() implies !at_root()(#[trigger] only[k]) by {}
        lemma_selected_none(only, with_code(PROTOCOL@));
        lemma_selected_none(only, at_root());
        lemma_selected_none(c, with_code(PROTOCOL@));
        lemma_selected_none(c, at_root());
    }
}

proof fn lemma_selected_contains(s: Seq<FindingView>, pred: spec_fn(FindingView) -> bool, x: FindingView)
    requires
        selected(s, pred).contains(x),
    ensures
        s.contains(x),
{
    reveal(selected);
    s.lemma_filter_contains_rev(pred, x);
}

proof fn lemma_config_contains_list_finding(root: Seq<(String, TomlValue)>, x: FindingView)
    requires
        sidecar_list_findings(lookup(root, "sidecars"@)).contains(x),
        !well_formed_config(root),
    ensures
        audit_findings(root).contains(x),
{
    lemma_audit_passes_iff_well_formed(root);
    let u = unknown_field_findings(root, root_keys(), "root"@);
    let p = protocol_findings(root);
    let ru = runtime_update_findings(lookup(root, "runtimeUpdates"@));
    let sl = sidecar_list_findings(lookup(root, "sidecars"@));
    let c = config_findings(root);
    assert(c == u + p + ru + sl);
    let m = choose|m: int| 0 <= m < sl.len() && sl[m] == x;
    let at = (u + p + ru).len() + m;
    assert(c[at] == x);
}

proof fn lemma_duplicate_code_apart()
    ensures
        KEY_DUPLICATE@ != STRING_ARRAY_SHAPE@,
        KEY_DUPLICATE@ != KEY_SHAPE@,
        KEY_DUPLICATE@ != KEY_SENSITIVE@,
{
    reveal_strlit("sidecar-string-array-shape");
    reveal_strlit("sidecar-runtime-key-duplicate");
    reveal_strlit("sidecar-runtime-key-shape");
    reveal_strlit("sidecar-runtime-key-sensitive");
    assert(KEY_DUPLICATE@.len() == 29);
    assert(STRING_ARRAY_SHAPE@.len() == 26);
    assert(KEY_SHAPE@.len() == 25);
    assert(KEY_DUPLICATE@[20] != KEY_SENSITIVE@[20]);
}

/// The duplicate rule for runtime key `k`, read off the positions of the
/// keys: key `k` gets a duplicate error exactly when it is a string and the
/// key at some earlier position `i < k`, whichever, is the same string.
pub proof fn lemma_runtime_key_duplicate_law(values: Seq<TomlValue>, base: Seq<char>, k: nat)
    requires
        k < values.len(),
    ensures
        (exists|m: int|
            0 <= m < key_item_findings(values, k as int, base).len() && (#[trigger] key_item_findings(
                values,
                k as int,
                base,
            )[m]).code == KEY_DUPLICATE@) <==> (exists|i: int|
            0 <= i < k && text_of(Some(values[i])) is Some && #[trigger] text_of(Some(values[i])) == text_of(
                Some(values[k as int]),
            )),
{
    lemma_duplicate_code_apart();
    let f = key_item_findings(values, k as int, base);
    let at = indexed(base, k);
    match text_of(Some(values[k as int])) {
        None => {
            assert(f == seq![error_at(STRING_ARRAY_SHAPE@, STRING_ITEMS_MESSAGE@, at)]);
        },
        Some(key) => {
            let dup: Seq<FindingView> = if repeated_text(values, k as int, key) {
                seq![error_at(KEY_DUPLICATE@, KEY_DUPLICATE_MESSAGE@, at)]
            } else {
                seq![]
            };
            let shape: Seq<FindingView> = if crate::text::env_key(key) {
                seq![]
            } else {
                seq![error_at(KEY_SHAPE@, KEY_SHAPE_MESSAGE@, at)]
            };
            let sens: Seq<FindingView> = if crate::text::sensitive_key(key) {
                seq![error_at(KEY_SENSITIVE@, KEY_SENSITIVE_MESSAGE@, at)]
            } else {
                seq![]
            };
            assert(f == dup + shape + sens);
            if repeated_text(values, k as int, key) {
                assert(f[0].code == KEY_DUPLICATE@);
                let i = choose|i: int| 0 <= i < k && text_of(Some(values[i])) == Some(key);
                assert(text_of(Some(values[i])) == text_of(Some(values[k as int])));
            } else {
                assert forall|m: int| 0 <= m < f.len() implies (#[trigger] f[m]).code != KEY_DUPLICATE@ by {
                    assert(f[m] == (shape + sens)[m]);
                }
                assert forall|i: int| 0 <= i < k && text_of(Some(values[i])) is Some implies #[trigger] text_of(
                    Some(values[i]),
                ) != text_of(Some(values[k as int])) by {}
            }
        },
    }
}

/// A configuration whose sidecar `j` lists the same runtime key at two
/// positions `i < k` is not well formed, and the audit reports the
/// duplicate error at `sidecars[j].runtimeKeys[k]`.
pub proof fn lemma_repeated_runtime_key_is_reported(
    root: Seq<(String, TomlValue)>,
    list: Seq<TomlValue>,
    j: nat,
    t: Seq<(String, TomlValue)>,
    values: Seq<TomlValue>,
    i: nat,
    k: nat,
)
    requires
        items_of(lookup(root, "sidecars"@)) == Some(list),
        j < list.len(),
        entries_of(Some(list[j as int])) == Some(t),
        items_of(lookup(t, "runtimeKeys"@)) == Some(values),
        i < k < values.len(),
        text_of(Some(values[i as int])) is Some,
        text_of(Some(values[i as int])) == text_of(Some(values[k as int])),
    ensures
        !well_formed_config(root),
        audit_findings(root).contains(error_at(KEY_DUPLICATE@, KEY_DUPLICATE_MESSAGE@, key_item_target(j, k))),
{
    let key = text_of(Some(values[k as int]))->0;
    assert(repeated_text(values, k as int, key));
    if well_formed_config(root) {
        assert(well_formed_sidecar(list, j as int));
        assert(valid_runtime_key_at(values, k as int));
    }
    let base = dotted(entry_target(j), "runtimeKeys"@);
    let x = error_at(KEY_DUPLICATE@, KEY_DUPLICATE_MESSAGE@, key_item_target(j, k));
    let item = key_item_findings(values, k as int, base);
    assert(item[0] == x);
    assert(item.contains(x));
    let value = lookup(root, "sidecars"@);
    lemma_runtime_key_rule(value, list, j, t, values, k);
    lemma_selected_contains(selected(sidecar_list_findings(value), at_entry(j)), at_key_item(key_item_target(j, k)), x);
    lemma_selected_contains(sidecar_list_findings(value), at_entry(j), x);
    lemma_config_contains_list_finding(root, x);
}

/// The duplicate-name rule, read off the positions of the sidecars: the
/// duplicate-name errors of sidecar `k` are one error at `target.name`
/// exactly when sidecar `k` and some earlier sidecar `i < k`, whichever,
/// are tables with the same string name, and none otherwise.
pub proof fn lemma_duplicate_name_law(list: Seq<TomlValue>, k: nat, target: Seq<char>)
    requires
        k < list.len(),
    ensures
        duplicate_name_findings(list, k as int, target) == if exists|i: int|
            0 <= i < k && name_of(list[i]) is Some && #[trigger] name_of(list[i]) == name_of(list[k as int]) {
            seq![error_at(DUPLICATE_NAME@, DUPLICATE_NAME_MESSAGE@, dotted(target, "name"@))]
        } else {
            Seq::<FindingView>::empty()
        },
{
    if let Some(name) = name_of(list[k as int]) {
        if repeated_name(list, k as int, name) {
            let i = choose|i: int| 0 <= i < k && name_of(list[i]) == Some(name);
            assert(name_of(list[i]) == name_of(list[k as int]));
        } else {
            assert forall|i: int| 0 <= i < k && name_of(list[i]) is Some implies #[trigger] name_of(list[i])
                != name_of(list[k as int]) by {}
        }
    }
}

/// A configuration with two sidecars `i < k` that are tables with the same
/// string name is not well formed, and the audit reports the duplicate-name
/// error at `sidecars[k].name`.
pub proof fn lemma_repeated_name_is_reported(root: Seq<(String, TomlValue)>, list: Seq<TomlValue>, i: nat, k: nat)
    requires
        items_of(lookup(root, "sidecars"@)) == Some(list),
        i < k < list.len(),
        name_of(list[i as int]) is Some,
        name_of(list[i as int]) == name_of(list[k as int]),
    ensures
        !well_formed_config(root),
        audit_findings(root).contains(
            error_at(DUPLICATE_NAME@, DUPLICATE_NAME_MESSAGE@, dotted(entry_target(k), "name"@)),
        ),
{
    let name = name_of(list[k as int])->0;
    assert(repeated_name(list, k as int, name));
    if well_formed_config(root) {
        assert(well_formed_sidecar(list, k as int));
    }
    let x = error_at(DUPLICATE_NAME@, DUPLICATE_NAME_MESSAGE@, dotted(entry_target(k), "name"@));
    let value = lookup(root, "sidecars"@);
    lemma_duplicate_name_rule(value, list, k);
    let d = duplicate_name_findings(list, k as int, entry_target(k));
    assert(d[0] == x);
    assert(d.contains(x));
    lemma_selected_contains(selected(sidecar_list_findings(value), at_entry(k)), with_code(DUPLICATE_NAME@), x);
    lemma_selected_contains(sidecar_list_findings(value), at_entry(k), x);
    lemma_config_contains_list_finding(root, x);
}

} // verus!
