//! Structured values keyed by text, kept in ascending byte order of their
//! keys with each key at most once.

use vstd::prelude::*;
use vstd::utf8::encode_utf8_decode_utf8;

use crate::text::bytes_of;
use crate::toml_tree::same_text;

verus! {

/// The value type of the `serde_json` crate, carried through unopened.
#[verifier::external_type_specification]
#[verifier::external_body]
pub struct ExJsonValue(serde_json::Value);

/// `a` comes before `b` in byte-lexicographic order.
pub open spec fn bytes_lt(a: Seq<u8>, b: Seq<u8>) -> bool
    decreases a.len(),
{
    if a.len() == 0 {
        b.len() > 0
    } else if b.len() == 0 {
        false
    } else if a[0] != b[0] {
        a[0] < b[0]
    } else {
        bytes_lt(a.drop_first(), b.drop_first())
    }
}

/// Key `a` sorts before key `b`: their UTF-8 bytes compare so.
pub open spec fn key_lt(a: Seq<char>, b: Seq<char>) -> bool {
    bytes_lt(bytes_of(a), bytes_of(b))
}

/// `entries` with `value` stored under `key`: the entry with that key gets
/// the new value, or, where there is none, a new entry goes in before the
/// first entry whose key sorts after `key`.
pub open spec fn insert_sorted(
    entries: Seq<(Seq<char>, serde_json::Value)>,
    key: Seq<char>,
    value: serde_json::Value,
) -> Seq<(Seq<char>, serde_json::Value)>
    decreases entries.len(),
{
    if entries.len() == 0 {
        seq![(key, value)]
    } else if entries[0].0 == key {
        seq![(key, value)] + entries.drop_first()
    } else if key_lt(key, entries[0].0) {
        seq![(key, value)] + entries
    } else {
        seq![entries[0]] + insert_sorted(entries.drop_first(), key, value)
    }
}

/// The value stored under `key`: that of the first entry with the key.
pub open spec fn value_under(entries: Seq<(Seq<char>, serde_json::Value)>, key: Seq<char>) -> Option<serde_json::Value>
    decreases entries.len(),
{
    if entries.len() == 0 {
        None
    } else if entries[0].0 == key {
        Some(entries[0].1)
    } else {
        value_under(entries.drop_first(), key)
    }
}

/// Copies a `serde_json::Value` with its derived `Clone`. The contract
/// claims that the copy is the same value as the original.
pub assume_specification[ <serde_json::Value as Clone>::clone ](value: &serde_json::Value) -> (copy: serde_json::Value)
    ensures
        copy == *value,
;

/// Structured values keyed by text, in ascending key order.
#[derive(Debug)]
pub struct DetailMap {
    entries: Vec<(String, serde_json::Value)>,
}

impl View for DetailMap {
    type V = Seq<(Seq<char>, serde_json::Value)>;

    closed spec fn view(&self) -> Seq<(Seq<char>, serde_json::Value)> {
        entries_view(self.entries@)
    }
}

/// The keys (as texts) and values of stored entries.
pub open spec fn entries_view(entries: Seq<(String, serde_json::Value)>) -> Seq<(Seq<char>, serde_json::Value)> {
    entries.map_values(|e: (String, serde_json::Value)| (e.0@, e.1))
}

impl Clone for DetailMap {
    /// A map with the same keys and values.
    fn clone(&self) -> (copy: Self)
        ensures
            copy@ == self@,
    {
        proof {
            use_type_invariant(self);
        }
        let mut entries: Vec<(String, serde_json::Value)> = Vec::new();
        let mut i: usize = 0;
        while i < self.entries.len()
            invariant
                i <= self.entries@.len(),
                sorted_keys(self@),
                entries_view(entries@) == self@.take(i as int),
            decreases self.entries.len() - i,
        {
            let key = self.entries[i].0.clone();
            let value = self.entries[i].1.clone();
            let ghost before = entries@;
            proof {
                assert(key@ == self.entries@[i as int].0@);
                assert(value == self.entries@[i as int].1);
                assert(self@[i as int] == (key@, value));
                assert(self@.take(i + 1) =~= self@.take(i as int).push(self@[i as int]));
            }
            entries.push((key, value));
            proof {
                assert(entries@ =~= before.push((key, value)));
                assert(entries_view(entries@) =~= entries_view(before).push((key@, value)));
            }
            i = i + 1;
        }
        proof {
            assert(self@.take(i as int) =~= self@);
        }
        DetailMap { entries }
    }
}

/// Whether key `a` sorts before key `b`.
fn key_before(a: &str, b: &str) -> (before: bool)
    ensures
        before == key_lt(a@, b@),
{
    let x = a.as_bytes();
    let y = b.as_bytes();
    let mut i: usize = 0;
    proof {
        assert(x@.subrange(0, x@.len() as int) =~= x@);
        assert(y@.subrange(0, y@.len() as int) =~= y@);
    }
    while i < x.len() && i < y.len()
        invariant
            x@ == bytes_of(a@),
            y@ == bytes_of(b@),
            i <= x@.len(),
            i <= y@.len(),
            key_lt(a@, b@) == bytes_lt(
                x@.subrange(i as int, x@.len() as int),
                y@.subrange(i as int, y@.len() as int),
            ),
        decreases x.len() - i,
    {
        if x[i] != y[i] {
            return x[i] < y[i];
        }
        proof {
            assert(x@.subrange(i as int, x@.len() as int).drop_first() =~= x@.subrange(i + 1, x@.len() as int));
            assert(y@.subrange(i as int, y@.len() as int).drop_first() =~= y@.subrange(i + 1, y@.len() as int));
        }
        i = i + 1;
    }
    i == x.len() && i < y.len()
}

proof fn lemma_insert_after_prefix(
    entries: Seq<(Seq<char>, serde_json::Value)>,
    key: Seq<char>,
    value: serde_json::Value,
    i: int,
)
    requires
        0 <= i <= entries.len(),
        forall|j: int| 0 <= j < i ==> (#[trigger] entries[j]).0 != key && !key_lt(key, entries[j].0),
    ensures
        insert_sorted(entries, key, value) == entries.take(i) + insert_sorted(entries.skip(i), key, value),
    decreases i,
{
    if i > 0 {
        let rest = entries.drop_first();
        assert forall|j: int| 0 <= j < i - 1 implies (#[trigger] rest[j]).0 != key && !key_lt(key, rest[j].0) by {
            assert(rest[j] == entries[j + 1]);
        }
        lemma_insert_after_prefix(rest, key, value, i - 1);
        assert(rest.skip(i - 1) =~= entries.skip(i));
        assert(entries.take(i) =~= seq![entries[0]] + rest.take(i - 1));
        assert(entries[0].0 != key && !key_lt(key, entries[0].0));
    } else {
        assert(entries.skip(0) =~= entries);
        assert(entries.take(0) + insert_sorted(entries, key, value) =~= insert_sorted(entries, key, value));
    }
}

impl DetailMap {
    /// Every map holds each key once, in ascending byte order.
    #[verifier::type_invariant]
    spec fn keys_ascend(self) -> bool {
        sorted_keys(self@)
    }

    /// An empty map.
    pub fn new() -> (map: Self)
        ensures
            map@ == Seq::<(Seq<char>, serde_json::Value)>::empty(),
            sorted_keys(map@),
    {
        let entries: Vec<(String, serde_json::Value)> = Vec::new();
        proof {
            assert(entries_view(entries@) =~= Seq::<(Seq<char>, serde_json::Value)>::empty());
        }
        let map = DetailMap { entries };
        map
    }

    /// The number of keys.
    pub fn len(&self) -> (n: usize)
        ensures
            n == self@.len(),
            sorted_keys(self@),
    {
        proof {
            use_type_invariant(self);
        }
        self.entries.len()
    }

    /// Stores `value` under `key`, replacing the value it held.
    pub fn insert(&mut self, key: &str, value: serde_json::Value)
        ensures
            final(self)@ == insert_sorted(old(self)@, key@, value),
            sorted_keys(final(self)@),
    {
        proof {
            use_type_invariant(&*self);
            lemma_insert_keeps_order(self@, key@, value);
        }
        let ghost start = self@;
        let mut entries: Vec<(String, serde_json::Value)> = Vec::new();
        std::mem::swap(&mut entries, &mut self.entries);
        let n = entries.len();
        let mut i: usize = 0;
        let mut found = false;
        let mut before = false;
        while i < n
            invariant_except_break
                forall|j: int| 0 <= j < i ==> (#[trigger] start[j]).0 != key@ && !key_lt(key@, start[j].0),
                !found && !before,
            invariant
                start == entries_view(entries@),
                n == entries@.len(),
                i <= n,
            ensures
                i <= n,
                forall|j: int| 0 <= j < i ==> (#[trigger] start[j]).0 != key@ && !key_lt(key@, start[j].0),
                found ==> i < n && start[i as int].0 == key@,
                before ==> i < n && key_lt(key@, start[i as int].0) && start[i as int].0 != key@,
                !found && !before ==> i == n,
            decreases n - i,
        {
            proof {
                assert(start[i as int].0 == entries@[i as int].0@);
            }
            if same_text(entries[i].0.as_str(), key) {
                found = true;
                break;
            }
            if key_before(key, entries[i].0.as_str()) {
                before = true;
                break;
            }
            i = i + 1;
        }
        proof {
            lemma_insert_after_prefix(start, key@, value, i as int);
        }
        if found {
            proof {
                assert(start.skip(i as int)[0] == start[i as int]);
                assert(start.skip(i as int).drop_first() =~= start.skip(i + 1));
                assert(insert_sorted(start.skip(i as int), key@, value) == seq![(key@, value)] + start.skip(
                    i as int,
                ).drop_first());
            }
            entries.set(i, (key.to_owned(), value));
            proof {
                assert(entries_view(entries@) =~= start.take(i as int) + (seq![(key@, value)] + start.skip(i + 1)));
            }
        } else if before {
            proof {
                assert(start.skip(i as int)[0] == start[i as int]);
                assert(insert_sorted(start.skip(i as int), key@, value) == seq![(key@, value)] + start.skip(
                    i as int,
                ));
            }
            entries.insert(i, (key.to_owned(), value));
            proof {
                assert(entries_view(entries@) =~= start.take(i as int) + (seq![(key@, value)] + start.skip(i as int)));
            }
        } else {
            proof {
                assert(start.skip(i as int) =~= Seq::<(Seq<char>, serde_json::Value)>::empty());
                assert(start.take(i as int) =~= start);
            }
            entries.push((key.to_owned(), value));
            proof {
                assert(entries_view(entries@) =~= start + seq![(key@, value)]);
            }
        }
        self.entries = entries;
    }

    /// The value stored under `key`.
    pub fn get(&self, key: &str) -> (found: Option<&serde_json::Value>)
        ensures
            found is None <==> value_under(self@, key@) is None,
            found matches Some(v) ==> value_under(self@, key@) == Some(*v),
            sorted_keys(self@),
    {
        proof {
            use_type_invariant(self);
        }
        let ghost all = self@;
        let mut i: usize = 0;
        proof {
            assert(all.skip(0) =~= all);
        }
        while i < self.entries.len()
            invariant
                all == self@,
                sorted_keys(all),
                i <= all.len(),
                value_under(all, key@) == value_under(all.skip(i as int), key@),
            decreases self.entries.len() - i,
        {
            proof {
                assert(all.skip(i as int).drop_first() =~= all.skip(i + 1));
                assert(all[i as int].0 == self.entries@[i as int].0@);
            }
            if same_text(self.entries[i].0.as_str(), key) {
                return Some(&self.entries[i].1);
            }
            i = i + 1;
        }
        None
    }
}

/// A read gives back what the last write under the same key stored, and a
/// write under one key leaves what every other key reads unchanged.
pub proof fn lemma_read_after_insert(
    entries: Seq<(Seq<char>, serde_json::Value)>,
    key: Seq<char>,
    value: serde_json::Value,
    other: Seq<char>,
)
    ensures
        value_under(insert_sorted(entries, key, value), key) == Some(value),
        other != key ==> value_under(insert_sorted(entries, key, value), other) == value_under(entries, other),
    decreases entries.len(),
{
    if entries.len() > 0 {
        lemma_read_after_insert(entries.drop_first(), key, value, other);
        if entries[0].0 == key {
            let out = seq![(key, value)] + entries.drop_first();
            assert(out[0] == (key, value));
            assert(out.drop_first() =~= entries.drop_first());
        } else if key_lt(key, entries[0].0) {
            let out = seq![(key, value)] + entries;
            assert(out[0] == (key, value));
            assert(out.drop_first() =~= entries);
        } else {
            let ins = insert_sorted(entries.drop_first(), key, value);
            let out = seq![entries[0]] + ins;
            assert(out[0] == entries[0]);
            assert(out.drop_first() =~= ins);
        }
    } else {
        assert(seq![(key, value)].drop_first() =~= entries);
    }
}

/// The keys of `entries` strictly ascend, so that no key occurs twice.
pub open spec fn sorted_keys(entries: Seq<(Seq<char>, serde_json::Value)>) -> bool {
    forall|i: int, j: int| 0 <= i < j < entries.len() ==> key_lt(#[trigger] entries[i].0, #[trigger] entries[j].0)
}

proof fn lemma_bytes_lt_transitive(a: Seq<u8>, b: Seq<u8>, c: Seq<u8>)
    requires
        bytes_lt(a, b),
        bytes_lt(b, c),
    ensures
        bytes_lt(a, c),
    decreases a.len(),
{
    if a.len() > 0 && b.len() > 0 && c.len() > 0 && a[0] == b[0] && b[0] == c[0] {
        lemma_bytes_lt_transitive(a.drop_first(), b.drop_first(), c.drop_first());
    }
}

proof fn lemma_bytes_lt_total(a: Seq<u8>, b: Seq<u8>)
    requires
        a != b,
    ensures
        bytes_lt(a, b) || bytes_lt(b, a),
    decreases a.len(),
{
    if a.len() == 0 {
        assert(b.len() > 0) by {
            if b.len() == 0 {
                assert(a =~= b);
            }
        }
    } else if b.len() > 0 && a[0] == b[0] {
        if a.drop_first() == b.drop_first() {
            assert(a =~= seq![a[0]] + a.drop_first());
            assert(b =~= seq![b[0]] + b.drop_first());
        }
        lemma_bytes_lt_total(a.drop_first(), b.drop_first());
    }
}

proof fn lemma_key_lt_transitive(a: Seq<char>, b: Seq<char>, c: Seq<char>)
    requires
        key_lt(a, b),
        key_lt(b, c),
    ensures
        key_lt(a, c),
{
    lemma_bytes_lt_transitive(bytes_of(a), bytes_of(b), bytes_of(c));
}

proof fn lemma_key_lt_total(a: Seq<char>, b: Seq<char>)
    requires
        a != b,
    ensures
        key_lt(a, b) || key_lt(b, a),
{
    encode_utf8_decode_utf8(a);
    encode_utf8_decode_utf8(b);
    lemma_bytes_lt_total(bytes_of(a), bytes_of(b));
}

proof fn lemma_inserted_keys(entries: Seq<(Seq<char>, serde_json::Value)>, key: Seq<char>, value: serde_json::Value)
    ensures
        forall|i: int| 0 <= i < insert_sorted(entries, key, value).len() ==> (#[trigger] insert_sorted(entries, key, value)[i]).0 == key
            || exists|j: int| 0 <= j < entries.len() && entries[j].0 == insert_sorted(entries, key, value)[i].0,
    decreases entries.len(),
{
    let out = insert_sorted(entries, key, value);
    if entries.len() > 0 {
        let rest = entries.drop_first();
        lemma_inserted_keys(rest, key, value);
        assert forall|i: int| 0 <= i < out.len() implies (#[trigger] out[i]).0 == key
            || exists|j: int| 0 <= j < entries.len() && entries[j].0 == out[i].0 by {
            if entries[0].0 == key {
                if i > 0 {
                    assert(entries[i].0 == out[i].0);
                }
            } else if key_lt(key, entries[0].0) {
                if i > 0 {
                    assert(entries[i - 1].0 == out[i].0);
                }
            } else {
                if i == 0 {
                    assert(entries[0].0 == out[i].0);
                } else {
                    let ins = insert_sorted(rest, key, value);
                    assert(out[i] == ins[i - 1]);
                    if ins[i - 1].0 != key {
                        let j = choose|j: int| 0 <= j < rest.len() && rest[j].0 == ins[i - 1].0;
                        assert(entries[j + 1].0 == out[i].0);
                    }
                }
            }
        }
    }
}

/// Storing a value keeps the keys in strictly ascending order: a map that
/// starts empty and is only written through [`DetailMap::insert`] holds
/// each key once, in ascending byte order.
pub proof fn lemma_insert_keeps_order(entries: Seq<(Seq<char>, serde_json::Value)>, key: Seq<char>, value: serde_json::Value)
    requires
        sorted_keys(entries),
    ensures
        sorted_keys(insert_sorted(entries, key, value)),
    decreases entries.len(),
{
    let out = insert_sorted(entries, key, value);
    if entries.len() > 0 {
        let rest = entries.drop_first();
        if entries[0].0 == key {
            assert forall|i: int, j: int| 0 <= i < j < out.len() implies key_lt(#[trigger] out[i].0, #[trigger] out[j].0) by {
                assert(out[i].0 == entries[i].0);
                assert(out[j].0 == entries[j].0);
            }
        } else if key_lt(key, entries[0].0) {
            assert forall|i: int, j: int| 0 <= i < j < out.len() implies key_lt(#[trigger] out[i].0, #[trigger] out[j].0) by {
                assert(out[j].0 == entries[j - 1].0);
                if i == 0 {
                    if j - 1 > 0 {
                        lemma_key_lt_transitive(key, entries[0].0, entries[j - 1].0);
                    }
                } else {
                    assert(out[i].0 == entries[i - 1].0);
                }
            }
        } else {
            assert(sorted_keys(rest)) by {
                assert forall|i: int, j: int| 0 <= i < j < rest.len() implies key_lt(#[trigger] rest[i].0, #[trigger] rest[j].0) by {
                    assert(rest[i] == entries[i + 1]);
                    assert(rest[j] == entries[j + 1]);
                }
            }
            lemma_insert_keeps_order(rest, key, value);
            lemma_inserted_keys(rest, key, value);
            lemma_key_lt_total(entries[0].0, key);
            let ins = insert_sorted(rest, key, value);
            assert forall|i: int, j: int| 0 <= i < j < out.len() implies key_lt(#[trigger] out[i].0, #[trigger] out[j].0) by {
                assert(out[j] == ins[j - 1]);
                if i == 0 {
                    assert(out[0] == entries[0]);
                    if ins[j - 1].0 != key {
                        let k = choose|k: int| 0 <= k < rest.len() && rest[k].0 == ins[j - 1].0;
                        assert(rest[k] == entries[k + 1]);
                    }
                } else {
                    assert(out[i] == ins[i - 1]);
                }
            }
        }
    }
}

} // verus!
