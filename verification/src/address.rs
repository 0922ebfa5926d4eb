//! The text of an IP address: which texts name an IPv4 or IPv6 address, and
//! which of those name a loopback address.
//!
//! The grammar is that of the standard library's `IpAddr` parser: an IPv4
//! address is four dot-separated decimal fields of one to three digits, each
//! at most 255 and without a leading zero; an IPv6 address is eight
//! colon-separated groups of one to four hexadecimal digits, where the last
//! two groups may be written as an IPv4 address and one run of groups may
//! be elided by `::` (which stands for at least one zero group).

use vstd::prelude::*;

use crate::text::{bytes_of, is_digit_byte, DIGIT_0, DIGIT_9, DOT};

verus! {

/// `:`
pub const COLON: u8 = 0x3a;

/// What a `bindIp` text names: no address, a loopback address, or another
/// address.
#[derive(Debug, Clone, Copy, PartialEq, Eq, Structural)]
pub enum BindIpClass {
    Invalid,
    Loopback,
    NotLoopback,
}

/// The value of a hexadecimal digit (either case), or -1.
pub open spec fn hex_digit_value(c: u8) -> int {
    if DIGIT_0 <= c <= DIGIT_9 {
        c - DIGIT_0
    } else if 0x61 <= c <= 0x66 {
        c - 0x61 + 10
    } else if 0x41 <= c <= 0x46 {
        c - 0x41 + 10
    } else {
        -1
    }
}

pub open spec fn is_hex_digit(c: u8) -> bool {
    hex_digit_value(c) >= 0
}

/// The value of the digits `d` in base `radix`.
pub open spec fn digits_value(d: Seq<u8>, radix: int) -> int
    decreases d.len(),
{
    if d.len() == 0 {
        0
    } else {
        digits_value(d.drop_last(), radix) * radix + hex_digit_value(d.last())
    }
}

/// The pieces of `b` between occurrences of `sep` (one more than there are
/// occurrences).
pub open spec fn split_at_byte(b: Seq<u8>, sep: u8) -> Seq<Seq<u8>>
    decreases b.len(),
{
    if b.len() == 0 {
        seq![Seq::<u8>::empty()]
    } else {
        let head = split_at_byte(b.drop_last(), sep);
        if b.last() == sep {
            head.push(Seq::<u8>::empty())
        } else {
            head.update(head.len() - 1, head.last().push(b.last()))
        }
    }
}

/// A decimal field of an IPv4 address.
pub open spec fn ipv4_field(f: Seq<u8>) -> bool {
    &&& 1 <= f.len() <= 3
    &&& forall|i: int| 0 <= i < f.len() ==> is_digit_byte(#[trigger] f[i])
    &&& (f.len() == 1 || f[0] != DIGIT_0)
    &&& digits_value(f, 10) <= 255
}

/// The four octets of the IPv4 address that `b` writes, if it writes one.
pub open spec fn ipv4_octets(b: Seq<u8>) -> Option<Seq<int>> {
    let fields = split_at_byte(b, DOT);
    if fields.len() == 4 && forall|i: int| 0 <= i < 4 ==> ipv4_field(#[trigger] fields[i]) {
        Some(fields.map_values(|f: Seq<u8>| digits_value(f, 10)))
    } else {
        None
    }
}

/// A hexadecimal group of an IPv6 address.
pub open spec fn hex_group(g: Seq<u8>) -> bool {
    &&& 1 <= g.len() <= 4
    &&& forall|i: int| 0 <= i < g.len() ==> is_hex_digit(#[trigger] g[i])
}

pub open spec fn all_hex_groups(parts: Seq<Seq<u8>>) -> bool {
    forall|i: int| 0 <= i < parts.len() ==> hex_group(#[trigger] parts[i])
}

pub open spec fn group_values(parts: Seq<Seq<u8>>) -> Seq<int> {
    parts.map_values(|g: Seq<u8>| digits_value(g, 16))
}

/// The two 16-bit groups that an IPv4 address fills.
pub open spec fn v4_groups(o: Seq<int>) -> Seq<int> {
    seq![o[0] * 256 + o[1], o[2] * 256 + o[3]]
}

/// The 16-bit groups that a colon-separated list of parts writes: all
/// hexadecimal groups, or, where `allow_v4`, hexadecimal groups followed by
/// one IPv4 address.
pub open spec fn listed_groups(parts: Seq<Seq<u8>>, allow_v4: bool) -> Option<Seq<int>> {
    if all_hex_groups(parts) {
        Some(group_values(parts))
    } else if allow_v4 && parts.len() > 0 && all_hex_groups(parts.drop_last()) && ipv4_octets(parts.last()) is Some {
        Some(group_values(parts.drop_last()) + v4_groups(ipv4_octets(parts.last())->0))
    } else {
        None
    }
}

/// The groups written on one side of `::` (none when that side is empty).
pub open spec fn side_groups(b: Seq<u8>, allow_v4: bool) -> Option<Seq<int>> {
    if b.len() == 0 {
        Some(Seq::empty())
    } else {
        listed_groups(split_at_byte(b, COLON), allow_v4)
    }
}

pub open spec fn double_colon_at(b: Seq<u8>, i: int) -> bool {
    0 <= i && i + 1 < b.len() && b[i] == COLON && b[i + 1] == COLON
}

/// Where the first `::` of `b` starts, if there is one.
pub open spec fn first_double_colon(b: Seq<u8>) -> Option<int> {
    if exists|i: int| double_colon_at(b, i) {
        Some(choose|i: int| double_colon_at(b, i) && forall|j: int| 0 <= j < i ==> !double_colon_at(b, j))
    } else {
        None
    }
}

/// The eight groups written without `::`: eight hexadecimal groups, or six
/// followed by an IPv4 address.
pub open spec fn unelided_groups(b: Seq<u8>) -> Option<Seq<int>> {
    match listed_groups(split_at_byte(b, COLON), true) {
        Some(g) if g.len() == 8 => Some(g),
        _ => None,
    }
}

/// The eight groups written with `::` at `p`: the groups before it, zero
/// groups for at least one elided group, and the groups after it.
pub open spec fn elided_groups(b: Seq<u8>, p: int) -> Option<Seq<int>> {
    match (side_groups(b.take(p), false), side_groups(b.skip(p + 2), true)) {
        (Some(h), Some(t)) if h.len() + t.len() <= 7 => Some(
            h + Seq::new((8 - h.len() - t.len()) as nat, |i: int| 0int) + t,
        ),
        _ => None,
    }
}

/// The eight 16-bit groups of the IPv6 address that `b` writes, if it
/// writes one.
pub open spec fn ipv6_groups(b: Seq<u8>) -> Option<Seq<int>> {
    match first_double_colon(b) {
        None => unelided_groups(b),
        Some(p) => elided_groups(b, p),
    }
}

/// What the text `s` names: an IPv4 address is loopback when its first
/// octet is 127, an IPv6 address when it is `::1`.
#[verifier::opaque]
pub open spec fn ip_class(s: Seq<char>) -> BindIpClass {
    let b = bytes_of(s);
    match ipv4_octets(b) {
        Some(o) => if o[0] == 127 {
            BindIpClass::Loopback
        } else {
            BindIpClass::NotLoopback
        },
        None => match ipv6_groups(b) {
            Some(g) => if g == seq![0int, 0, 0, 0, 0, 0, 0, 1] {
                BindIpClass::Loopback
            } else {
                BindIpClass::NotLoopback
            },
            None => BindIpClass::Invalid,
        },
    }
}

/// The class that a text gets from the IPv4 and IPv6 addresses it writes.
proof fn lemma_ip_class_parts(s: Seq<char>, v4: Option<Seq<int>>, v6: Option<Seq<int>>)
    requires
        v4 == ipv4_octets(bytes_of(s)),
        v6 == ipv6_groups(bytes_of(s)),
    ensures
        ip_class(s) == match v4 {
            Some(v) => if v[0] == 127 {
                BindIpClass::Loopback
            } else {
                BindIpClass::NotLoopback
            },
            None => match v6 {
                Some(g) => if g == seq![0int, 0, 0, 0, 0, 0, 0, 1] {
                    BindIpClass::Loopback
                } else {
                    BindIpClass::NotLoopback
                },
                None => BindIpClass::Invalid,
            },
        },
{
    reveal(ip_class);
}

proof fn lemma_class_cases(c: BindIpClass, v4: Option<Seq<int>>, v6: Option<Seq<int>>)
    requires
        c == match v4 {
            Some(v) => if v[0] == 127 {
                BindIpClass::Loopback
            } else {
                BindIpClass::NotLoopback
            },
            None => match v6 {
                Some(g) => if g == seq![0int, 0, 0, 0, 0, 0, 0, 1] {
                    BindIpClass::Loopback
                } else {
                    BindIpClass::NotLoopback
                },
                None => BindIpClass::Invalid,
            },
        },
    ensures
        v4 matches Some(o) ==> c != BindIpClass::Invalid && (c == BindIpClass::Loopback <==> o[0] == 127),
        v4 is None ==> (v6 matches Some(g) ==> c != BindIpClass::Invalid && (c == BindIpClass::Loopback <==> (
        forall|i: int| 0 <= i < 7 ==> g[i] == 0) && g[7] == 1 && g.len() == 8)),
        c == BindIpClass::Invalid <==> v4 is None && v6 is None,
{
    if v4 is None {
        if let Some(g) = v6 {
            if (forall|i: int| 0 <= i < 7 ==> g[i] == 0) && g[7] == 1 && g.len() == 8 {
                assert(g =~= seq![0int, 0, 0, 0, 0, 0, 0, 1]);
            }
        }
    }
}

/// What a text names, read from the address it writes: a text that writes
/// an IPv4 address names a loopback address exactly when the address's
/// first octet is 127, and another address otherwise; a text that writes
/// no IPv4 address but an IPv6 address names a loopback address exactly
/// when that address is `::1` (seven zero groups, then 1); a text that
/// writes neither names no address.
pub proof fn lemma_ip_class_by_address(s: Seq<char>, v4: Option<Seq<int>>, v6: Option<Seq<int>>)
    requires
        v4 == ipv4_octets(bytes_of(s)),
        v6 == ipv6_groups(bytes_of(s)),
    ensures
        v4 matches Some(o) ==> ip_class(s) != BindIpClass::Invalid && (ip_class(s) == BindIpClass::Loopback
            <==> o[0] == 127),
        v4 is None ==> (v6 matches Some(g) ==> ip_class(s) != BindIpClass::Invalid && (ip_class(s)
            == BindIpClass::Loopback <==> (forall|i: int| 0 <= i < 7 ==> g[i] == 0) && g[7] == 1 && g.len()
            == 8)),
        ip_class(s) == BindIpClass::Invalid <==> v4 is None && v6 is None,
{
    lemma_ip_class_parts(s, v4, v6);
    lemma_class_cases(ip_class(s), v4, v6);
}

pub open spec fn views_of(parts: Seq<Vec<u8>>) -> Seq<Seq<u8>> {
    parts.map_values(|v: Vec<u8>| v@)
}

/// The pieces of `b[start..end]` between occurrences of `sep`.
fn split_range(b: &[u8], start: usize, end: usize, sep: u8) -> (parts: Vec<Vec<u8>>)
    requires
        start <= end <= b@.len(),
    ensures
        views_of(parts@) == split_at_byte(b@.subrange(start as int, end as int), sep),
{
    let mut parts: Vec<Vec<u8>> = Vec::new();
    let mut cur: Vec<u8> = Vec::new();
    let mut i = start;
    proof {
        assert(b@.subrange(start as int, start as int) =~= Seq::<u8>::empty());
        assert(views_of(parts@).push(cur@) =~= seq![Seq::<u8>::empty()]);
    }
    while i < end
        invariant
            start <= i <= end <= b@.len(),
            views_of(parts@).push(cur@) == split_at_byte(b@.subrange(start as int, i as int), sep),
        decreases end - i,
    {
        let ghost before = split_at_byte(b@.subrange(start as int, i as int), sep);
        proof {
            assert(b@.subrange(start as int, i + 1).drop_last() =~= b@.subrange(start as int, i as int));
            assert(b@.subrange(start as int, i + 1).last() == b@[i as int]);
        }
        if b[i] == sep {
            parts.push(cur);
            cur = Vec::new();
            proof {
                assert(views_of(parts@).push(cur@) =~= before.push(Seq::<u8>::empty()));
            }
        } else {
            let ghost old_parts = parts@;
            let ghost old_cur = cur@;
            cur.push(b[i]);
            proof {
                assert(views_of(parts@).push(cur@) =~= before.update(before.len() - 1, before.last().push(b@[i as int])));
            }
        }
        i = i + 1;
    }
    parts.push(cur);
    proof {
        assert(views_of(parts@) =~= split_at_byte(b@.subrange(start as int, end as int), sep));
    }
    parts
}

pub open spec fn radix_pow(radix: int, n: nat) -> int
    decreases n,
{
    if n == 0 {
        1
    } else {
        radix_pow(radix, (n - 1) as nat) * radix
    }
}

pub open spec fn as_ints(v: Seq<u32>) -> Seq<int> {
    v.map_values(|x: u32| x as int)
}

/// The value of one hexadecimal (or decimal) digit.
fn digit_value(c: u8) -> (v: u32)
    requires
        is_hex_digit(c),
    ensures
        v == hex_digit_value(c),
{
    if DIGIT_0 <= c && c <= DIGIT_9 {
        (c - DIGIT_0) as u32
    } else if 0x61 <= c && c <= 0x66 {
        (c - 0x61 + 10) as u32
    } else {
        (c - 0x41 + 10) as u32
    }
}

/// The value of at most four digits in base 10 or 16.
fn digits_value_exec(d: &Vec<u8>, radix: u32) -> (v: u32)
    requires
        radix == 10 || radix == 16,
        d@.len() <= 4,
        forall|i: int| 0 <= i < d@.len() ==> 0 <= #[trigger] hex_digit_value(d@[i]) < radix,
    ensures
        v == digits_value(d@, radix as int),
        v < radix_pow(radix as int, d@.len()),
{
    proof {
        reveal_with_fuel(radix_pow, 5);
        assert(radix_pow(radix as int, 4) <= 65536);
        assert(d@.take(0) =~= Seq::<u8>::empty());
    }
    let mut v: u32 = 0;
    let mut i: usize = 0;
    while i < d.len()
        invariant
            radix == 10 || radix == 16,
            d@.len() <= 4,
            forall|k: int| 0 <= k < d@.len() ==> 0 <= #[trigger] hex_digit_value(d@[k]) < radix,
            i <= d@.len(),
            v == digits_value(d@.take(i as int), radix as int),
            0 <= v < radix_pow(radix as int, i as nat),
        decreases d.len() - i,
    {
        let c = d[i];
        let x = digit_value(c);
        let ghost p = radix_pow(radix as int, i as nat);
        proof {
            reveal_with_fuel(radix_pow, 5);
            assert(p <= 4096);
            assert(v * radix + x < p * radix) by (nonlinear_arith)
                requires
                    v < p,
                    x < radix,
                    0 <= v,
            ;
            assert(p * radix <= 65536) by (nonlinear_arith)
                requires
                    p <= 4096,
                    radix <= 16,
            ;
            assert(d@.take(i + 1).drop_last() =~= d@.take(i as int));
        }
        v = v * radix + x;
        i = i + 1;
    }
    proof {
        assert(d@.take(i as int) =~= d@);
    }
    v
}

/// Whether `g` is a hexadecimal group.
fn is_hex_group(g: &Vec<u8>) -> (ok: bool)
    ensures
        ok == hex_group(g@),
{
    if g.len() == 0 || g.len() > 4 {
        return false;
    }
    let mut i: usize = 0;
    while i < g.len()
        invariant
            i <= g@.len(),
            forall|k: int| 0 <= k < i ==> is_hex_digit(#[trigger] g@[k]),
        decreases g.len() - i,
    {
        let c = g[i];
        let hex = (DIGIT_0 <= c && c <= DIGIT_9) || (0x61 <= c && c <= 0x66) || (0x41 <= c && c <= 0x46);
        if !hex {
            return false;
        }
        i = i + 1;
    }
    true
}

/// The value of a decimal IPv4 field, if `f` is one.
fn ipv4_field_value(f: &Vec<u8>) -> (v: Option<u32>)
    ensures
        v is Some <==> ipv4_field(f@),
        v matches Some(x) ==> x == digits_value(f@, 10),
{
    if f.len() == 0 || f.len() > 3 {
        return None;
    }
    let mut i: usize = 0;
    while i < f.len()
        invariant
            i <= f@.len(),
            forall|k: int| 0 <= k < i ==> is_digit_byte(#[trigger] f@[k]),
        decreases f.len() - i,
    {
        if !(DIGIT_0 <= f[i] && f[i] <= DIGIT_9) {
            return None;
        }
        i = i + 1;
    }
    if f.len() > 1 && f[0] == DIGIT_0 {
        return None;
    }
    let v = digits_value_exec(f, 10);
    if v > 255 {
        None
    } else {
        Some(v)
    }
}

/// The octets of the IPv4 address that `b[start..end]` writes, if any.
fn ipv4_exec(b: &[u8], start: usize, end: usize) -> (octets: Option<Vec<u32>>)
    requires
        start <= end <= b@.len(),
    ensures
        octets is None <==> ipv4_octets(b@.subrange(start as int, end as int)) is None,
        octets matches Some(o) ==> ipv4_octets(b@.subrange(start as int, end as int)) == Some(as_ints(o@)),
        octets matches Some(o) ==> o@.len() == 4 && forall|k: int| 0 <= k < 4 ==> #[trigger] o@[k] <= 255,
{
    let fields = split_range(b, start, end, DOT);
    let ghost views = views_of(fields@);
    if fields.len() != 4 {
        return None;
    }
    let mut octets: Vec<u32> = Vec::new();
    let mut i: usize = 0;
    while i < 4
        invariant
            fields@.len() == 4,
            views == views_of(fields@),
            views == split_at_byte(b@.subrange(start as int, end as int), DOT),
            i <= 4,
            octets@.len() == i,
            forall|k: int| 0 <= k < i ==> ipv4_field(#[trigger] views[k]),
            forall|k: int| 0 <= k < i ==> octets@[k] as int == digits_value(#[trigger] views[k], 10),
            forall|k: int| 0 <= k < i ==> #[trigger] octets@[k] <= 255,
        decreases 4 - i,
    {
        proof {
            assert(views[i as int] == fields@[i as int]@);
        }
        match ipv4_field_value(&fields[i]) {
            Some(v) => {
                octets.push(v);
            },
            None => {
                proof {
                    assert(!ipv4_field(views[i as int]));
                    assert(!(forall|k: int| 0 <= k < 4 ==> ipv4_field(#[trigger] views[k])));
                }
                return None;
            },
        }
        i = i + 1;
    }
    proof {
        assert(as_ints(octets@) =~= views.map_values(|f: Seq<u8>| digits_value(f, 10)));
    }
    Some(octets)
}

/// The values of the first `n` parts, if they are all hexadecimal groups.
fn hex_values(parts: &Vec<Vec<u8>>, n: usize) -> (values: Option<Vec<u32>>)
    requires
        n <= parts@.len(),
    ensures
        values is Some <==> all_hex_groups(views_of(parts@).take(n as int)),
        values matches Some(v) ==> as_ints(v@) == group_values(views_of(parts@).take(n as int)),
{
    let ghost views = views_of(parts@).take(n as int);
    let mut values: Vec<u32> = Vec::new();
    let mut i: usize = 0;
    while i < n
        invariant
            n <= parts@.len(),
            views == views_of(parts@).take(n as int),
            i <= n,
            values@.len() == i,
            forall|k: int| 0 <= k < i ==> hex_group(#[trigger] views[k]),
            forall|k: int| 0 <= k < i ==> values@[k] as int == digits_value(#[trigger] views[k], 16),
        decreases n - i,
    {
        if !is_hex_group(&parts[i]) {
            proof {
                assert(views[i as int] == parts@[i as int]@);
            }
            return None;
        }
        proof {
            assert(views[i as int] == parts@[i as int]@);
            assert forall|k: int| 0 <= k < parts@[i as int]@.len() implies 0 <= #[trigger] hex_digit_value(
                parts@[i as int]@[k],
            ) < 16 by {}
        }
        let v = digits_value_exec(&parts[i], 16);
        values.push(v);
        i = i + 1;
    }
    proof {
        assert(as_ints(values@) =~= group_values(views));
    }
    Some(values)
}

/// The groups a colon-separated list of parts writes (see [`listed_groups`]).
fn listed_groups_exec(parts: &Vec<Vec<u8>>, allow_v4: bool) -> (groups: Option<Vec<u32>>)
    ensures
        groups is None <==> listed_groups(views_of(parts@), allow_v4) is None,
        groups matches Some(g) ==> listed_groups(views_of(parts@), allow_v4) == Some(as_ints(g@)),
{
    let ghost views = views_of(parts@);
    proof {
        assert(views.take(parts@.len() as int) =~= views);
    }
    if let Some(values) = hex_values(parts, parts.len()) {
        return Some(values);
    }
    if !allow_v4 || parts.len() == 0 {
        return None;
    }
    let last = parts.len() - 1;
    proof {
        assert(views.take(last as int) =~= views.drop_last());
        assert(views.last() == parts@[last as int]@);
        assert(parts@[last as int]@.subrange(0, parts@[last as int]@.len() as int) =~= parts@[last as int]@);
    }
    let mut values = match hex_values(parts, last) {
        Some(values) => values,
        None => {
            return None;
        },
    };
    let octets = match ipv4_exec(parts[last].as_slice(), 0, parts[last].len()) {
        Some(octets) => octets,
        None => {
            return None;
        },
    };
    let ghost head = as_ints(values@);
    values.push(octets[0] * 256 + octets[1]);
    values.push(octets[2] * 256 + octets[3]);
    proof {
        assert(as_ints(values@) =~= head + v4_groups(as_ints(octets@)));
    }
    Some(values)
}

/// Where the first `::` of `b` starts, if anywhere.
fn first_double_colon_exec(b: &[u8]) -> (at: Option<usize>)
    ensures
        at is None <==> first_double_colon(b@) is None,
        at matches Some(p) ==> first_double_colon(b@) == Some(p as int) && p + 2 <= b@.len(),
{
    let mut i: usize = 0;
    while i < b.len() && i + 1 < b.len()
        invariant
            i <= b@.len(),
            forall|j: int| 0 <= j < i ==> !double_colon_at(b@, j),
        decreases b.len() - i,
    {
        if b[i] == COLON && b[i + 1] == COLON {
            proof {
                assert(double_colon_at(b@, i as int) && forall|j: int| 0 <= j < i ==> !double_colon_at(b@, j));
                let c = choose|c: int| double_colon_at(b@, c) && forall|j: int| 0 <= j < c ==> !double_colon_at(b@, j);
                if c < i {
                    assert(!double_colon_at(b@, c));
                }
                if c > i {
                    assert(!double_colon_at(b@, i as int));
                }
                assert(c == i);
            }
            return Some(i);
        }
        i = i + 1;
    }
    proof {
        assert forall|j: int| !double_colon_at(b@, j) by {
            if 0 <= j && j < i {
            }
        }
    }
    None
}

/// The groups written on one side of `::`, `b[start..end]`.
fn side_groups_exec(b: &[u8], start: usize, end: usize, allow_v4: bool) -> (groups: Option<Vec<u32>>)
    requires
        start <= end <= b@.len(),
    ensures
        groups is None <==> side_groups(b@.subrange(start as int, end as int), allow_v4) is None,
        groups matches Some(g) ==> side_groups(b@.subrange(start as int, end as int), allow_v4) == Some(as_ints(g@)),
{
    if start == end {
        let empty: Vec<u32> = Vec::new();
        proof {
            assert(as_ints(empty@) =~= Seq::<int>::empty());
        }
        return Some(empty);
    }
    let parts = split_range(b, start, end, COLON);
    listed_groups_exec(&parts, allow_v4)
}

/// `head`, then zero groups, then `tail`: eight groups in all.
fn join_with_zeros(head: &Vec<u32>, tail: &Vec<u32>) -> (groups: Vec<u32>)
    requires
        head@.len() + tail@.len() <= 7,
    ensures
        as_ints(groups@) == as_ints(head@) + Seq::new((8 - head@.len() - tail@.len()) as nat, |k: int| 0int)
            + as_ints(tail@),
{
    let zeros = 8 - head.len() - tail.len();
    let mut groups: Vec<u32> = Vec::new();
    let mut i: usize = 0;
    while i < head.len()
        invariant
            i <= head@.len(),
            groups@ == head@.take(i as int),
        decreases head.len() - i,
    {
        groups.push(head[i]);
        proof {
            assert(head@.take(i + 1) =~= head@.take(i as int).push(head@[i as int]));
        }
        i = i + 1;
    }
    proof {
        assert(head@.take(head@.len() as int) =~= head@);
        assert(head@ + Seq::new(0, |k: int| 0u32) =~= head@);
    }
    let mut z: usize = 0;
    while z < zeros
        invariant
            z <= zeros,
            groups@ == head@ + Seq::new(z as nat, |k: int| 0u32),
        decreases zeros - z,
    {
        proof {
            assert(head@ + Seq::new((z + 1) as nat, |k: int| 0u32) =~= (head@ + Seq::new(
                z as nat,
                |k: int| 0u32,
            )).push(0u32));
        }
        groups.push(0);
        z = z + 1;
    }
    let ghost middle = groups@;
    let mut j: usize = 0;
    proof {
        assert(middle + tail@.take(0) =~= middle);
    }
    while j < tail.len()
        invariant
            j <= tail@.len(),
            groups@ == middle + tail@.take(j as int),
        decreases tail.len() - j,
    {
        groups.push(tail[j]);
        proof {
            assert(middle + tail@.take(j + 1) =~= (middle + tail@.take(j as int)).push(tail@[j as int]));
        }
        j = j + 1;
    }
    proof {
        assert(tail@.take(tail@.len() as int) =~= tail@);
        assert(as_ints(groups@) =~= as_ints(head@) + Seq::new(zeros as nat, |k: int| 0int) + as_ints(tail@));
    }
    groups
}

/// Whether eight groups are those of `::1`.
fn is_loopback_groups(g: &Vec<u32>) -> (loopback: bool)
    ensures
        loopback == (as_ints(g@) == seq![0int, 0, 0, 0, 0, 0, 0, 1]),
{
    let ghost target = seq![0int, 0, 0, 0, 0, 0, 0, 1];
    if g.len() != 8 {
        proof {
            assert(as_ints(g@).len() != target.len());
        }
        return false;
    }
    let mut i: usize = 0;
    while i < 7
        invariant
            target == seq![0int, 0, 0, 0, 0, 0, 0, 1],
            g@.len() == 8,
            i <= 7,
            forall|k: int| 0 <= k < i ==> g@[k] == 0,
        decreases 7 - i,
    {
        if g[i] != 0 {
            proof {
                assert(as_ints(g@)[i as int] != target[i as int]);
            }
            return false;
        }
        i = i + 1;
    }
    if g[7] != 1 {
        proof {
            assert(as_ints(g@)[7] != target[7]);
        }
        return false;
    }
    proof {
        assert(as_ints(g@) =~= target);
    }
    true
}

/// The groups of an IPv6 address written without `::`.
fn unelided_exec(b: &[u8]) -> (groups: Option<Vec<u32>>)
    ensures
        groups is None <==> unelided_groups(b@) is None,
        groups matches Some(g) ==> unelided_groups(b@) == Some(as_ints(g@)),
{
    proof {
        assert(b@.subrange(0, b@.len() as int) =~= b@);
    }
    let parts = split_range(b, 0, b.len(), COLON);
    match listed_groups_exec(&parts, true) {
        Some(g) => {
            if g.len() == 8 {
                Some(g)
            } else {
                None
            }
        },
        None => None,
    }
}

/// The groups of an IPv6 address written with `::` at `p`.
fn elided_exec(b: &[u8], p: usize) -> (groups: Option<Vec<u32>>)
    requires
        p + 2 <= b@.len(),
    ensures
        groups is None <==> elided_groups(b@, p as int) is None,
        groups matches Some(g) ==> elided_groups(b@, p as int) == Some(as_ints(g@)),
{
    let n = b.len();
    proof {
        assert(b@.subrange(0, p as int) =~= b@.take(p as int));
        assert(b@.subrange(p + 2, b@.len() as int) =~= b@.skip(p + 2));
    }
    let head = match side_groups_exec(b, 0, p, false) {
        Some(head) => head,
        None => {
            return None;
        },
    };
    let tail = match side_groups_exec(b, p + 2, n, true) {
        Some(tail) => tail,
        None => {
            return None;
        },
    };
    if head.len() > 7 || tail.len() > 7 - head.len() {
        return None;
    }
    Some(join_with_zeros(&head, &tail))
}

/// The eight groups of the IPv6 address that `b` writes, if any.
fn ipv6_exec(b: &[u8]) -> (groups: Option<Vec<u32>>)
    ensures
        groups is None <==> ipv6_groups(b@) is None,
        groups matches Some(g) ==> ipv6_groups(b@) == Some(as_ints(g@)),
{
    match first_double_colon_exec(b) {
        None => unelided_exec(b),
        Some(p) => elided_exec(b, p),
    }
}

/// What `text` names as an IP address (see [`ip_class`]).
pub fn classify_bind_ip(text: &str) -> (class: BindIpClass)
    ensures
        class == ip_class(text@),
{
    let b = text.as_bytes();
    proof {
        reveal(ip_class);
        assert(b@.subrange(0, b@.len() as int) =~= b@);
    }
    match ipv4_exec(b, 0, b.len()) {
        Some(octets) => {
            if octets[0] == 127 {
                BindIpClass::Loopback
            } else {
                BindIpClass::NotLoopback
            }
        },
        None => match ipv6_exec(b) {
            Some(g) => {
                if is_loopback_groups(&g) {
                    BindIpClass::Loopback
                } else {
                    BindIpClass::NotLoopback
                }
            },
            None => BindIpClass::Invalid,
        },
    }
}

} // verus!
