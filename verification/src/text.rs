//! Texts: decimal numerals, finding targets and the byte-level shape rules
//! for names, environment keys and relative paths.

use vstd::prelude::*;
use vstd::utf8::encode_utf8;

verus! {

/// `A`
pub const UPPER_A: u8 = 0x41;
/// `Z`
pub const UPPER_Z: u8 = 0x5a;
/// `a`
pub const LOWER_A: u8 = 0x61;
/// `z`
pub const LOWER_Z: u8 = 0x7a;
/// `0`
pub const DIGIT_0: u8 = 0x30;
/// `9`
pub const DIGIT_9: u8 = 0x39;
/// `.`
pub const DOT: u8 = 0x2e;
/// `_`
pub const UNDERSCORE: u8 = 0x5f;
/// `-`
pub const HYPHEN: u8 = 0x2d;
/// `/`
pub const SLASH: u8 = 0x2f;

/// The UTF-8 bytes of a text.
pub open spec fn bytes_of(s: Seq<char>) -> Seq<u8> {
    encode_utf8(s)
}

/// The decimal digit for `d < 10`.
pub open spec fn digit_char(d: nat) -> char {
    if d == 0 {
        '0'
    } else if d == 1 {
        '1'
    } else if d == 2 {
        '2'
    } else if d == 3 {
        '3'
    } else if d == 4 {
        '4'
    } else if d == 5 {
        '5'
    } else if d == 6 {
        '6'
    } else if d == 7 {
        '7'
    } else if d == 8 {
        '8'
    } else {
        '9'
    }
}

/// The decimal numeral of `n`, without leading zeros.
pub open spec fn decimal(n: nat) -> Seq<char>
    decreases n,
{
    if n < 10 {
        seq![digit_char(n)]
    } else {
        decimal(n / 10).push(digit_char(n % 10))
    }
}

/// `target.field`
pub open spec fn dotted(target: Seq<char>, field: Seq<char>) -> Seq<char> {
    target + "."@ + field
}

/// `base[index]`
pub open spec fn indexed(base: Seq<char>, index: nat) -> Seq<char> {
    base + "["@ + decimal(index) + "]"@
}

fn digit_text(d: usize) -> (text: &'static str)
    requires
        d < 10,
    ensures
        text@ == seq![digit_char(d as nat)],
{
    proof {
        reveal_strlit("0");
        reveal_strlit("1");
        reveal_strlit("2");
        reveal_strlit("3");
        reveal_strlit("4");
        reveal_strlit("5");
        reveal_strlit("6");
        reveal_strlit("7");
        reveal_strlit("8");
        reveal_strlit("9");
    }
    if d == 0 {
        "0"
    } else if d == 1 {
        "1"
    } else if d == 2 {
        "2"
    } else if d == 3 {
        "3"
    } else if d == 4 {
        "4"
    } else if d == 5 {
        "5"
    } else if d == 6 {
        "6"
    } else if d == 7 {
        "7"
    } else if d == 8 {
        "8"
    } else {
        "9"
    }
}

/// The decimal numeral of `n`.
pub fn decimal_text(n: usize) -> (text: String)
    ensures
        text@ == decimal(n as nat),
    decreases n,
{
    if n < 10 {
        digit_text(n).to_owned()
    } else {
        let mut text = decimal_text(n / 10);
        text.append(digit_text(n % 10));
        text
    }
}

/// The text `target.field`.
pub fn dotted_text(target: &str, field: &str) -> (text: String)
    ensures
        text@ == dotted(target@, field@),
{
    let mut text = target.to_owned();
    text.append(".");
    text.append(field);
    text
}

/// The text `base[index]`.
pub fn indexed_text(base: &str, index: usize) -> (text: String)
    ensures
        text@ == indexed(base@, index as nat),
{
    let mut text = base.to_owned();
    text.append("[");
    let numeral = decimal_text(index);
    text.append(numeral.as_str());
    text.append("]");
    text
}

pub open spec fn is_upper_byte(b: u8) -> bool {
    UPPER_A <= b <= UPPER_Z
}

pub open spec fn is_lower_byte(b: u8) -> bool {
    LOWER_A <= b <= LOWER_Z
}

pub open spec fn is_digit_byte(b: u8) -> bool {
    DIGIT_0 <= b <= DIGIT_9
}

/// A byte allowed in a sidecar name or runtime namespace: an ASCII letter or
/// digit, `.`, `_` or `-`.
pub open spec fn is_segment_byte(b: u8) -> bool {
    is_upper_byte(b) || is_lower_byte(b) || is_digit_byte(b) || b == DOT || b == UNDERSCORE || b == HYPHEN
}

/// A sidecar name or runtime namespace: 1 to 64 bytes, each a segment byte.
pub open spec fn valid_segment(s: Seq<char>) -> bool {
    let b = bytes_of(s);
    &&& 0 < b.len() <= 64
    &&& forall|i: int| 0 <= i < b.len() ==> is_segment_byte(#[trigger] b[i])
}

/// Which texts are names or namespaces, byte by byte: exactly those of 1
/// to 64 bytes, each an ASCII letter of either case (`A`..=`Z`,
/// `a`..=`z`), an ASCII digit, `.`, `_` or `-`.
pub proof fn lemma_segment_bytes(s: Seq<char>)
    ensures
        valid_segment(s) <==> {
            let b = bytes_of(s);
            &&& 1 <= b.len() <= 64
            &&& forall|i: int|
                0 <= i < b.len() ==> {
                    let x = #[trigger] b[i];
                    ||| 0x41 <= x <= 0x5a
                    ||| 0x61 <= x <= 0x7a
                    ||| 0x30 <= x <= 0x39
                    ||| x == 0x2e
                    ||| x == 0x5f
                    ||| x == 0x2d
                }
        },
{
}

/// An environment-variable name: at most 128 bytes, the first an ASCII
/// uppercase letter or `_`, the others ASCII uppercase letters, digits or `_`.
pub open spec fn env_key(s: Seq<char>) -> bool {
    let b = bytes_of(s);
    &&& 0 < b.len() <= 128
    &&& (is_upper_byte(b[0]) || b[0] == UNDERSCORE)
    &&& forall|i: int| 1 <= i < b.len() ==> (is_upper_byte(#[trigger] b[i]) || is_digit_byte(b[i]) || b[i] == UNDERSCORE)
}

/// A byte with ASCII lowercase letters mapped to uppercase.
pub open spec fn ascii_upper(b: u8) -> u8 {
    if is_lower_byte(b) {
        (b - 32) as u8
    } else {
        b
    }
}

/// The bytes with ASCII lowercase letters mapped to uppercase.
pub open spec fn upper_bytes(b: Seq<u8>) -> Seq<u8> {
    b.map_values(|x: u8| ascii_upper(x))
}

/// `needle` occurs in `hay` at position `i`.
pub open spec fn occurs_at(hay: Seq<u8>, needle: Seq<u8>, i: int) -> bool {
    0 <= i && i + needle.len() <= hay.len() && hay.subrange(i, i + needle.len()) == needle
}

/// `needle` occurs somewhere in `hay`.
pub open spec fn contains_bytes(hay: Seq<u8>, needle: Seq<u8>) -> bool {
    exists|i: int| occurs_at(hay, needle, i)
}

/// A runtime key naming secret-bearing configuration: its ASCII-uppercased
/// bytes contain `SECRET`, `TOKEN`, `PASSWORD`, `PRIVATE_KEY`, `DATABASE_URL`
/// or `CREDENTIAL`.
pub open spec fn sensitive_key(s: Seq<char>) -> bool {
    let u = upper_bytes(bytes_of(s));
    ||| contains_bytes(u, bytes_of("SECRET"@))
    ||| contains_bytes(u, bytes_of("TOKEN"@))
    ||| contains_bytes(u, bytes_of("PASSWORD"@))
    ||| contains_bytes(u, bytes_of("PRIVATE_KEY"@))
    ||| contains_bytes(u, bytes_of("DATABASE_URL"@))
    ||| contains_bytes(u, bytes_of("CREDENTIAL"@))
}

/// A `..` path component starts at byte `i`: two dots between separators
/// or the ends of the path.
pub open spec fn parent_component_at(b: Seq<u8>, i: int) -> bool {
    &&& 0 <= i
    &&& i + 2 <= b.len()
    &&& b[i] == DOT
    &&& b[i + 1] == DOT
    &&& (i == 0 || b[i - 1] == SLASH)
    &&& (i + 2 == b.len() || b[i + 2] == SLASH)
}

/// A bounded repository-relative path: 1 to 256 bytes, not rooted (no
/// leading `/`), with no `..` component. Paths are read by Unix rules: `/`
/// is the only separator and there are no drive or share prefixes, as the
/// standard library reads them on Unix targets.
pub open spec fn safe_relative_path(s: Seq<char>) -> bool {
    let b = bytes_of(s);
    &&& 0 < b.len() <= 256
    &&& b[0] != SLASH
    &&& !exists|i: int| parent_component_at(b, i)
}

fn is_upper(b: u8) -> (r: bool)
    ensures
        r == is_upper_byte(b),
{
    UPPER_A <= b && b <= UPPER_Z
}

fn is_lower(b: u8) -> (r: bool)
    ensures
        r == is_lower_byte(b),
{
    LOWER_A <= b && b <= LOWER_Z
}

fn is_digit(b: u8) -> (r: bool)
    ensures
        r == is_digit_byte(b),
{
    DIGIT_0 <= b && b <= DIGIT_9
}

/// Whether `value` is a valid sidecar name or runtime namespace.
pub fn is_segment(value: &str) -> (valid: bool)
    ensures
        valid == valid_segment(value@),
{
    let b = value.as_bytes();
    if b.len() == 0 || b.len() > 64 {
        return false;
    }
    let mut i: usize = 0;
    while i < b.len()
        invariant
            b@ == bytes_of(value@),
            i <= b.len(),
            forall|j: int| 0 <= j < i ==> is_segment_byte(#[trigger] b@[j]),
        decreases b.len() - i,
    {
        let x = b[i];
        if !(is_upper(x) || is_lower(x) || is_digit(x) || x == DOT || x == UNDERSCORE || x == HYPHEN) {
            return false;
        }
        i = i + 1;
    }
    true
}

/// Whether `value` is an environment-variable name of at most 128 bytes,
/// made of ASCII uppercase letters, digits and `_`, not starting with a digit.
pub fn is_env_key(value: &str) -> (valid: bool)
    ensures
        valid == env_key(value@),
{
    let b = value.as_bytes();
    if b.len() == 0 {
        return false;
    }
    if !(is_upper(b[0]) || b[0] == UNDERSCORE) || b.len() > 128 {
        return false;
    }
    let mut i: usize = 1;
    while i < b.len()
        invariant
            b@ == bytes_of(value@),
            1 <= i <= b.len(),
            forall|j: int| 1 <= j < i ==> (is_upper_byte(#[trigger] b@[j]) || is_digit_byte(b@[j]) || b@[j] == UNDERSCORE),
        decreases b.len() - i,
    {
        let x = b[i];
        if !(is_upper(x) || is_digit(x) || x == UNDERSCORE) {
            return false;
        }
        i = i + 1;
    }
    true
}

fn upper_copy(b: &[u8]) -> (u: Vec<u8>)
    ensures
        u@ == upper_bytes(b@),
{
    let mut u: Vec<u8> = Vec::new();
    let mut i: usize = 0;
    while i < b.len()
        invariant
            i <= b.len(),
            u@ == upper_bytes(b@.take(i as int)),
        decreases b.len() - i,
    {
        let x = b[i];
        let y = if is_lower(x) { x - 32 } else { x };
        u.push(y);
        proof {
            assert(upper_bytes(b@.take(i + 1)) =~= upper_bytes(b@.take(i as int)).push(y));
        }
        i = i + 1;
    }
    proof {
        assert(b@.take(i as int) =~= b@);
    }
    u
}

fn occurs_at_exec(hay: &Vec<u8>, needle: &[u8], i: usize) -> (r: bool)
    requires
        i + needle@.len() <= hay@.len(),
    ensures
        r == occurs_at(hay@, needle@, i as int),
{
    let hay_len = hay.len();
    let mut j: usize = 0;
    while j < needle.len()
        invariant
            hay_len == hay@.len(),
            i + needle@.len() <= hay@.len(),
            j <= needle@.len(),
            forall|k: int| 0 <= k < j ==> hay@[i + k] == needle@[k],
        decreases needle.len() - j,
    {
        assert(i + j < hay_len);
        if hay[i + j] != needle[j] {
            proof {
                assert(hay@.subrange(i as int, i + needle@.len())[j as int] != needle@[j as int]);
            }
            return false;
        }
        j = j + 1;
    }
    proof {
        assert(hay@.subrange(i as int, i + needle@.len()) =~= needle@);
    }
    true
}

fn contains_exec(hay: &Vec<u8>, needle: &[u8]) -> (r: bool)
    ensures
        r == contains_bytes(hay@, needle@),
{
    if needle.len() > hay.len() {
        proof {
            assert forall|i: int| !occurs_at(hay@, needle@, i) by {}
        }
        return false;
    }
    if needle.len() == 0 {
        proof {
            assert(hay@.subrange(0, 0) =~= needle@);
            assert(occurs_at(hay@, needle@, 0));
        }
        return true;
    }
    let hay_len = hay.len();
    let last = hay_len - needle.len();
    let mut i: usize = 0;
    while i <= last
        invariant
            hay_len == hay@.len(),
            needle@.len() > 0,
            last == hay@.len() - needle@.len(),
            i <= last + 1,
            forall|k: int| 0 <= k < i ==> !occurs_at(hay@, needle@, k),
        decreases last + 1 - i,
    {
        if occurs_at_exec(hay, needle, i) {
            return true;
        }
        i = i + 1;
    }
    proof {
        assert forall|k: int| !occurs_at(hay@, needle@, k) by {
            if 0 <= k && k < i {
            }
        }
    }
    false
}

/// Whether `key` names secret-bearing configuration: its ASCII uppercase
/// form contains `SECRET`, `TOKEN`, `PASSWORD`, `PRIVATE_KEY`,
/// `DATABASE_URL` or `CREDENTIAL`.
pub fn is_sensitive_runtime_key(key: &str) -> (sensitive: bool)
    ensures
        sensitive == sensitive_key(key@),
{
    let upper = upper_copy(key.as_bytes());
    contains_exec(&upper, "SECRET".as_bytes())
        || contains_exec(&upper, "TOKEN".as_bytes())
        || contains_exec(&upper, "PASSWORD".as_bytes())
        || contains_exec(&upper, "PRIVATE_KEY".as_bytes())
        || contains_exec(&upper, "DATABASE_URL".as_bytes())
        || contains_exec(&upper, "CREDENTIAL".as_bytes())
}

/// Whether `value` is a bounded repository-relative path: 1 to 256 bytes,
/// not starting at the root, with no `..` component.
pub fn is_safe_relative_path(value: &str) -> (safe: bool)
    ensures
        safe == safe_relative_path(value@),
{
    let b = value.as_bytes();
    if b.len() == 0 || b.len() > 256 || b[0] == SLASH {
        return false;
    }
    let mut i: usize = 0;
    while i < b.len()
        invariant
            b@ == bytes_of(value@),
            0 < b@.len() <= 256,
            b@[0] != SLASH,
            i <= b.len(),
            forall|k: int| 0 <= k < i ==> !parent_component_at(b@, k),
        decreases b.len() - i,
    {
        if i + 2 <= b.len() && b[i] == DOT && b[i + 1] == DOT && (i == 0 || b[i - 1] == SLASH)
            && (i + 2 == b.len() || b[i + 2] == SLASH) {
            proof {
                assert(parent_component_at(b@, i as int));
            }
            return false;
        }
        i = i + 1;
    }
    proof {
        assert forall|k: int| !parent_component_at(b@, k) by {
            if 0 <= k && k < i {
            }
        }
    }
    true
}

} // verus!
