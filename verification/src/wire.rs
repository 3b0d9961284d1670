//! Little-endian integers and hexadecimal keys.

use crate::text::{chars_of, is_space, lemma_trimmed_between, trim, trimmed};
use vstd::prelude::*;
use vstd::utf8::encode_utf8;

verus! {

/// The `n` least significant bytes of `x`, least significant first.
pub open spec fn le(x: nat, n: nat) -> Seq<u8>
    decreases n,
{
    if n == 0 {
        Seq::empty()
    } else {
        seq![(x % 256) as u8] + le(x / 256, (n - 1) as nat)
    }
}

/// The number that bytes denote, least significant first.
pub open spec fn le_value(s: Seq<u8>) -> nat
    decreases s.len(),
{
    if s.len() == 0 {
        0
    } else {
        s[0] as nat + 256 * le_value(s.skip(1))
    }
}

pub open spec fn pow256(n: nat) -> nat
    decreases n,
{
    if n == 0 {
        1
    } else {
        256 * pow256((n - 1) as nat)
    }
}

pub proof fn lemma_le_len(x: nat, n: nat)
    ensures
        le(x, n).len() == n,
    decreases n,
{
    if n > 0 {
        lemma_le_len(x / 256, (n - 1) as nat);
    }
}

/// Reading the bytes of a number gives the number back.
pub proof fn lemma_le_roundtrip(x: nat, n: nat)
    requires
        x < pow256(n),
    ensures
        le_value(le(x, n)) == x,
        le(x, n).len() == n,
    decreases n,
{
    if n > 0 {
        lemma_le_roundtrip(x / 256, (n - 1) as nat);
        assert(le(x, n).skip(1) =~= le(x / 256, (n - 1) as nat));
    }
}

/// Writing the number that bytes denote gives the bytes back.
pub proof fn lemma_le_value_roundtrip(s: Seq<u8>)
    ensures
        le(le_value(s), s.len()) == s,
        le_value(s) < pow256(s.len()),
    decreases s.len(),
{
    if s.len() > 0 {
        lemma_le_value_roundtrip(s.skip(1));
        assert((s[0] as nat + 256 * le_value(s.skip(1))) / 256 == le_value(s.skip(1)));
        assert(le(le_value(s), s.len()) =~= s);
    }
}

pub proof fn lemma_pow256()
    ensures
        pow256(4) == 0x1_0000_0000,
        pow256(8) == 0x1_0000_0000_0000_0000,
{
    reveal_with_fuel(pow256, 9);
}

fn push_le(out: &mut Vec<u8>, v: u64, n: usize)
    ensures
        final(out)@ == old(out)@ + le(v as nat, n as nat),
{
    let mut x: u64 = v;
    let mut i: usize = 0;
    assert(out@ + le(v as nat, n as nat) =~= old(out)@ + le(v as nat, n as nat));
    while i < n
        invariant
            i <= n,
            out@ + le(x as nat, (n - i) as nat) =~= old(out)@ + le(v as nat, n as nat),
        decreases n - i,
    {
        let ghost was = out@;
        let ghost y = x;
        out.push((x % 256) as u8);
        x = x / 256;
        i += 1;
        assert(was + le(y as nat, (n - i + 1) as nat) =~= out@ + le(x as nat, (n - i) as nat));
    }
    assert(out@ =~= out@ + le(x as nat, 0));
}

/// Appends a `u32`, least significant byte first.
pub fn write_u32(w: &mut Vec<u8>, v: u32)
    ensures
        final(w)@ == old(w)@ + le(v as nat, 4),
{
    push_le(w, v as u64, 4);
}

/// Appends a `u64`, least significant byte first.
pub fn write_u64(w: &mut Vec<u8>, v: u64)
    ensures
        final(w)@ == old(w)@ + le(v as nat, 8),
{
    push_le(w, v, 8);
}

fn read_le(r: &[u8], at: usize, n: usize) -> (v: u64)
    requires
        at + n <= r@.len(),
        n <= 8,
    ensures
        v == le_value(r@.subrange(at as int, at + n)),
{
    let mut acc: u64 = 0;
    let mut i: usize = n;
    assert(r@.subrange(at + n, at + n) =~= Seq::empty());
    while i > 0
        invariant
            at + n <= r.len(),
            i <= n <= 8,
            acc == le_value(r@.subrange(at + i, at + n)),
        decreases i,
    {
        proof {
            let t = r@.subrange(at + i, at + n);
            lemma_le_value_roundtrip(t);
            lemma_pow256_grows(t.len(), 7);
            let s = r@.subrange(at + i - 1, at + n);
            assert(s.skip(1) =~= t);
            assert(pow256(7) * 256 == 0x1_0000_0000_0000_0000) by {
                lemma_pow256();
            }
        }
        acc = acc * 256 + r[at + i - 1] as u64;
        i -= 1;
    }
    acc
}

proof fn lemma_pow256_grows(a: nat, b: nat)
    requires
        a <= b,
    ensures
        pow256(a) <= pow256(b),
    decreases b,
{
    if a < b {
        lemma_pow256_grows(a, (b - 1) as nat);
    }
}

/// The `u32` whose bytes start at index `at`, if four bytes stand there.
pub fn read_u32(r: &[u8], at: usize) -> (v: Option<u32>)
    ensures
        v is Some <==> at + 4 <= r@.len(),
        v matches Some(x) ==> x == le_value(r@.subrange(at as int, at + 4)),
{
    if at > r.len() || r.len() - at < 4 {
        return None;
    }
    proof {
        lemma_le_value_roundtrip(r@.subrange(at as int, at + 4));
        lemma_pow256();
    }
    Some(read_le(r, at, 4) as u32)
}

/// The `u64` whose bytes start at index `at`, if eight bytes stand there.
pub fn read_u64(r: &[u8], at: usize) -> (v: Option<u64>)
    ensures
        v is Some <==> at + 8 <= r@.len(),
        v matches Some(x) ==> x == le_value(r@.subrange(at as int, at + 8)),
{
    if at > r.len() || r.len() - at < 8 {
        return None;
    }
    Some(read_le(r, at, 8))
}

/// Compares two byte strings.
pub fn same_bytes(a: &[u8], b: &[u8]) -> (r: bool)
    ensures
        r == (a@ == b@),
{
    if a.len() != b.len() {
        return false;
    }
    let mut i: usize = 0;
    while i < a.len()
        invariant
            i <= a@.len(),
            a@.len() == b@.len(),
            forall|k: int| 0 <= k < i ==> a@[k] == b@[k],
        decreases a.len() - i,
    {
        if a[i] != b[i] {
            return false;
        }
        i += 1;
    }
    assert(a@ =~= b@);
    true
}

/// The lower-case hexadecimal digit `d`.
pub open spec fn hex_digit(d: u8) -> char {
    if d < 10 {
        (48 + d) as char
    } else {
        (87 + d) as char
    }
}

/// Two lower-case hexadecimal digits per byte.
pub open spec fn hex_text(b: Seq<u8>) -> Seq<char> {
    Seq::new(
        2 * b.len(),
        |k: int|
            if k % 2 == 0 {
                hex_digit(b[k / 2] / 16)
            } else {
                hex_digit(b[k / 2] % 16)
            },
    )
}

fn hex_char(d: u8) -> (c: char)
    requires
        d < 16,
    ensures
        c == hex_digit(d),
{
    if d < 10 {
        (48 + d) as char
    } else {
        (87 + d) as char
    }
}

/// Hexadecimal notation of bytes.
pub fn hex(b: &[u8]) -> (r: String)
    ensures
        r@ == hex_text(b@),
{
    let mut r: String = String::new();
    let mut i: usize = 0;
    while i < b.len()
        invariant
            i <= b@.len(),
            r@ =~= hex_text(b@.take(i as int)),
        decreases b.len() - i,
    {
        let x: u8 = b[i];
        let ghost was = r@;
        r.push(hex_char(x / 16));
        r.push(hex_char(x % 16));
        i += 1;
        proof {
            let t = hex_text(b@.take(i as int));
            assert forall|k: int| 0 <= k < t.len() implies r@[k] == t[k] by {
                if k < 2 * (i - 1) {
                    assert(was[k] == hex_text(b@.take(i - 1))[k]);
                }
            }
        }
    }
    assert(b@.take(b@.len() as int) =~= b@);
    r
}

/// Value of one hexadecimal digit of either case.
pub open spec fn hex_value(c: char) -> Option<u8> {
    let n = c as u32;
    if 48 <= n <= 57 {
        Some((n - 48) as u8)
    } else if 97 <= n <= 102 {
        Some((n - 87) as u8)
    } else if 65 <= n <= 70 {
        Some((n - 55) as u8)
    } else {
        None
    }
}

/// Value of two hexadecimal digits.
pub open spec fn hex_pair(a: char, b: char) -> Option<u8> {
    match (hex_value(a), hex_value(b)) {
        (Some(x), Some(y)) => Some((x * 16 + y) as u8),
        _ => None,
    }
}

/// The notation of a key: 64 hexadecimal digits of either case.
pub open spec fn is_key_text(t: Seq<char>) -> bool {
    t.len() == 64 && forall|i: int| 0 <= i < 64 ==> hex_value(#[trigger] t[i]) is Some
}

/// The bytes that a key in its notation stands for.
pub open spec fn key_bytes(t: Seq<char>) -> Seq<u8> {
    Seq::new(32, |i: int| hex_pair(t[2 * i], t[2 * i + 1])->0)
}

/// A key as text, with white space allowed around it.
pub open spec fn key_of(s: Seq<char>) -> Result<Seq<u8>, Seq<char>> {
    let t = trimmed(s);
    if encode_utf8(t).len() != 64 {
        Err("key must be 64 hex chars (32 bytes)"@)
    } else if is_key_text(t) {
        Ok(key_bytes(t))
    } else {
        Err("bad key hex"@)
    }
}

/// A character with an ASCII capital letter made small.
pub open spec fn lower(c: char) -> char {
    if 65 <= c as u32 <= 90 {
        (c as u32 + 32) as char
    } else {
        c
    }
}

/// A text with its ASCII capital letters made small.
pub open spec fn lowered(s: Seq<char>) -> Seq<char> {
    s.map_values(|c: char| lower(c))
}

fn hex_digit_value(c: char) -> (r: Option<u8>)
    ensures
        r == hex_value(c),
        r matches Some(x) ==> x < 16,
{
    let n: u32 = c as u32;
    if 48 <= n && n <= 57 {
        Some((n - 48) as u8)
    } else if 97 <= n && n <= 102 {
        Some((n - 87) as u8)
    } else if 65 <= n && n <= 70 {
        Some((n - 55) as u8)
    } else {
        None
    }
}

fn hex_pair_value(a: char, b: char) -> (r: Option<u8>)
    ensures
        r == hex_pair(a, b),
{
    match (hex_digit_value(a), hex_digit_value(b)) {
        (Some(x), Some(y)) => Some(x * 16 + y),
        _ => None,
    }
}

/// Reads a 32-byte key from its hexadecimal notation.
pub fn parse_key(s: &str) -> (r: Result<[u8; 32], String>)
    ensures
        match r {
            Ok(k) => key_of(s@) == Ok::<Seq<u8>, Seq<char>>(k@),
            Err(e) => key_of(s@) == Err::<Seq<u8>, Seq<char>>(e@),
        },
        r is Ok <==> is_key_text(trimmed(s@)),
        r matches Ok(k) ==> hex_text(k@) == lowered(trimmed(s@)),
{
    let t: &str = trim(s);
    proof {
        if is_key_text(t@) {
            lemma_key_text(t@);
        }
    }
    if t.as_bytes().len() != 64 {
        return Err("key must be 64 hex chars (32 bytes)".to_owned());
    }
    let v: Vec<char> = chars_of(t);
    if v.len() != 64 {
        return Err("bad key hex".to_owned());
    }
    let mut out: [u8; 32] = [0;32];
    let mut i: usize = 0;
    while i < 32
        invariant
            i <= 32,
            v@ == t@,
            t@ == trimmed(s@),
            encode_utf8(t@).len() == 64,
            v.len() == 64,
            forall|k: int| 0 <= k < 2 * i ==> hex_value(#[trigger] t@[k]) is Some,
            forall|k: int| 0 <= k < i ==> #[trigger] out@[k] == hex_pair(t@[2 * k], t@[2 * k + 1])->0,
        decreases 32 - i,
    {
        match hex_pair_value(v[2 * i], v[2 * i + 1]) {
            Some(x) => {
                out[i] = x;
            },
            None => {
                assert(hex_value(t@[2 * i]) is None || hex_value(t@[2 * i + 1]) is None);
                return Err("bad key hex".to_owned());
            },
        }
        i += 1;
    }
    assert(out@ =~= key_bytes(t@));
    Ok(out)
}

/// What holds of the notation of a key: its bytes are written in the same
/// digits, but for their case.
pub proof fn lemma_key_text(t: Seq<char>)
    requires
        is_key_text(t),
    ensures
        encode_utf8(t).len() == 64,
        hex_text(key_bytes(t)) == lowered(t),
{
    let k = key_bytes(t);
    assert forall|i: int| 0 <= i < 64 implies '\0' <= #[trigger] t[i] <= '\u{7f}' by {
        lemma_hex_value(t[i]);
    }
    vstd::utf8::is_ascii_chars_encode_utf8(t);
    assert forall|i: int| 0 <= i < 64 implies hex_text(k)[i] == #[trigger] lowered(t)[i] by {
        let j = i / 2;
        assert(hex_value(t[2 * j]) is Some && hex_value(t[2 * j + 1]) is Some);
        lemma_hex_value(t[2 * j]);
        lemma_hex_value(t[2 * j + 1]);
        assert(i == 2 * j || i == 2 * j + 1);
    }
    assert(hex_text(k) =~= lowered(t));
}

proof fn lemma_hex_value(c: char)
    requires
        hex_value(c) is Some,
    ensures
        hex_value(c)->0 < 16,
        hex_digit(hex_value(c)->0) == lower(c),
        '\0' <= c <= '\u{7f}',
        !is_space(c),
{
}

proof fn lemma_hex_digit(d: u8)
    requires
        d < 16,
    ensures
        hex_value(hex_digit(d)) == Some(d),
        hex_digit(d) as u32 <= 57 || hex_digit(d) as u32 >= 97,
        !is_space(hex_digit(d)),
        (hex_digit(d) as u32) < 128,
{
}

/// The notation of bytes holds no white space.
pub proof fn lemma_hex_plain(b: Seq<u8>)
    ensures
        hex_text(b).len() == 2 * b.len(),
        forall|i: int| 0 <= i < hex_text(b).len() ==> !is_space(#[trigger] hex_text(b)[i]),
{
    assert forall|i: int| 0 <= i < hex_text(b).len() implies !is_space(
        #[trigger] hex_text(b)[i],
    ) by {
        lemma_hex_digit(b[i / 2] / 16);
        lemma_hex_digit(b[i / 2] % 16);
    }
}

/// Reading the notation of a key gives the key back.
pub proof fn lemma_key_roundtrip(k: Seq<u8>)
    requires
        k.len() == 32,
    ensures
        key_of(hex_text(k)) == Ok::<Seq<u8>, Seq<char>>(k),
{
    let h = hex_text(k);
    assert forall|i: int| 0 <= i < 64 implies !is_space(#[trigger] h[i]) && (h[i] as u32) < 128 by {
        lemma_hex_digit(k[i / 2] / 16);
        lemma_hex_digit(k[i / 2] % 16);
    }
    assert(!is_space(h[0]) && !is_space(h[63]));
    assert(trimmed(h) =~= h);
    vstd::utf8::is_ascii_chars_encode_utf8(h);
    assert forall|i: int| 0 <= i < 64 implies hex_value(#[trigger] h[i]) is Some by {
        lemma_hex_digit(k[i / 2] / 16);
        lemma_hex_digit(k[i / 2] % 16);
    }
    assert forall|i: int| 0 <= i < 32 implies #[trigger] key_bytes(h)[i] == k[i] by {
        lemma_hex_digit(k[i] / 16);
        lemma_hex_digit(k[i] % 16);
    }
    assert(key_bytes(h) =~= k);
}

/// A key is read back from its notation in capital or small letters, or both,
/// with white space before and after it or without.
pub proof fn lemma_key_any_case(k: Seq<u8>, before: Seq<char>, t: Seq<char>, after: Seq<char>)
    requires
        k.len() == 32,
        lowered(t) == hex_text(k),
        forall|i: int| 0 <= i < before.len() ==> is_space(#[trigger] before[i]),
        forall|i: int| 0 <= i < after.len() ==> is_space(#[trigger] after[i]),
    ensures
        key_of(before + t + after) == Ok::<Seq<u8>, Seq<char>>(k),
{
    lemma_same_digits(k, t);
    lemma_key_text(t);
    lemma_hex_value(t[0]);
    lemma_hex_value(t[63]);
    lemma_trimmed_between(before, t, after);
}

proof fn lemma_same_digits(k: Seq<u8>, t: Seq<char>)
    requires
        k.len() == 32,
        lowered(t) == hex_text(k),
    ensures
        is_key_text(t),
        key_bytes(t) == k,
{
    let h = hex_text(k);
    assert(lowered(t).len() == t.len());
    assert forall|i: int| 0 <= i < 64 implies hex_value(#[trigger] t[i]) == hex_value(h[i])
        && hex_value(h[i]) is Some by {
        assert(lowered(t)[i] == lower(t[i]));
        lemma_hex_digit(k[i / 2] / 16);
        lemma_hex_digit(k[i / 2] % 16);
        lemma_lower_hex(t[i], h[i]);
    }
    assert forall|i: int| 0 <= i < 32 implies #[trigger] key_bytes(t)[i] == k[i] by {
        assert(hex_value(t[2 * i]) == hex_value(h[2 * i]));
        assert(hex_value(t[2 * i + 1]) == hex_value(h[2 * i + 1]));
        lemma_hex_digit(k[i] / 16);
        lemma_hex_digit(k[i] % 16);
    }
    assert(key_bytes(t) =~= k);
}

proof fn lemma_lower_hex(c: char, d: char)
    requires
        lower(c) == d,
        hex_value(d) is Some,
        d as u32 <= 57 || d as u32 >= 97,
    ensures
        hex_value(c) == hex_value(d),
{
}

} // verus!
