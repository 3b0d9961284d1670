//! The bytes on the wire, told by their places, and what each side accepts.

use crate::address::{listen_parts, Ip};
use crate::control::{
    field_refusal, fixed_bytes, flag_word, flags_in, is_plan, magic, opt_bytes, private_bytes,
    reading, resume_bytes, resume_end, tail_bytes, Announcement, Control, Reading, SinkSide,
    SourcePlan,
};
use crate::crypto::{blake3_keyed, chacha_open, chacha_seal, nonce_bytes, sid_tag, CONTROL_COUNTER};
use crate::payload::{min_nat, received, sent, CHUNK};
use crate::ranges::{is_split, lemma_ranges_end_to_end, lemma_ranges_even, range_of, range_start};
use crate::session::{clear_refusal, connect_refusal, listen_refusal};
use crate::streams::{hello, hello_refusal};
use crate::text::{dec, trimmed};
use crate::wire::{
    hex_digit, hex_text, hex_value, is_key_text, key_of, le, le_value, lemma_key_text,
    lemma_le_len, lemma_le_roundtrip, lemma_le_value_roundtrip, lemma_pow256, lower, pow256,
};
use vstd::prelude::*;

verus! {

/// A number of four bytes goes out with its least significant byte first.
pub proof fn lemma_four_bytes(x: u32)
    ensures
        le(x as nat, 4).len() == 4,
        le(x as nat, 4)[0] == x % 256,
        le(x as nat, 4)[1] == x / 256 % 256,
        le(x as nat, 4)[2] == x / 65536 % 256,
        le(x as nat, 4)[3] == x / 16777216 % 256,
{
    reveal_with_fuel(le, 5);
    lemma_le_len(x as nat, 4);
}

/// A number of eight bytes goes out as two of four bytes, the lower one first.
pub proof fn lemma_eight_bytes(x: u64)
    ensures
        le(x as nat, 8) == le((x % 0x1_0000_0000) as nat, 4) + le((x / 0x1_0000_0000) as nat, 4),
{
    let lo = (x % 0x1_0000_0000) as nat;
    let hi = (x / 0x1_0000_0000) as nat;
    lemma_le_split(x as nat, 4, 4);
    lemma_pow256();
    lemma_le_low(x as nat, 4);
}

proof fn lemma_le_split(x: nat, a: nat, b: nat)
    ensures
        le(x, a + b) == le(x, a) + le(x / pow256(a), b),
    decreases a,
{
    let p = pow256(a);
    if a == 0 {
        assert(x / 1 == x);
        assert(le(x, 0) + le(x, b) =~= le(x, b));
    } else {
        let q = pow256((a - 1) as nat);
        lemma_le_split(x / 256, (a - 1) as nat, b);
        lemma_pow_positive((a - 1) as nat);
        assert(x / (256 * q) == (x / 256) / q) by {
            vstd::arithmetic::div_mod::lemma_div_denominator(x as int, 256, q as int);
        }
        let one = seq![(x % 256) as u8];
        assert(one + (le(x / 256, (a - 1) as nat) + le((x / 256) / q, b)) =~= one + le(
            x / 256,
            (a - 1) as nat,
        ) + le((x / 256) / q, b));
        assert((a + b - 1) as nat == (a - 1) as nat + b);
    }
}

proof fn lemma_pow_positive(n: nat)
    ensures
        pow256(n) > 0,
    decreases n,
{
    if n > 0 {
        lemma_pow_positive((n - 1) as nat);
    }
}

/// The first bytes of a number are those of its remainder.
proof fn lemma_le_low(x: nat, n: nat)
    ensures
        le(x, n) == le(x % pow256(n), n),
    decreases n,
{
    if n > 0 {
        let q = pow256((n - 1) as nat);
        lemma_pow_positive((n - 1) as nat);
        lemma_le_low(x / 256, (n - 1) as nat);
        assert((x % (256 * q)) / 256 == (x / 256) % q && (x % (256 * q)) % 256 == x % 256) by {
            vstd::arithmetic::div_mod::lemma_mod_breakdown(x as int, 256, q as int);
            let m = 256 * ((x / 256) % q) + x % 256;
            assert(x % (256 * q) == m);
            assert(m / 256 == (x / 256) % q);
            assert(m % 256 == x % 256);
        }
    }
}

/// Hexadecimal notation has two digits for each byte, the upper one first.
pub proof fn lemma_hex_places(b: Seq<u8>, i: int)
    requires
        0 <= i < b.len(),
    ensures
        hex_text(b).len() == 2 * b.len(),
        hex_text(b)[2 * i] == "0123456789abcdef"@[b[i] as int / 16],
        hex_text(b)[2 * i + 1] == "0123456789abcdef"@[b[i] as int % 16],
{
    lemma_hex_letters((b[i] / 16) as u8);
    lemma_hex_letters((b[i] % 16) as u8);
}

proof fn lemma_hex_letters(d: u8)
    requires
        d < 16,
    ensures
        hex_digit(d) == "0123456789abcdef"@[d as int],
{
    reveal_strlit("0123456789abcdef");
}

proof fn lemma_hex_range(c: char)
    ensures
        hex_value(c) is Some <==> '0' <= c <= '9' || 'a' <= c <= 'f' || 'A' <= c <= 'F',
{
}

proof fn lemma_lower(c: char)
    ensures
        'A' <= c <= 'Z' ==> lower(c) as u32 == c as u32 + 32,
        !('A' <= c <= 'Z') ==> lower(c) == c,
{
}

/// A key is read if and only if, without the white space around it, it has 64
/// characters and each is a hexadecimal digit of either case.
pub proof fn lemma_key_read(s: Seq<char>)
    ensures
        key_of(s) is Ok <==> trimmed(s).len() == 64 && forall|i: int|
            0 <= i < 64 ==> '0' <= #[trigger] trimmed(s)[i] <= '9' || 'a' <= trimmed(s)[i] <= 'f'
                || 'A' <= trimmed(s)[i] <= 'F',
        key_of(s) matches Ok(k) ==> k.len() == 32 && hex_text(k) == trimmed(s).map_values(
            |c: char| lower(c),
        ),
        forall|c: char| 'A' <= c <= 'Z' ==> #[trigger] lower(c) as u32 == c as u32 + 32,
        forall|c: char| !('A' <= c <= 'Z') ==> #[trigger] lower(c) == c,
{
    let t = trimmed(s);
    assert forall|c: char| 'A' <= c <= 'Z' implies #[trigger] lower(c) as u32 == c as u32 + 32 by {
        lemma_lower(c);
    }
    assert forall|c: char| !('A' <= c <= 'Z') implies #[trigger] lower(c) == c by {
        lemma_lower(c);
    }
    assert forall|i: int| 0 <= i < t.len() implies (hex_value(#[trigger] t[i]) is Some <==> '0'
        <= t[i] <= '9' || 'a' <= t[i] <= 'f' || 'A' <= t[i] <= 'F') by {
        lemma_hex_range(t[i]);
    }
    if is_key_text(t) {
        lemma_key_text(t);
    }
    if t.len() == 64 && forall|i: int|
        0 <= i < 64 ==> '0' <= #[trigger] t[i] <= '9' || 'a' <= t[i] <= 'f' || 'A' <= t[i] <= 'F' {
        assert forall|i: int| 0 <= i < 64 implies hex_value(#[trigger] t[i]) is Some by {
            lemma_hex_range(t[i]);
        }
        assert(is_key_text(t));
    }
}

/// A nonce is the number of the stream and the counter, in four and in eight
/// bytes, and the private fields of a header have the largest counter.
pub proof fn lemma_nonce_places(id: u32, counter: u64)
    ensures
        nonce_bytes(id, counter) == le(id as nat, 4) + le(counter as nat, 8),
        nonce_bytes(id, counter).len() == 12,
        CONTROL_COUNTER == 0xffff_ffff_ffff_ffff,
{
    lemma_le_len(id as nat, 4);
    lemma_le_len(counter as nat, 8);
}

/// The tag of a stream is made of the first 16 bytes of the keyed hash of `SID`,
/// a zero byte and the number of the stream.
pub proof fn lemma_tag_places(psk: Seq<u8>, id: u32)
    ensures
        sid_tag(psk, id) == blake3_keyed(psk, seq![83u8, 73, 68, 0] + le(id as nat, 4)).take(16),
{
}

/// A dialer sends the number of the stream, and behind it the tag if there is a
/// key, and nothing else.
pub proof fn lemma_hello_places(id: u32, psk: Option<&[u8; 32]>)
    ensures
        psk is None ==> hello(id, psk) == le(id as nat, 4),
        psk matches Some(k) ==> hello(id, psk) == le(id as nat, 4) + blake3_keyed(
            k@,
            seq![83u8, 73, 68, 0] + le(id as nat, 4),
        ).take(16),
{
    assert(le(id as nat, 4) + Seq::<u8>::empty() =~= le(id as nat, 4));
}

/// A connection is placed if and only if its stream is one of the transfer and
/// has none yet, and its tag is right where there is a key.
pub proof fn lemma_hello_accepted<T>(
    slots: Seq<Option<T>>,
    role: Seq<char>,
    id: u32,
    tag: Seq<u8>,
    psk: Option<&[u8; 32]>,
)
    ensures
        hello_refusal(slots, role, id, tag, psk) is None <==> id < slots.len() && slots[id as int]
            is None && (psk matches Some(k) ==> tag == blake3_keyed(
            k@,
            seq![83u8, 73, 68, 0] + le(id as nat, 4),
        ).take(16)),
{
}

/// The ranges of a transfer: one for each stream, the first from the offset at
/// which the transfer starts, each from where the one before it ends, the last to
/// the end of the file, and no two differ by more than a byte in length.
pub proof fn lemma_split_places(r: Seq<(u64, u64)>, size: nat, n: nat, shift: nat)
    requires
        is_split(r, size, n, shift),
        n > 0,
    ensures
        r.len() == n,
        r[0].0 == shift,
        r[n - 1].1 == shift + size,
        forall|i: int| 0 <= i < n ==> (#[trigger] r[i]).0 <= r[i].1,
        forall|i: int| 0 < i < n ==> (#[trigger] r[i]).0 == r[i - 1].1,
        forall|i: int, j: int|
            0 <= i < n && 0 <= j < n ==> (#[trigger] r[i]).1 - r[i].0 <= (#[trigger] r[j]).1
                - r[j].0 + 1,
{
    lemma_ranges_end_to_end(size, n);
    assert(r[0].0 == shift + range_of(size, n, 0).0);
    assert(r[n - 1].1 == shift + range_of(size, n, (n - 1) as nat).1);
    assert forall|i: int| 0 <= i < n implies (#[trigger] r[i]).0 <= r[i].1 by {
        assert(range_start(size, n, i as nat) <= range_start(size, n, i as nat + 1));
    }
    assert forall|i: int| 0 < i < n implies (#[trigger] r[i]).0 == r[i - 1].1 by {
        assert(r[i - 1].1 == shift + range_of(size, n, (i - 1) as nat).1);
        assert((i - 1) as nat + 1 == i as nat);
    }
    assert forall|i: int, j: int| 0 <= i < n && 0 <= j < n implies (#[trigger] r[i]).1 - r[i].0
        <= (#[trigger] r[j]).1 - r[j].0 + 1 by {
        lemma_ranges_even(size, n, i as nat, j as nat);
    }
}

/// The flag word of an announcement, as a sum of its bits.
pub open spec fn bits(hash: bool, crypt: bool, resume: bool, meta: bool) -> nat {
    (if hash { 1nat } else { 0 }) + (if crypt { 2nat } else { 0 }) + (if resume { 4nat } else {
        0
    }) + (if meta { 8nat } else { 0 })
}

proof fn lemma_bits(hash: bool, crypt: bool, resume: bool, meta: bool)
    ensures
        flag_word(hash, crypt, resume, meta) == bits(hash, crypt, resume, meta),
{
    let a: u32 = if hash { 1 } else { 0 };
    let b: u32 = if crypt { 2 } else { 0 };
    let c: u32 = if resume { 4 } else { 0 };
    let d: u32 = if meta { 8 } else { 0 };
    assert((a | b | c | d) == a + b + c + d) by (bit_vector)
        requires
            a == 0 || a == 1,
            b == 0 || b == 2,
            c == 0 || c == 4,
            d == 0 || d == 8,
    ;
}

/// The digest of a file, then its mode and time, as far as they are announced.
pub open spec fn announced(hash: Option<[u8; 32]>, meta: Option<(u32, u64)>) -> Seq<u8> {
    match (hash, meta) {
        (Some(h), Some(m)) => h@ + le(m.0 as nat, 4) + le(m.1 as nat, 8),
        (Some(h), None) => h@,
        (None, Some(m)) => le(m.0 as nat, 4) + le(m.1 as nat, 8),
        (None, None) => Seq::empty(),
    }
}

/// The header of a source, by its places: `BBX2`, the flag word, the size, the
/// number of streams, the offset if the transfer resumes, and then either the
/// announced fields in clear, or the salt and the announced fields sealed behind
/// their length.
pub proof fn lemma_header_places(
    p: SourcePlan,
    a: Announcement,
    psk: Option<[u8; 32]>,
    salt: Seq<u8>,
)
    requires
        is_plan(p, a, psk, salt),
        0 < a.streams <= 64,
        salt.len() == 32,
    ensures
        ({
            let h = p.header@;
            let at: int = if a.resume_from > 0 { 28 } else { 20 };
            let word = bits(a.hash is Some, a.crypt, a.resume_from > 0, a.meta is Some);
            let bound = le(word, 4) + le(a.size as nat, 8) + le(a.streams as nat, 4) + le(
                a.resume_from as nat,
                8,
            ) + salt;
            &&& h.len() >= at
            &&& h.subrange(0, 4) == seq![66u8, 66, 88, 50]
            &&& h.subrange(4, 8) == le(word, 4)
            &&& h.subrange(8, 16) == le(a.size as nat, 8)
            &&& h.subrange(16, 20) == le(a.streams as nat, 4)
            &&& a.resume_from > 0 ==> h.subrange(20, 28) == le(a.resume_from as nat, 8)
            &&& !a.crypt ==> p.seal is None && h.skip(at) == announced(a.hash, a.meta)
            &&& a.crypt ==> {
                let key = blake3_keyed(psk->0@, salt);
                let nonce = le(0, 4) + le(0xffff_ffff_ffff_ffff, 8);
                let sealed = chacha_seal(key, nonce, announced(a.hash, a.meta), bound);
                &&& p.seal is Some && (p.seal->0).0@ == key && (p.seal->0).1@ == bound
                &&& h.len() >= at + 36
                &&& h.subrange(at, at + 32) == salt
                &&& h.subrange(at + 32, at + 36) == le(sealed.len(), 4)
                &&& h.skip(at + 36) == sealed
            }
        }),
{
    let h = p.header@;
    let c = a.control(salt);
    let at: int = if a.resume_from > 0 { 28 } else { 20 };
    lemma_bits(a.hash is Some, a.crypt, a.resume_from > 0, a.meta is Some);
    lemma_le_len(c.flags as nat, 4);
    lemma_le_len(c.size as nat, 8);
    lemma_le_len(c.streams as nat, 4);
    lemma_le_len(c.resume_from as nat, 8);
    let plain = private_bytes(opt_bytes(a.hash), a.meta);
    assert(plain =~= announced(a.hash, a.meta));
    let front = fixed_bytes(c.flags, c.size, c.streams) + resume_bytes(c.resume_from);
    assert(front.len() == at);
    let sealed = match p.seal {
        None => Seq::<u8>::empty(),
        Some(s) => chacha_seal(s.0@, nonce_bytes(0, CONTROL_COUNTER), plain, s.1@),
    };
    assert(h =~= front + tail_bytes(c, sealed));
    assert(h.subrange(0, 4) =~= seq![66u8, 66, 88, 50]);
    assert(h.subrange(4, 8) =~= le(c.flags as nat, 4));
    assert(h.subrange(8, 16) =~= le(c.size as nat, 8));
    assert(h.subrange(16, 20) =~= le(c.streams as nat, 4));
    if a.resume_from > 0 {
        assert(h.subrange(20, 28) =~= le(c.resume_from as nat, 8));
    }
    if a.crypt {
        lemma_le_len(sealed.len(), 4);
        assert(h.subrange(at, at + 32) =~= salt);
        assert(h.subrange(at + 32, at + 36) =~= le(sealed.len(), 4));
        assert(h.skip(at + 36) =~= sealed);
    } else {
        assert(h.skip(at) =~= plain);
    }
}

/// What a sink accepts: every field of the header is the one at its place, the
/// streams are as many as it has connections, and as it asked for, the offset is
/// not behind the end, sealing is as it expects and with a key, and there is a
/// digest if it asked for one or if the transfer resumes.
pub proof fn lemma_reading_places(b: Seq<u8>, side: SinkSide, c: Control)
    requires
        reading(b, side) == Ok::<Reading, Seq<char>>(Reading::Done(c)),
    ensures
        b.len() >= 20,
        b.subrange(0, 4) == seq![66u8, 66, 88, 50],
        c.flags == le_value(b.subrange(4, 8)) as u32,
        c.size == le_value(b.subrange(8, 16)) as u64,
        c.streams == le_value(b.subrange(16, 20)) as u32,
        1 <= c.streams <= 64,
        c.streams == side.conns,
        side.streams_hint == 0 || side.streams_hint == c.streams,
        c.flags & 4 != 0 ==> b.len() >= 28 && c.resume_from == le_value(b.subrange(20, 28)) as u64,
        c.flags & 4 == 0 ==> c.resume_from == 0,
        c.resume_from <= c.size,
        c.hash is Some <==> c.flags & 1 != 0,
        c.salt is Some <==> c.flags & 2 != 0,
        c.meta is Some <==> c.flags & 8 != 0,
        side.crypt <==> c.salt is Some,
        side.crypt ==> side.key is Some,
        side.check || c.flags & 4 != 0 ==> c.hash is Some,
{
    let at = resume_end(flags_in(b));
    assert(b.subrange(0, 4) =~= magic());
}

/// A payload in clear is the bytes themselves, without framing.
pub proof fn lemma_clear_is_raw(data: Seq<u8>, counter: nat, id: u32)
    ensures
        sent(data, counter, id, None) == data,
    decreases data.len(),
{
    if data.len() > 0 {
        let n = min_nat(data.len(), CHUNK as nat) as int;
        lemma_clear_is_raw(data.skip(n), counter + 1, id);
        assert(data.take(n) + data.skip(n) =~= data);
    } else {
        assert(data =~= Seq::empty());
    }
}

/// A sealed payload is a frame of each 65536 bytes and one of the rest: the length
/// of the sealed bytes in four bytes, and the sealed bytes. Each frame is sealed
/// under the number of the stream and its own, counted from zero.
pub proof fn lemma_sealed_frames(
    data: Seq<u8>,
    rest: Seq<u8>,
    counter: nat,
    id: u32,
    seal: (Seq<u8>, Seq<u8>),
)
    requires
        0 < data.len() <= 65536,
        data.len() == 65536 || rest.len() == 0,
    ensures
        ({
            let nonce = le(id as nat, 4) + le((counter as u64) as nat, 8);
            let ct = chacha_seal(seal.0, nonce, data, seal.1);
            sent(data + rest, counter, id, Some(seal)) == le(ct.len(), 4) + ct + sent(
                rest,
                counter + 1,
                id,
                Some(seal),
            )
        }),
        sent(Seq::empty(), counter, id, Some(seal)) == Seq::<u8>::empty(),
{
    let all = data + rest;
    let n = min_nat(all.len(), 65536) as int;
    assert(all.take(n) =~= data);
    assert(all.skip(n) =~= rest);
}

/// A range in clear is received as soon as all its bytes are there, whatever
/// follows them, and is the bytes that were there.
pub proof fn lemma_clear_received(w: Seq<u8>, left: nat, counter: nat, id: u32)
    ensures
        received(w, left, counter, id, None) == if w.len() >= left {
            Ok::<Seq<u8>, Seq<char>>(w.take(left as int))
        } else {
            Err::<Seq<u8>, Seq<char>>(
                "stream "@ + dec(id as nat) + " read: failed to fill whole buffer"@,
            )
        },
    decreases w.len(),
{
    if left > 0 {
        let n = min_nat(left, CHUNK as nat) as int;
        if w.len() >= n {
            lemma_clear_received(w.skip(n), (left - n) as nat, counter, id);
            if w.len() >= left {
                assert(w.take(n) + w.skip(n).take(left - n) =~= w.take(left as int));
            }
        }
    } else {
        assert(w.take(0) =~= Seq::empty());
    }
}

/// A sealed frame of up to 65616 bytes is received if it opens under the number
/// of the stream and its own to no more than is still owed; then the rest is
/// received behind it. Nothing else of a frame is asked for.
pub proof fn lemma_frame_received(
    ct: Seq<u8>,
    rest: Seq<u8>,
    left: nat,
    counter: nat,
    id: u32,
    seal: (Seq<u8>, Seq<u8>),
)
    requires
        left > 0,
        ct.len() < 0x1_0000_0000,
    ensures
        ({
            let nonce = le(id as nat, 4) + le((counter as u64) as nat, 8);
            let opened = chacha_open(seal.0, nonce, ct, seal.1);
            let got = received(le(ct.len(), 4) + ct + rest, left, counter, id, Some(seal));
            if ct.len() > 65616 || opened is None || opened->0.len() > left {
                got is Err
            } else {
                match received(
                    rest,
                    (left - opened->0.len()) as nat,
                    counter + 1,
                    id,
                    Some(seal),
                ) {
                    Ok(t) => got == Ok::<Seq<u8>, Seq<char>>(opened->0 + t),
                    Err(e) => got == Err::<Seq<u8>, Seq<char>>(e),
                }
            }
        }),
{
    let w = le(ct.len(), 4) + ct + rest;
    let n = ct.len() as int;
    lemma_pow256();
    lemma_le_roundtrip(ct.len(), 4);
    assert(w.take(4) =~= le(ct.len(), 4));
    if n <= 65616 {
        assert(w.subrange(4, 4 + n) =~= ct);
        assert(w.skip(4 + n) =~= rest);
    }
}

/// A transfer in clear is admitted if and only if it was allowed by a `1`, or
/// stays on this machine; one that is sealed always is.
pub proof fn lemma_clear_admitted(
    crypt: bool,
    allow: Option<Seq<char>>,
    host: Seq<char>,
    ip: Ip,
)
    ensures
        clear_refusal(crypt, allow, host, Some(ip)) is None <==> crypt || allow == Some(seq!['1'])
            || (match ip {
            Ip::V4(b) => b@[0] == 127,
            Ip::V6(b) => b@[15] == 1 && forall|i: int| 0 <= i < 15 ==> b@[i] == 0,
        }),
{
    reveal_strlit("1");
    assert("1"@ =~= seq!['1']);
    if let Ip::V6(b) = ip {
        let one = seq![0u8, 0, 0, 0, 0, 0, 0, 0, 0, 0, 0, 0, 0, 0, 0, 1];
        if b@[15] == 1 && forall|i: int| 0 <= i < 15 ==> b@[i] == 0 {
            assert(b@ =~= one);
        }
    }
}

/// A side that dials is refused if and only if it is to seal and has no key, or
/// is not to seal where that is not admitted.
pub proof fn lemma_dial_admitted(
    addr: Seq<char>,
    crypt: bool,
    has_key: bool,
    allow: Option<Seq<char>>,
    parsed: Option<Ip>,
    no_key: Seq<char>,
)
    ensures
        crypt ==> (connect_refusal(addr, crypt, has_key, allow, parsed, no_key) is None <==> has_key),
        !crypt ==> (connect_refusal(addr, crypt, has_key, allow, parsed, no_key) is None
            <==> clear_refusal(false, allow, addr, parsed) is None),
{
}

/// A side that listens is refused if and only if its address cannot be read, or
/// it is not to seal where that is not admitted.
pub proof fn lemma_listen_admitted(
    listen: Seq<char>,
    crypt: bool,
    allow: Option<Seq<char>>,
    parsed: Option<Ip>,
)
    ensures
        listen_refusal(listen, crypt, allow, parsed) is None <==> listen_parts(
            listen,
        ) is Ok && (crypt || clear_refusal(false, allow, listen, parsed) is None),
{
}

/// The four bytes of a number at an offset.
pub open spec fn four_at(b: Seq<u8>, at: int) -> nat {
    (b[at] + 256 * b[at + 1] + 65536 * b[at + 2] + 16777216 * b[at + 3]) as nat
}

/// Four bytes of a header, read as a number.
pub proof fn lemma_four_at(b: Seq<u8>, at: int)
    requires
        0 <= at,
        at + 4 <= b.len(),
    ensures
        le_value(b.subrange(at, at + 4)) == four_at(b, at),
        four_at(b, at) < 0x1_0000_0000,
{
    let s = b.subrange(at, at + 4);
    let s1 = s.skip(1);
    let s2 = s1.skip(1);
    let s3 = s2.skip(1);
    assert(s[0] == b[at] && s1[0] == b[at + 1] && s2[0] == b[at + 2] && s3[0] == b[at + 3]);
    assert(s3.skip(1).len() == 0);
    assert(le_value(s3.skip(1)) == 0);
    assert(le_value(s3) == b[at + 3]);
    assert(le_value(s2) == b[at + 2] + 256 * le_value(s3));
    assert(le_value(s1) == b[at + 1] + 256 * le_value(s2));
    assert(le_value(s) == b[at] + 256 * le_value(s1));
}

/// Eight bytes at an offset are two numbers of four bytes, the lower one first.
pub open spec fn eight_at(b: Seq<u8>, at: int) -> nat {
    four_at(b, at) + 0x1_0000_0000 * four_at(b, at + 4)
}

proof fn lemma_eight_at(b: Seq<u8>, at: int)
    requires
        0 <= at,
        at + 8 <= b.len(),
    ensures
        le_value(b.subrange(at, at + 8)) == eight_at(b, at),
        eight_at(b, at) < 0x1_0000_0000_0000_0000,
{
    let s = b.subrange(at, at + 8);
    let s1 = s.skip(1);
    let s2 = s1.skip(1);
    let s3 = s2.skip(1);
    let s4 = s3.skip(1);
    assert(s[0] == b[at] && s1[0] == b[at + 1] && s2[0] == b[at + 2] && s3[0] == b[at + 3]);
    assert(s4 =~= b.subrange(at + 4, at + 8));
    lemma_four_at(b, at);
    lemma_four_at(b, at + 4);
    assert(le_value(s3) == b[at + 3] + 256 * le_value(s4));
    assert(le_value(s2) == b[at + 2] + 256 * le_value(s3));
    assert(le_value(s1) == b[at + 1] + 256 * le_value(s2));
    assert(le_value(s) == b[at] + 256 * le_value(s1));
}

/// What a sink asks of the fields of a header: an offset that is not behind the
/// end, a digest if it wants one or if the transfer resumes, and the number of
/// streams that it has connections for and asked for.
pub open spec fn agreeable(b: Seq<u8>, side: SinkSide) -> bool {
    let flags = four_at(b, 4) as u32;
    let streams = four_at(b, 16);
    &&& flags & 4 != 0 ==> eight_at(b, 20) <= eight_at(b, 8)
    &&& side.check || flags & 4 != 0 ==> flags & 1 != 0
    &&& side.streams_hint == 0 || side.streams_hint == streams
    &&& side.conns == streams
}

proof fn lemma_agreeable(b: Seq<u8>, side: SinkSide)
    requires
        b.len() >= 20,
        (four_at(b, 4) as u32) & 4 != 0 ==> b.len() >= 28,
    ensures
        field_refusal(b, side) is None <==> agreeable(b, side),
{
    lemma_four_at(b, 4);
    lemma_four_at(b, 16);
    lemma_eight_at(b, 8);
    if (four_at(b, 4) as u32) & 4 != 0 {
        lemma_eight_at(b, 20);
    }
}

/// A header in clear is refused if and only if it does not start with `BBX2`, has
/// no number of streams from 1 to 64, is one of a sealed transfer, or is not
/// agreeable, each as soon as the bytes that tell it are there. It is done when all
/// its bytes are there, and until then it lacks those that it tells of.
pub proof fn lemma_clear_header(b: Seq<u8>, side: SinkSide)
    requires
        !side.crypt,
    ensures
        ({
            let flags = four_at(b, 4) as u32;
            let streams = four_at(b, 16);
            let at: int = if flags & 4 != 0 { 28 } else { 20 };
            let end = at + (if flags & 1 != 0 { 32int } else { 0 }) + (if flags & 8 != 0 {
                12int
            } else {
                0
            });
            let known = b.len() >= 4 && b[0] == 66 && b[1] == 66 && b[2] == 88 && b[3] == 50;
            let numbered = b.len() >= 20 && 1 <= streams <= 64;
            &&& b.len() < 4 ==> reading(b, side) == Ok::<Reading, Seq<char>>(
                Reading::More((4 - b.len()) as nat),
            )
            &&& b.len() >= 4 && !known ==> reading(b, side) is Err
            &&& known && b.len() < 20 ==> reading(b, side) == Ok::<Reading, Seq<char>>(
                Reading::More((20 - b.len()) as nat),
            )
            &&& known && b.len() >= 20 && !numbered ==> reading(b, side) is Err
            &&& known && numbered && b.len() < at ==> reading(b, side) == Ok::<
                Reading,
                Seq<char>,
            >(Reading::More((at - b.len()) as nat))
            &&& known && numbered && b.len() >= at && (flags & 2 != 0 || !agreeable(b, side))
                ==> reading(b, side) is Err
            &&& known && numbered && b.len() >= at && flags & 2 == 0 && agreeable(b, side)
                && b.len() < end ==> reading(b, side) == Ok::<Reading, Seq<char>>(
                Reading::More((end - b.len()) as nat),
            )
            &&& known && numbered && b.len() >= end && flags & 2 == 0 && agreeable(b, side)
                ==> reading(b, side) is Ok && reading(b, side)->Ok_0 is Done
        }),
{
    lemma_known(b);
    if b.len() >= 20 {
        lemma_four_at(b, 4);
        lemma_four_at(b, 16);
        if (four_at(b, 4) as u32) & 4 != 0 ==> b.len() >= 28 {
            lemma_agreeable(b, side);
        }
    }
}

/// The first four bytes of a header, one by one.
pub proof fn lemma_known(b: Seq<u8>)
    ensures
        b.len() >= 4 ==> (b.subrange(0, 4) == magic() <==> b[0] == 66 && b[1] == 66 && b[2] == 88
            && b[3] == 50),
{
    if b.len() >= 4 {
        let s = b.subrange(0, 4);
        assert(s[0] == b[0] && s[1] == b[1] && s[2] == b[2] && s[3] == b[3]);
        if b[0] == 66 && b[1] == 66 && b[2] == 88 && b[3] == 50 {
            assert(s =~= magic());
        }
    }
}

/// A header of a sealed transfer is refused if and only if one in clear would be
/// for its fields, or its sealed part is said to have more than 256 bytes, does not
/// open, or opens to fewer bytes than its fields need.
pub proof fn lemma_sealed_header(b: Seq<u8>, side: SinkSide)
    requires
        side.crypt,
        side.key is Some,
        b.len() >= 20,
        b[0] == 66 && b[1] == 66 && b[2] == 88 && b[3] == 50,
        1 <= four_at(b, 16) <= 64,
    ensures
        ({
            let flags = four_at(b, 4) as u32;
            let at: int = if flags & 4 != 0 { 28 } else { 20 };
            let need = (if flags & 1 != 0 { 32int } else { 0 }) + (if flags & 8 != 0 {
                12int
            } else {
                0
            });
            let n = four_at(b, at + 32);
            &&& b.len() >= at && flags & 2 == 0 ==> reading(b, side) is Err
            &&& flags & 2 != 0 && b.len() < at + 32 ==> reading(b, side) is Ok && reading(
                b,
                side,
            )->Ok_0 is More
            &&& flags & 2 != 0 && b.len() >= at + 32 && !agreeable(b, side) ==> reading(b, side)
                is Err
            &&& flags & 2 != 0 && b.len() >= at + 36 && agreeable(b, side) && n > 256 ==> reading(
                b,
                side,
            ) is Err
            &&& flags & 2 != 0 && b.len() >= at + 36 + n && agreeable(b, side) && n <= 256 ==> {
                let salt = b.subrange(at, at + 32);
                let bound = b.subrange(4, 20) + le(
                    if flags & 4 != 0 {
                        eight_at(b, 20)
                    } else {
                        0
                    },
                    8,
                ) + salt;
                let opened = chacha_open(
                    blake3_keyed(side.key->0@, salt),
                    le(0, 4) + le(0xffff_ffff_ffff_ffff, 8),
                    b.subrange(at + 36, at + 36 + n),
                    bound,
                );
                if opened is Some && opened->0.len() >= need {
                    reading(b, side) is Ok && reading(b, side)->Ok_0 is Done
                } else {
                    reading(b, side) is Err
                }
            }
        }),
{
    let flags = four_at(b, 4) as u32;
    let at: int = if flags & 4 != 0 { 28 } else { 20 };
    lemma_known(b);
    lemma_four_at(b, 4);
    lemma_four_at(b, 16);
    lemma_eight_at(b, 8);
    if b.len() >= at {
        lemma_agreeable(b, side);
    }
    if b.len() >= at + 36 {
        lemma_four_at(b, at + 32);
        let salt = b.subrange(at, at + 32);
        if flags & 4 != 0 {
            lemma_eight_at(b, 20);
        }
        lemma_le_value_roundtrip(b.subrange(4, 8));
        lemma_le_value_roundtrip(b.subrange(8, 16));
        lemma_le_value_roundtrip(b.subrange(16, 20));
        assert(b.subrange(4, 20) =~= b.subrange(4, 8) + b.subrange(8, 16) + b.subrange(16, 20));
    }
}

} // verus!
