//! The control header that opens stream 0 of a transfer.

use crate::crypto::{
    aad_bytes, aead_decrypt, aead_encrypt, blake3_keyed, chacha_open, chacha_seal, derive_aead_key,
    frame_aad, gen_key, nonce_bytes, CONTROL_COUNTER,
};
use crate::ranges::{is_split, transfer_ranges};
use crate::text::{dec, dec_text};
use crate::wire::{
    le, le_value, lemma_le_len, lemma_le_roundtrip, lemma_pow256, read_u32, read_u64, same_bytes,
    write_u32, write_u64,
};
use vstd::prelude::*;
use vstd::slice::slice_subrange;

verus! {

/// The header announces a digest of the whole file.
pub const FLAG_BLAKE3: u32 = 1;

/// The payload is sealed.
pub const FLAG_CRYPT: u32 = 2;

/// The header names an offset to resume from.
pub const FLAG_RESUME: u32 = 4;

/// The header carries mode and modification time.
pub const FLAG_PRESERVE: u32 = 8;

/// Largest number of streams of a transfer.
pub const MAX_STREAMS: usize = 64;

/// Longest sealed part of a header.
pub const MAX_SEALED: usize = 256;

/// `BBX2` in ASCII.
pub open spec fn magic() -> Seq<u8> {
    seq![66u8, 66, 88, 50]
}

pub open spec fn has_flag(flags: u32, bit: u32) -> bool {
    flags & bit != 0
}

/// What a header says.
pub struct Control {
    pub flags: u32,
    pub size: u64,
    pub streams: u32,
    pub resume_from: u64,
    /// Salt of the transfer, when the payload is sealed.
    pub salt: Option<Seq<u8>>,
    /// Digest of the whole file.
    pub hash: Option<Seq<u8>>,
    /// Mode and modification time.
    pub meta: Option<(u32, u64)>,
}

/// The flag word of a transfer.
pub open spec fn flag_word(check: bool, crypt: bool, resume: bool, preserve: bool) -> u32 {
    (if check { FLAG_BLAKE3 } else { 0 }) | (if crypt { FLAG_CRYPT } else { 0 }) | (if resume {
        FLAG_RESUME
    } else {
        0
    }) | (if preserve { FLAG_PRESERVE } else { 0 })
}

/// Digest, mode and modification time, as far as they are announced.
pub open spec fn private_bytes(hash: Option<Seq<u8>>, meta: Option<(u32, u64)>) -> Seq<u8> {
    (match hash {
        Some(h) => h,
        None => Seq::empty(),
    }) + (match meta {
        Some(m) => le(m.0 as nat, 4) + le(m.1 as nat, 8),
        None => Seq::empty(),
    })
}

/// The fields that every header has.
pub open spec fn fixed_bytes(flags: u32, size: u64, streams: u32) -> Seq<u8> {
    magic() + le(flags as nat, 4) + le(size as nat, 8) + le(streams as nat, 4)
}

/// The resume offset, where there is one.
pub open spec fn resume_bytes(resume_from: u64) -> Seq<u8> {
    if resume_from > 0 {
        le(resume_from as nat, 8)
    } else {
        Seq::empty()
    }
}

/// The last part of a header: in clear, or the salt and the sealed fields
/// behind their length.
pub open spec fn tail_bytes(c: Control, sealed: Seq<u8>) -> Seq<u8> {
    match c.salt {
        Some(salt) => salt + le(sealed.len(), 4) + sealed,
        None => private_bytes(c.hash, c.meta),
    }
}

/// A whole header.
pub open spec fn header_bytes(c: Control, sealed: Seq<u8>) -> Seq<u8> {
    fixed_bytes(c.flags, c.size, c.streams) + resume_bytes(c.resume_from) + tail_bytes(c, sealed)
}

/// What a source is to announce.
pub struct Announcement {
    pub size: u64,
    pub streams: usize,
    pub crypt: bool,
    pub resume_from: u64,
    pub hash: Option<[u8; 32]>,
    pub meta: Option<(u32, u64)>,
}

pub open spec fn opt_bytes(h: Option<[u8; 32]>) -> Option<Seq<u8>> {
    match h {
        Some(x) => Some(x@),
        None => None,
    }
}

impl Announcement {
    /// The flag word that goes with it.
    pub open spec fn flags(self) -> u32 {
        flag_word(self.hash is Some, self.crypt, self.resume_from > 0, self.meta is Some)
    }

    /// The header that goes with it.
    pub open spec fn control(self, salt: Seq<u8>) -> Control {
        Control {
            flags: self.flags(),
            size: self.size,
            streams: self.streams as u32,
            resume_from: self.resume_from,
            salt: if self.crypt {
                Some(salt)
            } else {
                None
            },
            hash: opt_bytes(self.hash),
            meta: self.meta,
        }
    }

    pub open spec fn aad(self, salt: Seq<u8>) -> Seq<u8> {
        aad_bytes(self.flags(), self.size, self.streams as u32, self.resume_from, salt)
    }

    /// Why it cannot be sent, if it cannot.
    pub open spec fn refusal(self, psk: Option<[u8; 32]>) -> Option<Seq<char>> {
        if self.crypt && psk is None {
            Some("encrypt needs key"@)
        } else if self.resume_from > self.size {
            Some(
                "resume_from "@ + dec(self.resume_from as nat) + " > file size "@ + dec(
                    self.size as nat,
                ),
            )
        } else if self.resume_from > 0 && self.hash is None {
            Some("resume requires BLAKE3 (-c): refuse sending resume without integrity"@)
        } else {
            None
        }
    }
}

/// A source refuses an announcement for three reasons only: it is to be sealed
/// and there is no key, it resumes behind the end of the file, or it resumes
/// without a digest. No size of a file, no number of streams, and nothing of its
/// mode and time is a reason.
pub proof fn lemma_source_admits(a: Announcement, psk: Option<[u8; 32]>)
    ensures
        a.refusal(psk) is None <==> (a.crypt ==> psk is Some) && a.resume_from <= a.size && (
        a.resume_from > 0 ==> a.hash is Some),
{
}

/// Everything a source needs to send a file.
pub struct SourcePlan {
    /// Bytes that open stream 0.
    pub header: Vec<u8>,
    /// Key and associated data of sealed frames.
    pub seal: Option<([u8; 32], Vec<u8>)>,
    /// One range per stream.
    pub ranges: Vec<(u64, u64)>,
}

/// A source holds as many connections as it has streams, and a key if it seals.
pub fn check_source(conns: usize, streams: usize, crypt: bool, has_key: bool) -> (r: Result<
    (),
    String,
>)
    ensures
        r is Ok <==> conns == streams && (crypt ==> has_key),
        r matches Err(e) ==> e@ == if conns != streams {
            "expected "@ + dec(streams as nat) + " streams, got "@ + dec(conns as nat)
        } else {
            "encrypt needs key"@
        },
{
    if conns != streams {
        let mut m: String = "expected ".to_owned();
        m.append(dec_text(streams as u64).as_str());
        m.append(" streams, got ");
        m.append(dec_text(conns as u64).as_str());
        return Err(m);
    }
    if crypt && !has_key {
        return Err("encrypt needs key".to_owned());
    }
    Ok(())
}

fn append_private(out: &mut Vec<u8>, hash: &Option<[u8; 32]>, meta: &Option<(u32, u64)>)
    ensures
        final(out)@ == old(out)@ + private_bytes(opt_bytes(*hash), *meta),
{
    let ghost was = out@;
    match hash {
        Some(h) => {
            out.extend_from_slice(h);
            assert(out@ =~= was + h@);
        },
        None => {},
    }
    match meta {
        Some(m) => {
            write_u32(out, m.0);
            write_u64(out, m.1);
        },
        None => {},
    }
    assert(out@ =~= was + private_bytes(opt_bytes(*hash), *meta));
}

fn flags_of(check: bool, crypt: bool, resume: bool, preserve: bool) -> (r: u32)
    ensures
        r == flag_word(check, crypt, resume, preserve),
{
    (if check { FLAG_BLAKE3 } else { 0 }) | (if crypt { FLAG_CRYPT } else { 0 }) | (if resume {
        FLAG_RESUME
    } else {
        0
    }) | (if preserve { FLAG_PRESERVE } else { 0 })
}

/// `p` is the plan that goes with an announcement and a salt.
pub open spec fn is_plan(
    p: SourcePlan,
    a: Announcement,
    psk: Option<[u8; 32]>,
    salt: Seq<u8>,
) -> bool {
    &&& a.refusal(psk) is None
    &&& is_split(
        p.ranges@,
        (a.size - a.resume_from) as nat,
        a.streams as nat,
        a.resume_from as nat,
    )
    &&& match p.seal {
        None => !a.crypt && p.header@ == header_bytes(a.control(salt), Seq::empty()),
        Some(s) => {
            let plain = private_bytes(opt_bytes(a.hash), a.meta);
            let nonce = nonce_bytes(0, CONTROL_COUNTER);
            let sealed = chacha_seal(s.0@, nonce, plain, s.1@);
            &&& a.crypt
            &&& s.0@ == blake3_keyed(psk->0@, salt)
            &&& s.1@ == a.aad(salt)
            &&& p.header@ == header_bytes(a.control(salt), sealed)
            &&& sealed.len() == plain.len() + 16
            &&& chacha_open(s.0@, nonce, sealed, s.1@) == Some(plain)
        },
    }
}

fn refuse(a: &Announcement, psk: &Option<[u8; 32]>) -> (r: Option<String>)
    ensures
        match r {
            Some(e) => a.refusal(*psk) == Some(e@),
            None => a.refusal(*psk) is None,
        },
{
    if a.crypt && psk.is_none() {
        return Some("encrypt needs key".to_owned());
    }
    if a.resume_from > a.size {
        let mut m: String = "resume_from ".to_owned();
        m.append(dec_text(a.resume_from).as_str());
        m.append(" > file size ");
        m.append(dec_text(a.size).as_str());
        return Some(m);
    }
    if a.resume_from > 0 && a.hash.is_none() {
        return Some(
            "resume requires BLAKE3 (-c): refuse sending resume without integrity".to_owned(),
        );
    }
    None
}

/// The plan of a source for a given salt.
pub fn source_plan(a: &Announcement, psk: Option<[u8; 32]>, salt: &[u8; 32]) -> (r: Result<
    SourcePlan,
    String,
>)
    requires
        0 < a.streams <= MAX_STREAMS,
    ensures
        match r {
            Err(e) => a.refusal(psk) == Some(e@),
            Ok(p) => is_plan(p, *a, psk, salt@),
        },
        r is Ok <==> (a.crypt ==> psk is Some) && a.resume_from <= a.size && (a.resume_from > 0
            ==> a.hash is Some),
{
    if let Some(e) = refuse(a, &psk) {
        return Err(e);
    }
    let flags: u32 = flags_of(a.hash.is_some(), a.crypt, a.resume_from > 0, a.meta.is_some());
    let streams: u32 = a.streams as u32;
    let mut header: Vec<u8> = vec![66, 66, 88, 50];
    assert(header@ =~= magic());
    write_u32(&mut header, flags);
    write_u64(&mut header, a.size);
    write_u32(&mut header, streams);
    assert(header@ =~= fixed_bytes(flags, a.size, streams));
    if a.resume_from > 0 {
        write_u64(&mut header, a.resume_from);
    }
    assert(header@ =~= fixed_bytes(flags, a.size, streams) + resume_bytes(a.resume_from));
    let ghost front = header@;
    let ghost c = a.control(salt@);
    let mut seal: Option<([u8; 32], Vec<u8>)> = None;
    match psk {
        Some(k) if a.crypt => {
            header.extend_from_slice(salt);
            assert(header@ =~= front + salt@);
            let key: [u8; 32] = derive_aead_key(&k, salt);
            let aad: Vec<u8> = frame_aad(flags, a.size, streams, a.resume_from, salt);
            let mut plain: Vec<u8> = Vec::new();
            append_private(&mut plain, &a.hash, &a.meta);
            proof {
                assert(plain@ =~= private_bytes(opt_bytes(a.hash), a.meta));
                lemma_private_len(opt_bytes(a.hash), a.meta);
            }
            let ct: Vec<u8> = aead_encrypt(
                &key,
                0,
                CONTROL_COUNTER,
                plain.as_slice(),
                aad.as_slice(),
            )?;
            write_u32(&mut header, ct.len() as u32);
            header.extend_from_slice(ct.as_slice());
            assert(header@ =~= front + tail_bytes(c, ct@));
            seal = Some((key, aad));
        },
        _ => {
            append_private(&mut header, &a.hash, &a.meta);
            assert(header@ =~= front + tail_bytes(c, Seq::empty()));
        },
    }
    let ranges: Vec<(u64, u64)> = transfer_ranges(a.size, a.resume_from, a.streams);
    Ok(SourcePlan { header, seal, ranges })
}

/// The plan of a source, under a fresh salt if the transfer is sealed.
pub fn finish_source(a: &Announcement, psk: Option<[u8; 32]>) -> (r: Result<SourcePlan, String>)
    requires
        0 < a.streams <= MAX_STREAMS,
    ensures
        match r {
            Err(e) => a.refusal(psk) == Some(e@) || (a.refusal(psk) is None && a.crypt && e@
                == "getrandom"@),
            Ok(p) => exists|salt: Seq<u8>| #[trigger]
                is_plan(p, *a, psk, salt) && salt.len() == 32,
        },
        r is Ok ==> (a.crypt ==> psk is Some) && a.resume_from <= a.size && (a.resume_from > 0
            ==> a.hash is Some),
        !a.crypt && a.resume_from <= a.size && (a.resume_from > 0 ==> a.hash is Some) ==> r is Ok,
        r matches Err(e) ==> (a.crypt && psk is None) || a.resume_from > a.size || (a.resume_from
            > 0 && a.hash is None) || e@ == "getrandom"@,
{
    if let Some(e) = refuse(a, &psk) {
        return Err(e);
    }
    let salt: [u8; 32] = if a.crypt {
        gen_key()?
    } else {
        [0;32]
    };
    source_plan(a, psk, &salt)
}

proof fn lemma_private_len(hash: Option<Seq<u8>>, meta: Option<(u32, u64)>)
    requires
        hash matches Some(h) ==> h.len() == 32,
    ensures
        private_bytes(hash, meta).len() == (if hash is Some {
            32int
        } else {
            0
        }) + (if meta is Some {
            12int
        } else {
            0
        }),
{
    if let Some(m) = meta {
        lemma_le_len(m.0 as nat, 4);
        lemma_le_len(m.1 as nat, 8);
    }
}

/// What a sink knows before it reads a header.
pub struct SinkSide {
    pub crypt: bool,
    pub key: Option<[u8; 32]>,
    pub check: bool,
    /// Number of streams asked for, zero for any.
    pub streams_hint: usize,
    /// Number of connections at hand.
    pub conns: usize,
}

/// A header as it was read.
pub struct ControlHeader {
    pub flags: u32,
    pub size: u64,
    pub streams: usize,
    pub resume_from: u64,
    pub hash: Option<[u8; 32]>,
    pub meta: Option<(u32, u64)>,
    pub salt: Option<[u8; 32]>,
    /// Key and associated data of sealed frames.
    pub seal: Option<([u8; 32], Vec<u8>)>,
}

impl View for ControlHeader {
    type V = Control;

    open spec fn view(&self) -> Control {
        Control {
            flags: self.flags,
            size: self.size,
            streams: self.streams as u32,
            resume_from: self.resume_from,
            salt: opt_bytes(self.salt),
            hash: opt_bytes(self.hash),
            meta: self.meta,
        }
    }
}

/// Where the reading of a header stands.
pub enum ControlStep {
    /// That many more bytes belong to the header for certain.
    More(usize),
    /// The header is complete.
    Done(ControlHeader),
}

/// `ControlStep` over mathematical values.
pub enum Reading {
    More(nat),
    Done(Control),
}

/// A list of bytes as `{:?}` prints it.
pub open spec fn byte_list(b: Seq<u8>, n: int) -> Seq<char>
    decreases n,
{
    if n <= 0 {
        "["@
    } else if n == 1 {
        "["@ + dec(b[0] as nat)
    } else {
        byte_list(b, n - 1) + ", "@ + dec(b[n - 1] as nat)
    }
}

pub open spec fn bool_text(b: bool) -> Seq<char> {
    if b {
        "true"@
    } else {
        "false"@
    }
}

/// The fields at fixed places.
pub open spec fn flags_in(b: Seq<u8>) -> u32 {
    le_value(b.subrange(4, 8)) as u32
}

pub open spec fn size_in(b: Seq<u8>) -> u64 {
    le_value(b.subrange(8, 16)) as u64
}

pub open spec fn streams_in(b: Seq<u8>) -> u32 {
    le_value(b.subrange(16, 20)) as u32
}

/// Where the resume offset ends.
pub open spec fn resume_end(flags: u32) -> int {
    if has_flag(flags, FLAG_RESUME) {
        28
    } else {
        20
    }
}

pub open spec fn resume_in(b: Seq<u8>) -> u64 {
    if has_flag(flags_in(b), FLAG_RESUME) {
        le_value(b.subrange(20, 28)) as u64
    } else {
        0
    }
}

/// The digest at offset `at` of private fields, if one is announced.
pub open spec fn hash_at(flags: u32, p: Seq<u8>, at: int) -> Option<Seq<u8>> {
    if has_flag(flags, FLAG_BLAKE3) {
        Some(p.subrange(at, at + 32))
    } else {
        None
    }
}

/// Mode and modification time at offset `at` of private fields, if announced.
pub open spec fn meta_at(flags: u32, p: Seq<u8>, at: int) -> Option<(u32, u64)> {
    if has_flag(flags, FLAG_PRESERVE) {
        Some(
            (
                le_value(p.subrange(at, at + 4)) as u32,
                le_value(p.subrange(at + 4, at + 12)) as u64,
            ),
        )
    } else {
        None
    }
}

pub open spec fn hash_len(flags: u32) -> int {
    if has_flag(flags, FLAG_BLAKE3) {
        32
    } else {
        0
    }
}

pub open spec fn meta_len(flags: u32) -> int {
    if has_flag(flags, FLAG_PRESERVE) {
        12
    } else {
        0
    }
}

/// Why the fields before the private ones are not acceptable to a sink, if
/// they are not.
pub open spec fn field_refusal(b: Seq<u8>, side: SinkSide) -> Option<Seq<char>> {
    let flags = flags_in(b);
    let streams = streams_in(b);
    if resume_in(b) > size_in(b) {
        Some("resume_from "@ + dec(resume_in(b) as nat) + " > size "@ + dec(size_in(b) as nat))
    } else if side.check && !has_flag(flags, FLAG_BLAKE3) {
        Some(
            "source did not enable BLAKE3 (need matching -c on source, or pass -C to skip check)"@,
        )
    } else if has_flag(flags, FLAG_RESUME) && !has_flag(flags, FLAG_BLAKE3) {
        Some("resume requires BLAKE3 (-c): prefix is not re-hashed alone; refuse unsafe resume"@)
    } else if side.streams_hint != 0 && side.streams_hint != streams {
        Some(
            "stream count mismatch: local -s "@ + dec(side.streams_hint as nat) + ", peer "@ + dec(
                streams as nat,
            ),
        )
    } else if side.conns != streams {
        Some("expected "@ + dec(streams as nat) + " streams, got "@ + dec(side.conns as nat))
    } else {
        None
    }
}

/// What the fields found in `b` and the private ones say together.
pub open spec fn control_in(
    b: Seq<u8>,
    salt: Option<Seq<u8>>,
    hash: Option<Seq<u8>>,
    meta: Option<(u32, u64)>,
) -> Control {
    Control {
        flags: flags_in(b),
        size: size_in(b),
        streams: streams_in(b),
        resume_from: resume_in(b),
        salt,
        hash,
        meta,
    }
}

/// What opened private fields say.
pub open spec fn opened_fields(flags: u32, p: Seq<u8>) -> Result<
    (Option<Seq<u8>>, Option<(u32, u64)>),
    Seq<char>,
> {
    if p.len() < hash_len(flags) {
        Err("sealed control short (hash)"@)
    } else if p.len() < hash_len(flags) + meta_len(flags) {
        Err("sealed control short (preserve)"@)
    } else {
        Ok((hash_at(flags, p, 0), meta_at(flags, p, hash_len(flags))))
    }
}

/// Key of the sealed frames of a header with its salt at offset `at`.
pub open spec fn key_in(b: Seq<u8>, at: int, side: SinkSide) -> Seq<u8> {
    blake3_keyed(side.key->0@, b.subrange(at, at + 32))
}

/// Associated data of the sealed frames of a header with its salt at offset `at`.
pub open spec fn aad_in(b: Seq<u8>, at: int) -> Seq<u8> {
    aad_bytes(flags_in(b), size_in(b), streams_in(b), resume_in(b), b.subrange(at, at + 32))
}

/// What is read behind the resume offset of a sealed header.
pub open spec fn sealed_step(b: Seq<u8>, at: int, side: SinkSide) -> Result<Reading, Seq<char>> {
    let flags = flags_in(b);
    if b.len() < at + 32 {
        Ok(Reading::More((at + 32 - b.len()) as nat))
    } else if field_refusal(b, side) is Some {
        Err(field_refusal(b, side)->0)
    } else if b.len() < at + 36 {
        Ok(Reading::More((at + 36 - b.len()) as nat))
    } else {
        let n = le_value(b.subrange(at + 32, at + 36));
        if n > MAX_SEALED {
            Err("bad sealed control len "@ + dec(n))
        } else if b.len() < at + 36 + n {
            Ok(Reading::More((at + 36 + n - b.len()) as nat))
        } else {
            match chacha_open(
                key_in(b, at, side),
                nonce_bytes(0, CONTROL_COUNTER),
                b.subrange(at + 36, at + 36 + n),
                aad_in(b, at),
            ) {
                None => Err("decrypt failed (wrong key or corrupt)"@),
                Some(p) => match opened_fields(flags, p) {
                    Err(e) => Err(e),
                    Ok(f) => Ok(
                        Reading::Done(control_in(b, Some(b.subrange(at, at + 32)), f.0, f.1)),
                    ),
                },
            }
        }
    }
}

/// What is read behind the resume offset of a header in clear.
pub open spec fn clear_step(b: Seq<u8>, at: int, side: SinkSide) -> Result<Reading, Seq<char>> {
    let flags = flags_in(b);
    let end = at + hash_len(flags) + meta_len(flags);
    if field_refusal(b, side) is Some {
        Err(field_refusal(b, side)->0)
    } else if b.len() < end {
        Ok(Reading::More((end - b.len()) as nat))
    } else {
        Ok(
            Reading::Done(
                control_in(
                    b,
                    None,
                    hash_at(flags, b, at),
                    meta_at(flags, b, at + hash_len(flags)),
                ),
            ),
        )
    }
}

/// What the bytes read so far say: how many more to read, or the header, or why
/// it is refused. Bytes behind a complete header do not matter.
pub open spec fn reading(b: Seq<u8>, side: SinkSide) -> Result<Reading, Seq<char>> {
    if b.len() < 4 {
        Ok(Reading::More((4 - b.len()) as nat))
    } else if b.subrange(0, 4) != magic() {
        Err(
            "bad magic "@ + (byte_list(b, 4) + "]"@) + " (need BBX2; upgrade both ends)"@,
        )
    } else if b.len() < 20 {
        Ok(Reading::More((20 - b.len()) as nat))
    } else {
        let flags = flags_in(b);
        let streams = streams_in(b);
        let at = resume_end(flags);
        if streams == 0 || streams > MAX_STREAMS {
            Err("bad stream count"@)
        } else if b.len() < at {
            Ok(Reading::More((at - b.len()) as nat))
        } else if has_flag(flags, FLAG_CRYPT) != side.crypt {
            Err(
                "crypt mismatch: local="@ + bool_text(side.crypt) + " peer="@ + bool_text(
                    has_flag(flags, FLAG_CRYPT),
                ),
            )
        } else if side.crypt && side.key is None {
            Err("peer sent FLAG_CRYPT but no session key"@)
        } else if side.crypt {
            sealed_step(b, at, side)
        } else {
            clear_step(b, at, side)
        }
    }
}

fn bool_str(b: bool) -> (r: &'static str)
    ensures
        r@ == bool_text(b),
{
    if b {
        "true"
    } else {
        "false"
    }
}

fn byte_list_text(b: &[u8], n: usize) -> (r: String)
    requires
        n <= b@.len(),
    ensures
        r@ == byte_list(b@, n as int) + "]"@,
{
    let mut m: String = "[".to_owned();
    let mut i: usize = 0;
    while i < n
        invariant
            i <= n <= b@.len(),
            m@ == byte_list(b@, i as int),
        decreases n - i,
    {
        if i > 0 {
            m.append(", ");
        }
        m.append(dec_text(b[i] as u64).as_str());
        i += 1;
    }
    m.append("]");
    m
}

fn array32(b: &[u8], at: usize) -> (r: [u8; 32])
    requires
        at + 32 <= b@.len(),
    ensures
        r@ == b@.subrange(at as int, at + 32),
{
    let mut out: [u8; 32] = [0;32];
    let mut i: usize = 0;
    while i < 32
        invariant
            i <= 32,
            at + 32 <= b.len(),
            forall|k: int| 0 <= k < i ==> out@[k] == b@[at + k],
        decreases 32 - i,
    {
        out[i] = b[at + i];
        i += 1;
    }
    assert(out@ =~= b@.subrange(at as int, at + 32));
    out
}

/// `ControlStep` as a mathematical value.
pub open spec fn step_view(s: ControlStep) -> Reading {
    match s {
        ControlStep::More(n) => Reading::More(n as nat),
        ControlStep::Done(h) => Reading::Done(h@),
    }
}

impl ControlHeader {
    /// What holds of every header a sink has accepted.
    pub open spec fn accepted(self, side: SinkSide) -> bool {
        &&& 0 < self.streams <= MAX_STREAMS
        &&& self.streams == side.conns
        &&& self.resume_from <= self.size
        &&& self.resume_from > 0 ==> self.hash is Some
        &&& side.check ==> self.hash is Some
        &&& match self.seal {
            None => !side.crypt && self.salt is None,
            Some(s) => {
                &&& side.crypt
                &&& self.salt is Some
                &&& s.0@ == blake3_keyed(side.key->0@, self.salt->0@)
                &&& s.1@ == aad_bytes(
                    self.flags,
                    self.size,
                    self.streams as u32,
                    self.resume_from,
                    self.salt->0@,
                )
            },
        }
    }
}

fn refuse_fields(
    flags: u32,
    size: u64,
    streams: u32,
    resume_from: u64,
    side: &SinkSide,
    Ghost(b): Ghost<Seq<u8>>,
) -> (r: Option<String>)
    requires
        flags == flags_in(b),
        size == size_in(b),
        streams == streams_in(b),
        resume_from == resume_in(b),
    ensures
        match r {
            Some(e) => field_refusal(b, *side) == Some(e@),
            None => field_refusal(b, *side) is None,
        },
{
    if resume_from > size {
        let mut m: String = "resume_from ".to_owned();
        m.append(dec_text(resume_from).as_str());
        m.append(" > size ");
        m.append(dec_text(size).as_str());
        return Some(m);
    }
    if side.check && flags & FLAG_BLAKE3 == 0 {
        return Some(
            "source did not enable BLAKE3 (need matching -c on source, or pass -C to skip check)".to_owned(),
        );
    }
    if flags & FLAG_RESUME != 0 && flags & FLAG_BLAKE3 == 0 {
        return Some(
            "resume requires BLAKE3 (-c): prefix is not re-hashed alone; refuse unsafe resume".to_owned(),
        );
    }
    if side.streams_hint != 0 && side.streams_hint != streams as usize {
        let mut m: String = "stream count mismatch: local -s ".to_owned();
        m.append(dec_text(side.streams_hint as u64).as_str());
        m.append(", peer ");
        m.append(dec_text(streams as u64).as_str());
        return Some(m);
    }
    if side.conns != streams as usize {
        let mut m: String = "expected ".to_owned();
        m.append(dec_text(streams as u64).as_str());
        m.append(" streams, got ");
        m.append(dec_text(side.conns as u64).as_str());
        return Some(m);
    }
    None
}

fn read_meta(flags: u32, p: &[u8], at: usize) -> (r: Option<(u32, u64)>)
    requires
        at + meta_len(flags) <= p.len(),
    ensures
        r == meta_at(flags, p@, at as int),
{
    if flags & FLAG_PRESERVE != 0 {
        proof {
            assert(p@.subrange(at + 4, at + 12) =~= p@.subrange((at + 4) as int, (at + 4) + 8));
        }
        match (read_u32(p, at), read_u64(p, at + 4)) {
            (Some(mode), Some(mtime)) => Some((mode, mtime)),
            _ => None,
        }
    } else {
        None
    }
}

/// Takes opened private fields apart.
pub fn parse_opened(flags: u32, p: &[u8]) -> (r: Result<
    (Option<[u8; 32]>, Option<(u32, u64)>),
    String,
>)
    ensures
        match r {
            Ok(f) => opened_fields(flags, p@) == Ok::<
                (Option<Seq<u8>>, Option<(u32, u64)>),
                Seq<char>,
            >((opt_bytes(f.0), f.1)),
            Err(e) => opened_fields(flags, p@) == Err::<
                (Option<Seq<u8>>, Option<(u32, u64)>),
                Seq<char>,
            >(e@),
        },
{
    let mut off: usize = 0;
    let mut hash: Option<[u8; 32]> = None;
    if flags & FLAG_BLAKE3 != 0 {
        if p.len() < 32 {
            return Err("sealed control short (hash)".to_owned());
        }
        hash = Some(array32(p, 0));
        off = 32;
    }
    if flags & FLAG_PRESERVE != 0 && p.len() - off < 12 {
        return Err("sealed control short (preserve)".to_owned());
    }
    Ok((hash, read_meta(flags, p, off)))
}

/// Reads as much of a header as `b` holds. Called again with the bytes it asked
/// for, it comes to an end; it never asks for a byte of the payload.
pub fn read_control(b: &[u8], side: &SinkSide) -> (r: Result<ControlStep, String>)
    ensures
        match r {
            Ok(s) => reading(b@, *side) == Ok::<Reading, Seq<char>>(step_view(s)),
            Err(e) => reading(b@, *side) == Err::<Reading, Seq<char>>(e@),
        },
        r matches Ok(ControlStep::Done(h)) ==> h.accepted(*side),
{
    if b.len() < 4 {
        return Ok(ControlStep::More(4 - b.len()));
    }
    let want: [u8; 4] = [66, 66, 88, 50];
    assert(want@ =~= magic());
    if !same_bytes(slice_subrange(b, 0, 4), &want) {
        let mut m: String = "bad magic ".to_owned();
        m.append(byte_list_text(b, 4).as_str());
        m.append(" (need BBX2; upgrade both ends)");
        return Err(m);
    }
    if b.len() < 20 {
        return Ok(ControlStep::More(20 - b.len()));
    }
    let flags: u32 = read_u32(b, 4).unwrap();
    let size: u64 = read_u64(b, 8).unwrap();
    let streams: u32 = read_u32(b, 16).unwrap();
    if streams == 0 || streams as usize > MAX_STREAMS {
        return Err("bad stream count".to_owned());
    }
    let mut at: usize = 20;
    let mut resume_from: u64 = 0;
    if flags & FLAG_RESUME != 0 {
        if b.len() < 28 {
            return Ok(ControlStep::More(28 - b.len()));
        }
        resume_from = read_u64(b, 20).unwrap();
        at = 28;
    }
    let want_crypt: bool = flags & FLAG_CRYPT != 0;
    if want_crypt != side.crypt {
        let mut m: String = "crypt mismatch: local=".to_owned();
        m.append(bool_str(side.crypt));
        m.append(" peer=");
        m.append(bool_str(want_crypt));
        return Err(m);
    }
    if !side.crypt {
        if let Some(e) = refuse_fields(flags, size, streams, resume_from, side, Ghost(b@)) {
            return Err(e);
        }
        let hash_end: usize = if flags & FLAG_BLAKE3 != 0 {
            at + 32
        } else {
            at
        };
        let end: usize = if flags & FLAG_PRESERVE != 0 {
            hash_end + 12
        } else {
            hash_end
        };
        if b.len() < end {
            return Ok(ControlStep::More(end - b.len()));
        }
        let hash: Option<[u8; 32]> = if flags & FLAG_BLAKE3 != 0 {
            Some(array32(b, at))
        } else {
            None
        };
        let meta: Option<(u32, u64)> = read_meta(flags, b, hash_end);
        return Ok(
            ControlStep::Done(
                ControlHeader {
                    flags,
                    size,
                    streams: streams as usize,
                    resume_from,
                    hash,
                    meta,
                    salt: None,
                    seal: None,
                },
            ),
        );
    }
    let psk: [u8; 32] = match side.key {
        Some(k) => k,
        None => return Err("peer sent FLAG_CRYPT but no session key".to_owned()),
    };
    if b.len() < at + 32 {
        return Ok(ControlStep::More(at + 32 - b.len()));
    }
    let salt: [u8; 32] = array32(b, at);
    if let Some(e) = refuse_fields(flags, size, streams, resume_from, side, Ghost(b@)) {
        return Err(e);
    }
    let key: [u8; 32] = derive_aead_key(&psk, &salt);
    let aad: Vec<u8> = frame_aad(flags, size, streams, resume_from, &salt);
    if b.len() < at + 36 {
        return Ok(ControlStep::More(at + 36 - b.len()));
    }
    assert(b@.subrange((at + 32) as int, at + 32 + 4) =~= b@.subrange(at + 32, at + 36));
    let clen: usize = read_u32(b, at + 32).unwrap() as usize;
    if clen > MAX_SEALED {
        let mut m: String = "bad sealed control len ".to_owned();
        m.append(dec_text(clen as u64).as_str());
        return Err(m);
    }
    if b.len() < at + 36 + clen {
        return Ok(ControlStep::More(at + 36 + clen - b.len()));
    }
    let ct: &[u8] = slice_subrange(b, at + 36, at + 36 + clen);
    let p: Vec<u8> = aead_decrypt(&key, 0, CONTROL_COUNTER, ct, aad.as_slice())?;
    let (hash, meta) = parse_opened(flags, p.as_slice())?;
    Ok(
        ControlStep::Done(
            ControlHeader {
                flags,
                size,
                streams: streams as usize,
                resume_from,
                hash,
                meta,
                salt: Some(salt),
                seal: Some((key, aad)),
            },
        ),
    )
}

proof fn lemma_flag_word(check: bool, crypt: bool, resume: bool, preserve: bool)
    ensures
        has_flag(flag_word(check, crypt, resume, preserve), FLAG_BLAKE3) == check,
        has_flag(flag_word(check, crypt, resume, preserve), FLAG_CRYPT) == crypt,
        has_flag(flag_word(check, crypt, resume, preserve), FLAG_RESUME) == resume,
        has_flag(flag_word(check, crypt, resume, preserve), FLAG_PRESERVE) == preserve,
{
    let a: u32 = if check {
        1
    } else {
        0
    };
    let b: u32 = if crypt {
        2
    } else {
        0
    };
    let c: u32 = if resume {
        4
    } else {
        0
    };
    let d: u32 = if preserve {
        8
    } else {
        0
    };
    assert((a | b | c | d) & 1 == a && (a | b | c | d) & 2 == b && (a | b | c | d) & 4 == c && (a
        | b | c | d) & 8 == d) by (bit_vector)
        requires
            a == 0 || a == 1,
            b == 0 || b == 2,
            c == 0 || c == 4,
            d == 0 || d == 8,
    ;
}

/// `b` and `h` do not differ where both have a byte.
spec fn alike(b: Seq<u8>, h: Seq<u8>) -> bool {
    forall|i: int| 0 <= i < b.len() && i < h.len() ==> b[i] == h[i]
}

/// The sealed part of the header of a plan.
pub open spec fn sealed_part(p: SourcePlan, a: Announcement) -> Seq<u8> {
    match p.seal {
        None => Seq::empty(),
        Some(s) => chacha_seal(
            s.0@,
            nonce_bytes(0, CONTROL_COUNTER),
            private_bytes(opt_bytes(a.hash), a.meta),
            s.1@,
        ),
    }
}

/// Source and sink of one transfer: they hold the same key if they seal, the
/// sink asks for a digest only if there is one, and both count the same streams.
pub open spec fn peers(a: Announcement, psk: Option<[u8; 32]>, side: SinkSide) -> bool {
    &&& side.crypt == a.crypt
    &&& a.crypt ==> side.key is Some && psk is Some && side.key->0@ == psk->0@
    &&& side.check ==> a.hash is Some
    &&& side.streams_hint == 0 || side.streams_hint == a.streams
    &&& side.conns == a.streams
}

proof fn lemma_fixed_fields(a: Announcement, salt: Seq<u8>, sealed: Seq<u8>, b: Seq<u8>)
    requires
        b.len() >= 4,
        0 < a.streams <= MAX_STREAMS,
        alike(b, header_bytes(a.control(salt), sealed)),
    ensures
        header_bytes(a.control(salt), sealed).len() >= resume_end(a.flags()),
        b.subrange(0, 4) == magic(),
        b.len() >= 20 ==> flags_in(b) == a.flags(),
        b.len() >= 20 ==> size_in(b) == a.size,
        b.len() >= 20 ==> streams_in(b) == a.streams,
        b.len() >= resume_end(a.flags()) ==> resume_in(b) == a.resume_from,
        has_flag(a.flags(), FLAG_BLAKE3) == a.hash is Some,
        has_flag(a.flags(), FLAG_CRYPT) == a.crypt,
        has_flag(a.flags(), FLAG_RESUME) == (a.resume_from > 0),
        has_flag(a.flags(), FLAG_PRESERVE) == a.meta is Some,
{
    let c = a.control(salt);
    let h = header_bytes(c, sealed);
    lemma_flag_word(a.hash is Some, a.crypt, a.resume_from > 0, a.meta is Some);
    lemma_pow256();
    lemma_le_roundtrip(c.flags as nat, 4);
    lemma_le_roundtrip(c.size as nat, 8);
    lemma_le_roundtrip(c.streams as nat, 4);
    lemma_le_roundtrip(c.resume_from as nat, 8);
    assert(b.subrange(0, 4) =~= magic());
    if b.len() >= 20 {
        assert(b.subrange(4, 8) =~= le(c.flags as nat, 4));
        assert(b.subrange(8, 16) =~= le(c.size as nat, 8));
        assert(b.subrange(16, 20) =~= le(c.streams as nat, 4));
    }
    if b.len() >= resume_end(a.flags()) && a.resume_from > 0 {
        assert(b.subrange(20, 28) =~= le(c.resume_from as nat, 8));
    }
}

/// The private fields in clear, found at offset `at` of `b`.
proof fn lemma_private_fields(
    flags: u32,
    hash: Option<Seq<u8>>,
    meta: Option<(u32, u64)>,
    b: Seq<u8>,
    at: int,
)
    requires
        0 <= at,
        hash matches Some(h) ==> h.len() == 32,
        has_flag(flags, FLAG_BLAKE3) == hash is Some,
        has_flag(flags, FLAG_PRESERVE) == meta is Some,
        b.len() >= at + private_bytes(hash, meta).len(),
        b.subrange(at, at + private_bytes(hash, meta).len()) == private_bytes(hash, meta),
    ensures
        private_bytes(hash, meta).len() == hash_len(flags) + meta_len(flags),
        hash_at(flags, b, at) == hash,
        meta_at(flags, b, at + hash_len(flags)) == meta,
{
    let p = private_bytes(hash, meta);
    let s = b.subrange(at, at + p.len());
    lemma_private_len(hash, meta);
    assert forall|i: int| 0 <= i < p.len() implies b[at + i] == p[i] by {
        assert(s[i] == p[i]);
    }
    if let Some(h) = hash {
        assert(b.subrange(at, at + 32) =~= h);
    }
    if let Some(m) = meta {
        let q = at + hash_len(flags);
        lemma_pow256();
        lemma_le_roundtrip(m.0 as nat, 4);
        lemma_le_roundtrip(m.1 as nat, 8);
        let hl = hash_len(flags);
        assert forall|i: int| 0 <= i < 12 implies b[q + i] == (le(m.0 as nat, 4) + le(
            m.1 as nat,
            8,
        ))[i] by {
            assert(b[at + (hl + i)] == p[hl + i]);
        }
        assert forall|i: int| 0 <= i < 8 implies b[q + 4 + i] == le(m.1 as nat, 8)[i] by {
            assert(b[q + (4 + i)] == (le(m.0 as nat, 4) + le(m.1 as nat, 8))[4 + i]);
        }
        assert forall|i: int| 0 <= i < 4 implies b[q + i] == le(m.0 as nat, 4)[i] by {
            assert(b[q + i] == (le(m.0 as nat, 4) + le(m.1 as nat, 8))[i]);
        }
        assert(b.subrange(q, q + 4) =~= le(m.0 as nat, 4));
        assert(b.subrange(q + 4, q + 12) =~= le(m.1 as nat, 8));
    }
}

/// A sink that belongs to a source reads from its header what the source
/// announced, whatever follows the header.
pub proof fn lemma_header_roundtrip(
    p: SourcePlan,
    a: Announcement,
    psk: Option<[u8; 32]>,
    salt: Seq<u8>,
    side: SinkSide,
    rest: Seq<u8>,
)
    requires
        is_plan(p, a, psk, salt),
        0 < a.streams <= MAX_STREAMS,
        salt.len() == 32,
        peers(a, psk, side),
    ensures
        reading(p.header@ + rest, side) == Ok::<Reading, Seq<char>>(
            Reading::Done(a.control(salt)),
        ),
{
    let sealed = sealed_part(p, a);
    let c = a.control(salt);
    let h = header_bytes(c, sealed);
    let b = p.header@ + rest;
    let flags = a.flags();
    let at = resume_end(flags);
    let plain = private_bytes(opt_bytes(a.hash), a.meta);
    lemma_le_len(c.flags as nat, 4);
    lemma_le_len(c.size as nat, 8);
    lemma_le_len(c.streams as nat, 4);
    lemma_le_len(c.resume_from as nat, 8);
    lemma_fixed_fields(a, salt, sealed, b);
    lemma_private_len(opt_bytes(a.hash), a.meta);
    assert(fixed_bytes(c.flags, c.size, c.streams).len() == 20);
    assert((fixed_bytes(c.flags, c.size, c.streams) + resume_bytes(c.resume_from)).len() == at);
    if a.crypt {
        lemma_pow256();
        lemma_le_roundtrip(sealed.len(), 4);
        assert(b.subrange(at, at + 32) =~= salt);
        assert(b.subrange(at + 32, at + 36) =~= le(sealed.len(), 4));
        assert(b.subrange(at + 36, at + 36 + sealed.len()) =~= sealed);
        assert(plain.subrange(0, plain.len() as int) =~= plain);
        lemma_private_fields(flags, opt_bytes(a.hash), a.meta, plain, 0);
    } else {
        assert(b.subrange(at, at + plain.len()) =~= plain);
        lemma_private_fields(flags, opt_bytes(a.hash), a.meta, b, at);
    }
}

/// While a header is incomplete, a sink that belongs to the source asks for
/// more bytes, and for no more than the header still has.
pub proof fn lemma_header_prefix(
    p: SourcePlan,
    a: Announcement,
    psk: Option<[u8; 32]>,
    salt: Seq<u8>,
    side: SinkSide,
    k: int,
)
    requires
        is_plan(p, a, psk, salt),
        0 < a.streams <= MAX_STREAMS,
        salt.len() == 32,
        peers(a, psk, side),
        0 <= k < p.header@.len(),
    ensures
        reading(p.header@.take(k), side) matches Ok(Reading::More(n)) && 0 < n && k + n
            <= p.header@.len(),
{
    let sealed = sealed_part(p, a);
    let c = a.control(salt);
    let b = p.header@.take(k);
    let flags = a.flags();
    let at = resume_end(flags);
    let plain = private_bytes(opt_bytes(a.hash), a.meta);
    lemma_le_len(c.flags as nat, 4);
    lemma_le_len(c.size as nat, 8);
    lemma_le_len(c.streams as nat, 4);
    lemma_le_len(c.resume_from as nat, 8);
    lemma_le_len(sealed.len(), 4);
    lemma_private_len(opt_bytes(a.hash), a.meta);
    lemma_flag_word(a.hash is Some, a.crypt, a.resume_from > 0, a.meta is Some);
    assert((fixed_bytes(c.flags, c.size, c.streams) + resume_bytes(c.resume_from)).len() == at);
    if k >= 4 {
        lemma_fixed_fields(a, salt, sealed, b);
        if a.crypt && k >= at + 36 {
            lemma_pow256();
            lemma_le_roundtrip(sealed.len(), 4);
            assert(b.subrange(at + 32, at + 36) =~= le(sealed.len(), 4));
        }
    }
}

} // verus!
