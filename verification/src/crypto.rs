//! Session keys, message authentication and sealing.

use crate::wire::{
    hex, hex_text, le, le_value, lemma_le_len, lemma_le_roundtrip, lemma_pow256, same_bytes, write_u32,
    write_u64,
};
use chacha20poly1305::aead::{Aead, KeyInit, Payload};
use vstd::prelude::*;

verus! {

/// Stream-id tag length.
pub const SID_TAG_LEN: usize = 16;

/// Reserved counter for sealed control fields (payload counters start at 0).
pub const CONTROL_COUNTER: u64 = 0xffff_ffff_ffff_ffff;

/// Longest message that fits the cipher's block counter: `u32::MAX - 1` blocks
/// of 64 bytes.
pub const MAX_MESSAGE: u64 = 0x3f_ffff_ff80;

/// The 32 bytes that `blake3::keyed_hash` gives for a key and a message.
pub uninterp spec fn blake3_keyed(key: Seq<u8>, msg: Seq<u8>) -> Seq<u8>;

/// The 32 bytes that BLAKE3 gives for a message without a key.
pub uninterp spec fn blake3_digest(msg: Seq<u8>) -> Seq<u8>;

/// The bytes a hasher has been given so far, in order.
pub uninterp spec fn hashed(h: blake3::Hasher) -> Seq<u8>;

/// What ChaCha20-Poly1305 makes of a message: the encrypted bytes followed by
/// the tag.
pub uninterp spec fn chacha_seal(
    key: Seq<u8>,
    nonce: Seq<u8>,
    msg: Seq<u8>,
    aad: Seq<u8>,
) -> Seq<u8>;

/// What ChaCha20-Poly1305 finds in a sealed message: the message, if the tag is
/// right.
pub uninterp spec fn chacha_open(
    key: Seq<u8>,
    nonce: Seq<u8>,
    sealed: Seq<u8>,
    aad: Seq<u8>,
) -> Option<Seq<u8>>;

/// The error of the AEAD crate, which carries no information.
#[verifier::external_type_specification]
#[verifier::external_body]
pub struct ExAeadError(chacha20poly1305::Error);

/// The error of the random source.
#[verifier::external_type_specification]
#[verifier::external_body]
pub struct ExRandomError(getrandom::Error);

/// The incremental hasher of the hashing crate.
#[verifier::external_type_specification]
#[verifier::external_body]
pub struct ExHasher(blake3::Hasher);

/// Calls `blake3::keyed_hash`: the digest is a function of key and message.
#[verifier::external_body]
fn keyed_hash(key: &[u8; 32], msg: &[u8]) -> (r: [u8; 32])
    ensures
        r@ == blake3_keyed(key@, msg@),
{
    *blake3::keyed_hash(key, msg).as_bytes()
}

/// Calls `blake3::Hasher::new`: a hasher that has been given nothing.
#[verifier::external_body]
fn hasher_new() -> (h: blake3::Hasher)
    ensures
        hashed(h) == Seq::<u8>::empty(),
{
    blake3::Hasher::new()
}

/// Calls `blake3::Hasher::update`: the bytes follow those given before.
#[verifier::external_body]
fn hasher_update(h: &mut blake3::Hasher, data: &[u8])
    ensures
        hashed(*final(h)) == hashed(*old(h)) + data@,
{
    h.update(data);
}

/// Calls `blake3::Hasher::finalize`: the digest of the bytes given so far.
#[verifier::external_body]
fn hasher_finalize(h: &blake3::Hasher) -> (r: [u8; 32])
    ensures
        r@ == blake3_digest(hashed(*h)),
{
    *h.finalize().as_bytes()
}

/// Calls `getrandom::getrandom` for 32 bytes. Nothing is claimed of them, nor
/// of when the system refuses.
#[verifier::external_body]
fn random_bytes() -> (r: Result<[u8; 32], getrandom::Error>) {
    let mut k = [0u8; 32];
    getrandom::getrandom(&mut k)?;
    Ok(k)
}

/// A message that the cipher takes without running out of blocks or of
/// addressable memory.
pub open spec fn sealable(n: nat) -> bool {
    n <= MAX_MESSAGE && n + 16 <= isize::MAX
}

/// Calls `ChaCha20Poly1305::new_from_slice` and `Aead::encrypt`. For a message
/// of admitted length it succeeds, adds the 16 bytes of the tag, and what it
/// gives opens again to the message under the same key, nonce and associated
/// data.
#[verifier::external_body]
fn chacha_encrypt(key: &[u8; 32], nonce: &[u8; 12], msg: &[u8], aad: &[u8]) -> (r: Result<
    Vec<u8>,
    chacha20poly1305::Error,
>)
    requires
        sealable(msg@.len()),
    ensures
        r is Ok,
        r matches Ok(ct) ==> ct@ == chacha_seal(key@, nonce@, msg@, aad@),
        r matches Ok(ct) ==> ct@.len() == msg@.len() + 16,
        r matches Ok(ct) ==> chacha_open(key@, nonce@, ct@, aad@) == Some(msg@),
{
    let c = chacha20poly1305::ChaCha20Poly1305::new_from_slice(key).map_err(
        |_| chacha20poly1305::Error,
    )?;
    c.encrypt(chacha20poly1305::Nonce::from_slice(nonce), Payload { msg, aad })
}

/// Calls `ChaCha20Poly1305::new_from_slice` and `Aead::decrypt`. The message it
/// gives is 16 bytes shorter than the sealed bytes.
#[verifier::external_body]
fn chacha_decrypt(key: &[u8; 32], nonce: &[u8; 12], sealed: &[u8], aad: &[u8]) -> (r: Result<
    Vec<u8>,
    chacha20poly1305::Error,
>)
    requires
        sealed@.len() <= MAX_MESSAGE + 16,
    ensures
        match r {
            Ok(pt) => chacha_open(key@, nonce@, sealed@, aad@) == Some(pt@),
            Err(_) => chacha_open(key@, nonce@, sealed@, aad@) is None,
        },
        r matches Ok(pt) ==> sealed@.len() == pt@.len() + 16,
{
    let c = chacha20poly1305::ChaCha20Poly1305::new_from_slice(key).map_err(
        |_| chacha20poly1305::Error,
    )?;
    c.decrypt(chacha20poly1305::Nonce::from_slice(nonce), Payload { msg: sealed, aad })
}

/// A fresh session key or salt. Fails, with the name of the source, when the
/// system has no random bytes to give. Which bytes come, and when the system has
/// none, is left to the system; `drawn_key` says what is made of either.
pub fn gen_key() -> (r: Result<[u8; 32], String>)
    ensures
        r matches Err(e) ==> e@ == "getrandom"@,
{
    drawn_key(random_bytes())
}

/// What becomes of an attempt to draw random bytes: the bytes as they were
/// drawn, or the name of the source that refused.
pub fn drawn_key(drawn: Result<[u8; 32], getrandom::Error>) -> (r: Result<[u8; 32], String>)
    ensures
        match drawn {
            Ok(k) => r == Ok::<[u8; 32], String>(k),
            Err(_) => r matches Err(e) && e@ == "getrandom"@,
        },
{
    match drawn {
        Ok(k) => Ok(k),
        Err(_) => Err("getrandom".to_owned()),
    }
}

/// The sealing key of one transfer, from the shared key and the salt of the
/// transfer, so that a shared key used twice never repeats a nonce.
pub fn derive_aead_key(psk: &[u8; 32], salt: &[u8; 32]) -> (r: [u8; 32])
    ensures
        r@ == blake3_keyed(psk@, salt@),
{
    keyed_hash(psk, salt)
}

/// The message under a stream-id tag.
pub open spec fn sid_message(id: u32) -> Seq<u8> {
    seq![83u8, 73, 68, 0] + le(id as nat, 4)
}

/// The tag that a dialer sends after the id of a stream: the first bytes of the
/// keyed hash of `SID`, a zero byte and the id.
pub open spec fn sid_tag(psk: Seq<u8>, id: u32) -> Seq<u8> {
    blake3_keyed(psk, sid_message(id)).take(SID_TAG_LEN as int)
}

pub fn stream_id_tag(psk: &[u8; 32], id: u32) -> (r: [u8; 16])
    ensures
        r@ == sid_tag(psk@, id),
{
    let mut msg: Vec<u8> = vec![83, 73, 68, 0];
    assert(msg@ =~= seq![83u8, 73, 68, 0]);
    write_u32(&mut msg, id);
    let h: [u8; 32] = keyed_hash(psk, msg.as_slice());
    let mut tag: [u8; 16] = [0;16];
    let mut i: usize = 0;
    while i < 16
        invariant
            i <= 16,
            forall|k: int| 0 <= k < i ==> tag@[k] == h@[k],
        decreases 16 - i,
    {
        tag[i] = h[i];
        i += 1;
    }
    assert(tag@ =~= h@.take(16));
    tag
}

/// Header fields that every sealed message of a transfer is bound to.
pub open spec fn aad_bytes(
    flags: u32,
    size: u64,
    streams: u32,
    resume_from: u64,
    salt: Seq<u8>,
) -> Seq<u8> {
    le(flags as nat, 4) + le(size as nat, 8) + le(streams as nat, 4) + le(resume_from as nat, 8)
        + salt
}

/// Associated data of every sealed message of a transfer.
pub fn frame_aad(flags: u32, size: u64, streams: u32, resume_from: u64, salt: &[u8; 32]) -> (v: Vec<
    u8,
>)
    ensures
        v@ == aad_bytes(flags, size, streams, resume_from, salt@),
{
    let mut v: Vec<u8> = Vec::new();
    write_u32(&mut v, flags);
    assert(v@ =~= le(flags as nat, 4));
    write_u64(&mut v, size);
    write_u32(&mut v, streams);
    write_u64(&mut v, resume_from);
    v.extend_from_slice(salt);
    assert(v@ =~= aad_bytes(flags, size, streams, resume_from, salt@));
    v
}

/// Stream id and counter as a nonce.
pub open spec fn nonce_bytes(stream_id: u32, counter: u64) -> Seq<u8> {
    le(stream_id as nat, 4) + le(counter as nat, 8)
}

pub fn make_nonce(stream_id: u32, counter: u64) -> (r: [u8; 12])
    ensures
        r@ == nonce_bytes(stream_id, counter),
{
    let mut v: Vec<u8> = Vec::new();
    write_u32(&mut v, stream_id);
    write_u64(&mut v, counter);
    proof {
        lemma_le_len(stream_id as nat, 4);
        lemma_le_len(counter as nat, 8);
    }
    assert(v@ =~= nonce_bytes(stream_id, counter));
    let mut n: [u8; 12] = [0;12];
    let mut i: usize = 0;
    while i < 12
        invariant
            i <= 12,
            v@.len() == 12,
            forall|k: int| 0 <= k < i ==> n@[k] == v@[k],
        decreases 12 - i,
    {
        n[i] = v[i];
        i += 1;
    }
    assert(n@ =~= v@);
    n
}

/// No two pairs of stream id and counter share a nonce.
pub proof fn lemma_nonce_distinct(a: u32, i: u64, b: u32, j: u64)
    requires
        nonce_bytes(a, i) == nonce_bytes(b, j),
    ensures
        a == b,
        i == j,
{
    lemma_pow256();
    lemma_le_roundtrip(a as nat, 4);
    lemma_le_roundtrip(b as nat, 4);
    lemma_le_roundtrip(i as nat, 8);
    lemma_le_roundtrip(j as nat, 8);
    assert(nonce_bytes(a, i).take(4) =~= le(a as nat, 4));
    assert(nonce_bytes(b, j).take(4) =~= le(b as nat, 4));
    assert(nonce_bytes(a, i).skip(4) =~= le(i as nat, 8));
    assert(nonce_bytes(b, j).skip(4) =~= le(j as nat, 8));
}

/// Associated data are the same only if every header field and the salt are.
pub proof fn lemma_aad_binds(
    flags: u32,
    size: u64,
    streams: u32,
    resume_from: u64,
    salt: Seq<u8>,
    flags2: u32,
    size2: u64,
    streams2: u32,
    resume_from2: u64,
    salt2: Seq<u8>,
)
    requires
        aad_bytes(flags, size, streams, resume_from, salt) == aad_bytes(
            flags2,
            size2,
            streams2,
            resume_from2,
            salt2,
        ),
    ensures
        flags == flags2,
        size == size2,
        streams == streams2,
        resume_from == resume_from2,
        salt == salt2,
{
    lemma_aad_fields(flags, size, streams, resume_from, salt);
    lemma_aad_fields(flags2, size2, streams2, resume_from2, salt2);
}

proof fn lemma_aad_fields(flags: u32, size: u64, streams: u32, resume_from: u64, salt: Seq<u8>)
    ensures
        ({
            let b = aad_bytes(flags, size, streams, resume_from, salt);
            &&& b.len() == 24 + salt.len()
            &&& le_value(b.subrange(0, 4)) == flags
            &&& le_value(b.subrange(4, 12)) == size
            &&& le_value(b.subrange(12, 16)) == streams
            &&& le_value(b.subrange(16, 24)) == resume_from
            &&& b.skip(24) == salt
        }),
{
    let b = aad_bytes(flags, size, streams, resume_from, salt);
    lemma_pow256();
    lemma_le_roundtrip(flags as nat, 4);
    lemma_le_roundtrip(size as nat, 8);
    lemma_le_roundtrip(streams as nat, 4);
    lemma_le_roundtrip(resume_from as nat, 8);
    assert(b.subrange(0, 4) =~= le(flags as nat, 4));
    assert(b.subrange(4, 12) =~= le(size as nat, 8));
    assert(b.subrange(12, 16) =~= le(streams as nat, 4));
    assert(b.subrange(16, 24) =~= le(resume_from as nat, 8));
    assert(b.skip(24) =~= salt);
}

/// Seals a message under a stream id and a counter.
pub fn aead_encrypt(
    key: &[u8; 32],
    stream_id: u32,
    counter: u64,
    plaintext: &[u8],
    aad: &[u8],
) -> (r: Result<Vec<u8>, String>)
    requires
        sealable(plaintext@.len()),
    ensures
        r matches Ok(ct) && ct@ == chacha_seal(
            key@,
            nonce_bytes(stream_id, counter),
            plaintext@,
            aad@,
        ),
        r matches Ok(ct) && ct@.len() == plaintext@.len() + 16,
        r matches Ok(ct) && chacha_open(key@, nonce_bytes(stream_id, counter), ct@, aad@) == Some(
            plaintext@,
        ),
{
    match chacha_encrypt(key, &make_nonce(stream_id, counter), plaintext, aad) {
        Ok(ct) => Ok(ct),
        Err(_) => Err("encrypt failed".to_owned()),
    }
}

/// Opens a message sealed under a stream id and a counter.
pub fn aead_decrypt(
    key: &[u8; 32],
    stream_id: u32,
    counter: u64,
    ciphertext: &[u8],
    aad: &[u8],
) -> (r: Result<Vec<u8>, String>)
    requires
        ciphertext@.len() <= MAX_MESSAGE + 16,
    ensures
        match r {
            Ok(pt) => chacha_open(key@, nonce_bytes(stream_id, counter), ciphertext@, aad@) == Some(
                pt@,
            ),
            Err(e) => {
                &&& chacha_open(key@, nonce_bytes(stream_id, counter), ciphertext@, aad@) is None
                &&& e@ == "decrypt failed (wrong key or corrupt)"@
            },
        },
        r matches Ok(pt) ==> ciphertext@.len() == pt@.len() + 16,
{
    match chacha_decrypt(key, &make_nonce(stream_id, counter), ciphertext, aad) {
        Ok(pt) => Ok(pt),
        Err(_) => Err("decrypt failed (wrong key or corrupt)".to_owned()),
    }
}

/// The digest of a file under construction, one chunk after the other.
pub struct FileHash {
    hasher: blake3::Hasher,
}

impl FileHash {
    /// The bytes given so far.
    pub closed spec fn fed(&self) -> Seq<u8> {
        hashed(self.hasher)
    }

    pub fn start() -> (h: FileHash)
        ensures
            h.fed() == Seq::<u8>::empty(),
    {
        FileHash { hasher: hasher_new() }
    }

    /// Takes the next chunk.
    pub fn feed(&mut self, chunk: &[u8])
        ensures
            final(self).fed() == old(self).fed() + chunk@,
    {
        hasher_update(&mut self.hasher, chunk);
    }

    /// Digest of all chunks taken, joined in order.
    pub fn digest(&self) -> (r: [u8; 32])
        ensures
            r@ == blake3_digest(self.fed()),
    {
        hasher_finalize(&self.hasher)
    }
}

/// Holds the digest of the received file against the one announced.
pub fn check_digest(expected: &[u8; 32], got: &[u8; 32]) -> (r: Result<(), String>)
    ensures
        r is Ok <==> expected@ == got@,
        r matches Err(e) ==> e@ == "checksum mismatch: expected "@ + hex_text(expected@) + " got "@
            + hex_text(got@),
{
    if same_bytes(expected, got) {
        Ok(())
    } else {
        let mut m: String = "checksum mismatch: expected ".to_owned();
        m.append(hex(expected).as_str());
        m.append(" got ");
        m.append(hex(got).as_str());
        Err(m)
    }
}

} // verus!
