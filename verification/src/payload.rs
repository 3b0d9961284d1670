//! The payload of one stream: raw bytes, or sealed frames.

use crate::crypto::{
    aead_decrypt, aead_encrypt, chacha_open, chacha_seal, lemma_nonce_distinct, nonce_bytes,
    CONTROL_COUNTER,
};
use crate::text::{dec, dec_text};
use crate::wire::{le, le_value, lemma_le_roundtrip, lemma_pow256, write_u32};
use vstd::prelude::*;
use vstd::slice::slice_to_vec;

verus! {

/// Most bytes handled at a time in clear.
pub const CHUNK: usize = 1048576;

/// Most bytes sealed into one frame.
pub const CRYPT_PT: usize = 65536;

/// Longest sealed frame that a receiver accepts.
pub const MAX_FRAME: usize = 65616;

pub open spec fn min_nat(a: nat, b: nat) -> nat {
    if a <= b {
        a
    } else {
        b
    }
}

/// Where a stream stands in its range.
pub struct Cursor {
    /// Offset of the next byte in the file.
    pub off: u64,
    /// Bytes still to come.
    pub left: u64,
    /// Number of the next sealed frame.
    pub counter: u64,
}

/// Key and associated data of sealed frames, as values.
pub open spec fn seal_view(seal: Option<(&[u8; 32], &[u8])>) -> Option<(Seq<u8>, Seq<u8>)> {
    match seal {
        Some(s) => Some((s.0@, s.1@)),
        None => None,
    }
}

/// A sealed frame behind its length.
pub open spec fn frame(sealed: Seq<u8>) -> Seq<u8> {
    le(sealed.len(), 4) + sealed
}

/// What one chunk looks like on the wire.
pub open spec fn chunk_wire(
    chunk: Seq<u8>,
    counter: nat,
    stream_id: u32,
    seal: Option<(Seq<u8>, Seq<u8>)>,
) -> Seq<u8> {
    match seal {
        None => chunk,
        Some(s) => frame(chacha_seal(s.0, nonce_bytes(stream_id, counter as u64), chunk, s.1)),
    }
}

/// Largest chunk: a frame's worth if sealed.
pub open spec fn chunk_limit(sealed: bool) -> nat {
    if sealed {
        CRYPT_PT as nat
    } else {
        CHUNK as nat
    }
}

/// What the bytes of a range look like on the wire, chunk after chunk.
pub open spec fn sent(
    data: Seq<u8>,
    counter: nat,
    stream_id: u32,
    seal: Option<(Seq<u8>, Seq<u8>)>,
) -> Seq<u8>
    decreases data.len(),
{
    if data.len() == 0 {
        Seq::empty()
    } else {
        let n = min_nat(data.len(), chunk_limit(seal is Some)) as int;
        chunk_wire(data.take(n), counter, stream_id, seal) + sent(
            data.skip(n),
            counter + 1,
            stream_id,
            seal,
        )
    }
}

/// Failure to read as many bytes as a stream owes.
pub open spec fn read_short(stream_id: u32) -> Seq<char> {
    "stream "@ + dec(stream_id as nat) + " read: failed to fill whole buffer"@
}

/// What is received from the wire for a range of `left` bytes.
pub open spec fn received(
    w: Seq<u8>,
    left: nat,
    counter: nat,
    stream_id: u32,
    seal: Option<(Seq<u8>, Seq<u8>)>,
) -> Result<Seq<u8>, Seq<char>>
    decreases w.len(),
{
    if left == 0 {
        Ok(Seq::empty())
    } else {
        match seal {
            None => {
                let n = min_nat(left, CHUNK as nat) as int;
                if w.len() < n {
                    Err(read_short(stream_id))
                } else {
                    match received(w.skip(n), (left - n) as nat, counter, stream_id, seal) {
                        Ok(t) => Ok(w.take(n) + t),
                        Err(e) => Err(e),
                    }
                }
            },
            Some(s) => {
                let n = le_value(w.take(4)) as int;
                if w.len() < 4 {
                    Err(read_short(stream_id))
                } else if n > MAX_FRAME {
                    Err("bad ciphertext len "@ + dec(n as nat))
                } else if w.len() < 4 + n {
                    Err(read_short(stream_id))
                } else {
                    match opened_frame(w.subrange(4, 4 + n), left, counter, stream_id, s) {
                        Err(e) => Err(e),
                        Ok(p) => match received(
                            w.skip(4 + n),
                            (left - p.len()) as nat,
                            counter + 1,
                            stream_id,
                            seal,
                        ) {
                            Ok(t) => Ok(p + t),
                            Err(e) => Err(e),
                        },
                    }
                }
            },
        }
    }
}

/// What a sealed frame holds, if it may be written.
pub open spec fn opened_frame(
    ct: Seq<u8>,
    left: nat,
    counter: nat,
    stream_id: u32,
    seal: (Seq<u8>, Seq<u8>),
) -> Result<Seq<u8>, Seq<char>> {
    match chacha_open(seal.0, nonce_bytes(stream_id, counter as u64), ct, seal.1) {
        None => Err("decrypt failed (wrong key or corrupt)"@),
        Some(p) => if p.len() > left {
            Err("decrypt oversize"@)
        } else {
            Ok(p)
        },
    }
}

impl Cursor {
    /// Offsets do not run over, and every byte still to come can have a frame
    /// of its own without reaching the counter of the control fields.
    pub open spec fn sendable(self) -> bool {
        &&& self.off + self.left <= u64::MAX
        &&& self.counter + self.left <= CONTROL_COUNTER
    }

    /// The cursor past `n` bytes more, which take a frame if they are sealed.
    pub open spec fn past(self, n: nat, sealed: bool) -> Cursor {
        Cursor {
            off: (self.off + n) as u64,
            left: (self.left - n) as u64,
            counter: (self.counter + if sealed {
                1int
            } else {
                0
            }) as u64,
        }
    }

    /// The start of a range.
    pub fn start(start: u64, end: u64) -> (c: Cursor)
        requires
            start <= end,
        ensures
            c.off == start,
            c.left == end - start,
            c.counter == 0,
            c.sendable(),
    {
        Cursor { off: start, left: end - start, counter: 0 }
    }

    /// Size of the next chunk to send.
    pub fn send_size(&self, sealed: bool) -> (n: usize)
        ensures
            n == min_nat(self.left as nat, chunk_limit(sealed)),
    {
        let limit: usize = if sealed {
            CRYPT_PT
        } else {
            CHUNK
        };
        if self.left < limit as u64 {
            self.left as usize
        } else {
            limit
        }
    }

    /// Puts the next chunk on the wire and moves on.
    pub fn send_chunk(
        &mut self,
        stream_id: u32,
        seal: Option<(&[u8; 32], &[u8])>,
        chunk: &[u8],
    ) -> (r: Result<Vec<u8>, String>)
        requires
            old(self).sendable(),
            0 < chunk@.len() <= old(self).left,
            seal is Some ==> chunk@.len() <= CRYPT_PT,
        ensures
            r is Ok,
            r matches Ok(w) ==> w@ == chunk_wire(
                chunk@,
                old(self).counter as nat,
                stream_id,
                seal_view(seal),
            ),
            r matches Ok(w) ==> (seal matches Some(s) ==> {
                let nonce = nonce_bytes(stream_id, old(self).counter);
                let ct = chacha_seal(s.0@, nonce, chunk@, s.1@);
                ct.len() == chunk@.len() + 16 && chacha_open(s.0@, nonce, ct, s.1@) == Some(chunk@)
            }),
            final(self).off == old(self).off + chunk@.len(),
            final(self).left == old(self).left - chunk@.len(),
            final(self).counter == old(self).counter + if seal is Some {
                1int
            } else {
                0
            },
            final(self).sendable(),
    {
        let n: u64 = chunk.len() as u64;
        match seal {
            Some((key, aad)) => {
                let r: Result<Vec<u8>, String> = aead_encrypt(
                    key,
                    stream_id,
                    self.counter,
                    chunk,
                    aad,
                );
                self.off = self.off + n;
                self.left = self.left - n;
                self.counter = self.counter + 1;
                match r {
                    Err(e) => Err(e),
                    Ok(ct) => {
                        let mut w: Vec<u8> = Vec::new();
                        write_u32(&mut w, ct.len() as u32);
                        w.extend_from_slice(ct.as_slice());
                        assert(w@ =~= frame(ct@));
                        Ok(w)
                    },
                }
            },
            None => {
                self.off = self.off + n;
                self.left = self.left - n;
                Ok(slice_to_vec(chunk))
            },
        }
    }

    /// Number of bytes to read next in clear.
    pub fn recv_size(&self) -> (n: usize)
        ensures
            n == min_nat(self.left as nat, CHUNK as nat),
    {
        self.send_size(false)
    }

    /// Moves on after `n` bytes in clear.
    pub fn recv_clear(&mut self, n: usize)
        requires
            n <= old(self).left,
            old(self).off + old(self).left <= u64::MAX,
        ensures
            final(self).off == old(self).off + n,
            final(self).left == old(self).left - n,
            final(self).counter == old(self).counter,
    {
        self.off = self.off + n as u64;
        self.left = self.left - n as u64;
    }

    /// Opens the next sealed frame and moves on past what it holds.
    pub fn recv_sealed(
        &mut self,
        stream_id: u32,
        key: &[u8; 32],
        aad: &[u8],
        ct: &[u8],
    ) -> (r: Result<Vec<u8>, String>)
        requires
            ct@.len() <= MAX_FRAME,
            old(self).counter < u64::MAX,
            old(self).off + old(self).left <= u64::MAX,
        ensures
            match r {
                Ok(p) => {
                    &&& opened_frame(
                        ct@,
                        old(self).left as nat,
                        old(self).counter as nat,
                        stream_id,
                        (key@, aad@),
                    ) == Ok::<Seq<u8>, Seq<char>>(p@)
                    &&& final(self).off == old(self).off + p@.len()
                    &&& final(self).left == old(self).left - p@.len()
                    &&& final(self).counter == old(self).counter + 1
                },
                Err(e) => opened_frame(
                    ct@,
                    old(self).left as nat,
                    old(self).counter as nat,
                    stream_id,
                    (key@, aad@),
                ) == Err::<Seq<u8>, Seq<char>>(e@) && *final(self) == *old(self),
            },
    {
        let p: Vec<u8> = aead_decrypt(key, stream_id, self.counter, ct, aad)?;
        let n: u64 = p.len() as u64;
        if n > self.left {
            return Err("decrypt oversize".to_owned());
        }
        self.off = self.off + n;
        self.left = self.left - n;
        self.counter = self.counter + 1;
        Ok(p)
    }
}

/// Accepts the announced length of a sealed frame.
pub fn frame_len(clen: u32) -> (r: Result<usize, String>)
    ensures
        r is Ok <==> clen <= MAX_FRAME,
        r matches Ok(n) ==> n == clen,
        r matches Err(e) ==> e@ == "bad ciphertext len "@ + dec(clen as nat),
{
    if clen > MAX_FRAME as u32 {
        let mut m: String = "bad ciphertext len ".to_owned();
        m.append(dec_text(clen as u64).as_str());
        Err(m)
    } else {
        Ok(clen as usize)
    }
}

pub(crate) fn short_read(stream_id: u32) -> (r: String)
    ensures
        r@ == read_short(stream_id),
{
    let mut m: String = "stream ".to_owned();
    m.append(dec_text(stream_id as u64).as_str());
    m.append(" read: failed to fill whole buffer");
    m
}

/// Every frame that a range is sent in opens again to its chunk.
pub open spec fn frames_open(
    data: Seq<u8>,
    counter: nat,
    stream_id: u32,
    seal: (Seq<u8>, Seq<u8>),
) -> bool
    decreases data.len(),
{
    data.len() == 0 || {
        let n = min_nat(data.len(), CRYPT_PT as nat) as int;
        let nonce = nonce_bytes(stream_id, counter as u64);
        let ct = chacha_seal(seal.0, nonce, data.take(n), seal.1);
        &&& ct.len() == n + 16
        &&& chacha_open(seal.0, nonce, ct, seal.1) == Some(data.take(n))
        &&& frames_open(data.skip(n), counter + 1, stream_id, seal)
    }
}

/// What is received of a range is what was sent, whatever follows it on the
/// wire.
pub proof fn lemma_payload_roundtrip(
    data: Seq<u8>,
    counter: nat,
    stream_id: u32,
    seal: Option<(Seq<u8>, Seq<u8>)>,
    rest: Seq<u8>,
)
    requires
        seal matches Some(s) ==> frames_open(data, counter, stream_id, s),
    ensures
        received(sent(data, counter, stream_id, seal) + rest, data.len(), counter, stream_id, seal)
            == Ok::<Seq<u8>, Seq<char>>(data),
    decreases data.len(),
{
    if data.len() > 0 {
        let n = min_nat(data.len(), chunk_limit(seal is Some)) as int;
        let w = sent(data, counter, stream_id, seal) + rest;
        let tail = data.skip(n);
        let more = sent(tail, counter + 1, stream_id, seal);
        assert(data.take(n) + tail =~= data);
        match seal {
            None => {
                lemma_clear_counter(tail, counter, counter + 1, stream_id);
                lemma_payload_roundtrip(tail, counter, stream_id, seal, rest);
                assert(w.take(n) =~= data.take(n));
                assert(w.skip(n) =~= more + rest);
            },
            Some(s) => {
                lemma_payload_roundtrip(tail, counter + 1, stream_id, seal, rest);
                let ct = chacha_seal(
                    s.0,
                    nonce_bytes(stream_id, counter as u64),
                    data.take(n),
                    s.1,
                );
                lemma_pow256();
                lemma_le_roundtrip(ct.len(), 4);
                assert(w.take(4) =~= le(ct.len(), 4));
                assert(w.subrange(4, 4 + ct.len() as int) =~= ct);
                assert(w.skip(4 + ct.len() as int) =~= more + rest);
            },
        }
    } else {
        assert(data =~= Seq::empty());
    }
}

/// A range that is received at all is received in full, and nothing beyond it.
pub proof fn lemma_received_len(
    w: Seq<u8>,
    left: nat,
    counter: nat,
    stream_id: u32,
    seal: Option<(Seq<u8>, Seq<u8>)>,
)
    ensures
        received(w, left, counter, stream_id, seal) matches Ok(v) ==> v.len() == left,
    decreases w.len(),
{
    if left > 0 {
        match seal {
            None => {
                let n = min_nat(left, CHUNK as nat) as int;
                if w.len() >= n {
                    lemma_received_len(w.skip(n), (left - n) as nat, counter, stream_id, seal);
                }
            },
            Some(s) => {
                let n = le_value(w.take(4)) as int;
                if w.len() >= 4 && n <= MAX_FRAME && w.len() >= 4 + n {
                    match opened_frame(w.subrange(4, 4 + n), left, counter, stream_id, s) {
                        Ok(p) => {
                            lemma_received_len(
                                w.skip(4 + n),
                                (left - p.len()) as nat,
                                counter + 1,
                                stream_id,
                                seal,
                            );
                        },
                        Err(_) => {},
                    }
                }
            },
        }
    }
}

/// Frames in clear do not depend on the counter.
proof fn lemma_clear_counter(data: Seq<u8>, a: nat, b: nat, stream_id: u32)
    ensures
        sent(data, a, stream_id, None) == sent(data, b, stream_id, None),
    decreases data.len(),
{
    if data.len() > 0 {
        let n = min_nat(data.len(), CHUNK as nat) as int;
        lemma_clear_counter(data.skip(n), a + 1, b + 1, stream_id);
    }
}

/// No frame of a payload has the nonce of the sealed control fields.
pub proof fn lemma_payload_nonce(c: Cursor, stream_id: u32)
    requires
        c.sendable(),
        c.left > 0,
    ensures
        nonce_bytes(stream_id, c.counter) != nonce_bytes(0, CONTROL_COUNTER),
{
    if nonce_bytes(stream_id, c.counter) == nonce_bytes(0, CONTROL_COUNTER) {
        lemma_nonce_distinct(stream_id, c.counter, 0, CONTROL_COUNTER);
    }
}

/// Pieces, one after the other.
pub open spec fn flat(pieces: Seq<Seq<u8>>) -> Seq<u8>
    decreases pieces.len(),
{
    if pieces.len() == 0 {
        Seq::empty()
    } else {
        pieces[0] + flat(pieces.skip(1))
    }
}

/// Pieces of the sizes in which `left` bytes are asked for, up to `limit` at a
/// time.
pub open spec fn as_asked(pieces: Seq<Seq<u8>>, left: nat, limit: nat) -> bool
    decreases pieces.len(),
{
    if left == 0 {
        pieces.len() == 0
    } else {
        &&& pieces.len() > 0
        &&& pieces[0].len() == min_nat(left, limit)
        &&& as_asked(pieces.skip(1), (left - pieces[0].len()) as nat, limit)
    }
}

/// What chunks look like on the wire, one written after the other.
pub open spec fn wires(
    chunks: Seq<Seq<u8>>,
    counter: nat,
    stream_id: u32,
    seal: Option<(Seq<u8>, Seq<u8>)>,
) -> Seq<u8>
    decreases chunks.len(),
{
    if chunks.len() == 0 {
        Seq::empty()
    } else {
        chunk_wire(chunks[0], counter, stream_id, seal) + wires(
            chunks.skip(1),
            counter + 1,
            stream_id,
            seal,
        )
    }
}

/// The chunks that a sending stream asks for and writes one by one make up the
/// wire of its whole range.
pub proof fn lemma_chunks_sent(
    chunks: Seq<Seq<u8>>,
    left: nat,
    counter: nat,
    stream_id: u32,
    seal: Option<(Seq<u8>, Seq<u8>)>,
)
    requires
        as_asked(chunks, left, chunk_limit(seal is Some)),
    ensures
        flat(chunks).len() == left,
        wires(chunks, counter, stream_id, seal) == sent(flat(chunks), counter, stream_id, seal),
    decreases chunks.len(),
{
    if left > 0 {
        let n = chunks[0].len() as int;
        lemma_chunks_sent(chunks.skip(1), (left - n) as nat, counter + 1, stream_id, seal);
        assert(flat(chunks).take(n) =~= chunks[0]);
        assert(flat(chunks).skip(n) =~= flat(chunks.skip(1)));
    }
}

} // verus!
