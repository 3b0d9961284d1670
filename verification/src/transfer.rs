//! What a whole transfer comes to.

use crate::control::{
    is_plan, lemma_header_roundtrip, peers, reading, Announcement, Control, Reading, SinkSide,
    SourcePlan, MAX_STREAMS,
};
use crate::crypto::{aad_bytes, blake3_digest, blake3_keyed};
use crate::payload::{frames_open, lemma_payload_roundtrip, received, sent};
use crate::sink::lemma_file_complete;
use vstd::prelude::*;

verus! {

/// Key and associated data of the frames of a source.
pub open spec fn source_seal(p: SourcePlan) -> Option<(Seq<u8>, Seq<u8>)> {
    match p.seal {
        Some(s) => Some((s.0@, s.1@)),
        None => None,
    }
}

/// Key and associated data that a sink comes to from a header.
pub open spec fn sink_seal(c: Control, side: SinkSide) -> Option<(Seq<u8>, Seq<u8>)> {
    match c.salt {
        Some(salt) => Some(
            (
                blake3_keyed(side.key->0@, salt),
                aad_bytes(c.flags, c.size, c.streams, c.resume_from, salt),
            ),
        ),
        None => None,
    }
}

/// The part of the file that goes over stream `i`.
pub open spec fn part(file: Seq<u8>, p: SourcePlan, i: int) -> Seq<u8> {
    file.subrange(p.ranges@[i].0 as int, p.ranges@[i].1 as int)
}

/// What a source sends over stream `i` behind the header.
pub open spec fn stream_payload(file: Seq<u8>, p: SourcePlan, i: int) -> Seq<u8> {
    sent(part(file, p, i), 0, i as u32, source_seal(p))
}

/// A sink that belongs to a source reads the announced header from stream 0,
/// receives over every stream the part of the file that was sent over it, and
/// if it writes the parts at their places behind the prefix at hand, it ends up
/// with the file of the source, whose digest is the one announced. `got` is the
/// file that the sink ends up with.
pub proof fn lemma_transfer(
    file: Seq<u8>,
    p: SourcePlan,
    a: Announcement,
    psk: Option<[u8; 32]>,
    salt: Seq<u8>,
    side: SinkSide,
    got: Seq<u8>,
)
    requires
        is_plan(p, a, psk, salt),
        0 < a.streams <= MAX_STREAMS,
        salt.len() == 32,
        peers(a, psk, side),
        a.size == file.len(),
        a.hash matches Some(h) ==> h@ == blake3_digest(file),
        forall|i: int|
            0 <= i < a.streams ==> (source_seal(p) matches Some(s) ==> frames_open(
                #[trigger] part(file, p, i),
                0,
                i as u32,
                s,
            )),
        got.len() == file.len(),
        got.take(a.resume_from as int) == file.take(a.resume_from as int),
        forall|i: int|
            0 <= i < a.streams ==> (received(
                #[trigger] stream_payload(file, p, i),
                part(file, p, i).len(),
                0,
                i as u32,
                sink_seal(a.control(salt), side),
            ) matches Ok(t) ==> got.subrange(p.ranges@[i].0 as int, p.ranges@[i].1 as int) == t),
    ensures
        reading(p.header@ + stream_payload(file, p, 0), side) == Ok::<Reading, Seq<char>>(
            Reading::Done(a.control(salt)),
        ),
        forall|i: int|
            0 <= i < a.streams ==> received(
                #[trigger] stream_payload(file, p, i),
                part(file, p, i).len(),
                0,
                i as u32,
                sink_seal(a.control(salt), side),
            ) == Ok::<Seq<u8>, Seq<char>>(part(file, p, i)),
        got == file,
        a.hash matches Some(h) ==> blake3_digest(got) == h@,
{
    lemma_header_roundtrip(p, a, psk, salt, side, stream_payload(file, p, 0));
    assert(sink_seal(a.control(salt), side) == source_seal(p));
    assert forall|i: int| 0 <= i < a.streams implies received(
        #[trigger] stream_payload(file, p, i),
        part(file, p, i).len(),
        0,
        i as u32,
        sink_seal(a.control(salt), side),
    ) == Ok::<Seq<u8>, Seq<char>>(part(file, p, i)) by {
        let w = stream_payload(file, p, i);
        lemma_payload_roundtrip(part(file, p, i), 0, i as u32, source_seal(p), Seq::empty());
        assert(w + Seq::<u8>::empty() =~= w);
    }
    assert forall|i: int| 0 <= i < a.streams implies got.subrange(
        (#[trigger] p.ranges@[i]).0 as int,
        p.ranges@[i].1 as int,
    ) == file.subrange(p.ranges@[i].0 as int, p.ranges@[i].1 as int) by {
        let w = stream_payload(file, p, i);
        assert(received(w, part(file, p, i).len(), 0, i as u32, sink_seal(a.control(salt), side))
            == Ok::<Seq<u8>, Seq<char>>(part(file, p, i)));
    }
    lemma_file_complete(file, got, p.ranges@, a.resume_from as nat, a.streams as nat);
}

} // verus!
