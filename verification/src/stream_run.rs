//! Streams at work: the next thing to do after each event, and what whole runs
//! come to.

use crate::crypto::{chacha_open, chacha_seal, nonce_bytes};
use crate::liveness::{abort_text, io_err, io_text, stream_aborted};
use crate::payload::{
    as_asked, chunk_limit, chunk_wire, flat, frame_len, frames_open, lemma_chunks_sent,
    lemma_payload_roundtrip, min_nat, opened_frame, received, seal_view, sent, short_read, wires,
    Cursor, CHUNK, MAX_FRAME,
};
use crate::text::dec;
use crate::wire::{le, lemma_le_roundtrip, lemma_pow256, read_u32};
use vstd::prelude::*;
use vstd::slice::{slice_subrange, slice_to_vec};

verus! {

/// Where a sending stream stands.
pub enum SendStage {
    /// Between two chunks.
    Ready,
    /// The next chunk is read from the file.
    Reading,
    /// The chunk is written to the wire.
    Writing,
    /// Nothing more is done.
    Ended,
}

/// What a sending stream has met with.
pub enum SendEvent<'a> {
    /// The stream can go on; a sibling has failed, or not.
    Ready { aborted: bool },
    /// The chunk that was asked for.
    Data(&'a [u8]),
    ReadFailed(&'a str),
    WriteFailed(&'a str),
}

/// What a sending stream has met with, as a value.
pub enum SendInput {
    Ready { aborted: bool },
    Data(Seq<u8>),
    ReadFailed(Seq<char>),
    WriteFailed(Seq<char>),
}

impl<'a> View for SendEvent<'a> {
    type V = SendInput;

    open spec fn view(&self) -> SendInput {
        match *self {
            SendEvent::Ready { aborted } => SendInput::Ready { aborted },
            SendEvent::Data(chunk) => SendInput::Data(chunk@),
            SendEvent::ReadFailed(e) => SendInput::ReadFailed(e@),
            SendEvent::WriteFailed(e) => SendInput::WriteFailed(e@),
        }
    }
}

/// What a sending stream is to do next.
pub enum SendAction {
    /// Read as many bytes of the file from an offset.
    Read(u64, usize),
    /// Write to the wire.
    Write(Vec<u8>),
    Finish,
    Fail(String),
}

/// What a sending stream is to do next, as a value.
pub enum SendStep {
    Read(int, nat),
    Write(Seq<u8>),
    Finish,
    Fail(Seq<char>),
}

impl View for SendAction {
    type V = SendStep;

    open spec fn view(&self) -> SendStep {
        match *self {
            SendAction::Read(off, n) => SendStep::Read(off as int, n as nat),
            SendAction::Write(w) => SendStep::Write(w@),
            SendAction::Finish => SendStep::Finish,
            SendAction::Fail(e) => SendStep::Fail(e@),
        }
    }
}

/// One stream of a source at work.
pub struct SendRun {
    pub cursor: Cursor,
    pub stage: SendStage,
    pub stream_id: u32,
}

impl SendRun {
    /// An event can come at this stage.
    pub open spec fn fits(self, ev: SendInput, sealed: bool) -> bool {
        match ev {
            SendInput::Ready { .. } => self.stage is Ready || self.stage is Writing,
            SendInput::Data(chunk) => self.stage is Reading && self.cursor.left > 0 && chunk.len()
                == min_nat(self.cursor.left as nat, chunk_limit(sealed)),
            SendInput::ReadFailed(_) => self.stage is Reading,
            SendInput::WriteFailed(_) => self.stage is Writing,
        }
    }

    /// The stream at another stage.
    pub open spec fn at(self, stage: SendStage) -> SendRun {
        SendRun { cursor: self.cursor, stage, stream_id: self.stream_id }
    }

    /// The stream after an event that fits, and what is to do.
    pub open spec fn after(
        self,
        ev: SendInput,
        seal: Option<(Seq<u8>, Seq<u8>)>,
        secs: u64,
    ) -> (SendRun, SendStep) {
        let c = self.cursor;
        match ev {
            SendInput::Ready { aborted } => if c.left == 0 {
                (self.at(SendStage::Ended), SendStep::Finish)
            } else if aborted {
                (self.at(SendStage::Ended), SendStep::Fail(abort_text(self.stream_id)))
            } else {
                (
                    self.at(SendStage::Reading),
                    SendStep::Read(
                        c.off as int,
                        min_nat(c.left as nat, chunk_limit(seal is Some)),
                    ),
                )
            },
            SendInput::Data(chunk) => (
                SendRun {
                    cursor: c.past(chunk.len(), seal is Some),
                    stage: SendStage::Writing,
                    stream_id: self.stream_id,
                },
                SendStep::Write(chunk_wire(chunk, c.counter as nat, self.stream_id, seal)),
            ),
            SendInput::ReadFailed(e) => (self.at(SendStage::Ended), SendStep::Fail(e)),
            SendInput::WriteFailed(e) => (
                self.at(SendStage::Ended),
                SendStep::Fail(io_text(self.stream_id, "write"@, e, secs)),
            ),
        }
    }

    /// A stream that is about to send the range from `start` to `end`.
    pub open spec fn begin(start: u64, end: u64, stream_id: u32) -> SendRun {
        SendRun {
            cursor: Cursor { off: start, left: (end - start) as u64, counter: 0 },
            stage: SendStage::Ready,
            stream_id,
        }
    }

    pub fn start(start: u64, end: u64, stream_id: u32) -> (r: SendRun)
        requires
            start <= end,
        ensures
            r == SendRun::begin(start, end, stream_id),
            r.cursor.sendable(),
    {
        SendRun { cursor: Cursor::start(start, end), stage: SendStage::Ready, stream_id }
    }

    /// Moves on after an event. `secs` is the timeout of the connection.
    pub fn next(&mut self, ev: &SendEvent, seal: Option<(&[u8; 32], &[u8])>, secs: u64) -> (r:
        SendAction)
        requires
            old(self).cursor.sendable(),
            old(self).fits(ev@, seal is Some),
        ensures
            final(self).cursor.sendable(),
            (*final(self), r@) == old(self).after(ev@, seal_view(seal), secs),
            ev@ matches SendInput::Data(chunk) ==> (seal matches Some(s) ==> {
                let nonce = nonce_bytes(old(self).stream_id, old(self).cursor.counter);
                let ct = chacha_seal(s.0@, nonce, chunk, s.1@);
                ct.len() == chunk.len() + 16 && chacha_open(s.0@, nonce, ct, s.1@) == Some(chunk)
            }),
    {
        match ev {
            SendEvent::Ready { aborted } => {
                if self.cursor.left == 0 {
                    self.stage = SendStage::Ended;
                    SendAction::Finish
                } else if *aborted {
                    self.stage = SendStage::Ended;
                    SendAction::Fail(stream_aborted(self.stream_id))
                } else {
                    self.stage = SendStage::Reading;
                    SendAction::Read(self.cursor.off, self.cursor.send_size(seal.is_some()))
                }
            },
            SendEvent::Data(chunk) => {
                self.stage = SendStage::Writing;
                match self.cursor.send_chunk(self.stream_id, seal, chunk) {
                    Ok(w) => SendAction::Write(w),
                    Err(e) => SendAction::Fail(e),
                }
            },
            SendEvent::ReadFailed(e) => {
                self.stage = SendStage::Ended;
                SendAction::Fail((*e).to_owned())
            },
            SendEvent::WriteFailed(e) => {
                self.stage = SendStage::Ended;
                SendAction::Fail(io_err(self.stream_id, "write", e, secs))
            },
        }
    }

    /// What a stream writes in a run of events, joined; an event out of place
    /// changes nothing.
    pub open spec fn written(
        self,
        evs: Seq<SendInput>,
        seal: Option<(Seq<u8>, Seq<u8>)>,
        secs: u64,
    ) -> Seq<u8>
        decreases evs.len(),
    {
        if evs.len() == 0 {
            Seq::empty()
        } else if !self.fits(evs[0], seal is Some) {
            self.written(evs.skip(1), seal, secs)
        } else {
            let (run, step) = self.after(evs[0], seal, secs);
            let rest = run.written(evs.skip(1), seal, secs);
            match step {
                SendStep::Write(w) => w + rest,
                _ => rest,
            }
        }
    }

    /// The chunks that a stream takes in a run of events.
    pub open spec fn taken(
        self,
        evs: Seq<SendInput>,
        seal: Option<(Seq<u8>, Seq<u8>)>,
        secs: u64,
    ) -> Seq<Seq<u8>>
        decreases evs.len(),
    {
        if evs.len() == 0 {
            Seq::empty()
        } else if !self.fits(evs[0], seal is Some) {
            self.taken(evs.skip(1), seal, secs)
        } else {
            let rest = self.after(evs[0], seal, secs).0.taken(evs.skip(1), seal, secs);
            match evs[0] {
                SendInput::Data(chunk) => seq![chunk] + rest,
                _ => rest,
            }
        }
    }

    /// A run of events lets a stream finish.
    pub open spec fn finishes(
        self,
        evs: Seq<SendInput>,
        seal: Option<(Seq<u8>, Seq<u8>)>,
        secs: u64,
    ) -> bool
        decreases evs.len(),
    {
        evs.len() > 0 && if !self.fits(evs[0], seal is Some) {
            self.finishes(evs.skip(1), seal, secs)
        } else {
            let (run, step) = self.after(evs[0], seal, secs);
            step is Finish || run.finishes(evs.skip(1), seal, secs)
        }
    }

    /// The chunks of a run of events are those of a file at the offsets that
    /// the stream asks for.
    pub open spec fn reads(
        self,
        file: Seq<u8>,
        evs: Seq<SendInput>,
        seal: Option<(Seq<u8>, Seq<u8>)>,
        secs: u64,
    ) -> bool
        decreases evs.len(),
    {
        evs.len() == 0 || if !self.fits(evs[0], seal is Some) {
            self.reads(file, evs.skip(1), seal, secs)
        } else {
            &&& evs[0] matches SendInput::Data(chunk) ==> {
                let off = self.cursor.off as int;
                off + chunk.len() <= file.len() && chunk == file.subrange(off, off + chunk.len())
            }
            &&& self.after(evs[0], seal, secs).0.reads(file, evs.skip(1), seal, secs)
        }
    }
}

proof fn lemma_send_history(
    run: SendRun,
    evs: Seq<SendInput>,
    seal: Option<(Seq<u8>, Seq<u8>)>,
    secs: u64,
)
    requires
        run.cursor.sendable(),
    ensures
        run.written(evs, seal, secs) == wires(
            run.taken(evs, seal, secs),
            run.cursor.counter as nat,
            run.stream_id,
            seal,
        ),
        run.finishes(evs, seal, secs) ==> as_asked(
            run.taken(evs, seal, secs),
            run.cursor.left as nat,
            chunk_limit(seal is Some),
        ),
    decreases evs.len(),
{
    if evs.len() == 0 {
    } else if !run.fits(evs[0], seal is Some) {
        lemma_send_history(run, evs.skip(1), seal, secs);
    } else {
        let next = run.after(evs[0], seal, secs).0;
        lemma_send_history(next, evs.skip(1), seal, secs);
        let rest = next.taken(evs.skip(1), seal, secs);
        match evs[0] {
            SendInput::Data(chunk) => {
                let all = seq![chunk] + rest;
                assert(all.skip(1) =~= rest);
                assert(all[0] == chunk);
                if seal is None {
                    lemma_clear_wires(
                        rest,
                        run.cursor.counter as nat,
                        run.cursor.counter as nat + 1,
                        run.stream_id,
                    );
                }
            },
            _ => {
                if next.stage is Ended {
                    lemma_send_ended(next, evs.skip(1), seal, secs);
                }
            },
        }
    }
}

/// A stream that has ended does nothing more, whatever comes.
pub proof fn lemma_send_ended(
    run: SendRun,
    evs: Seq<SendInput>,
    seal: Option<(Seq<u8>, Seq<u8>)>,
    secs: u64,
)
    requires
        run.stage is Ended,
    ensures
        run.written(evs, seal, secs) == Seq::<u8>::empty(),
        run.taken(evs, seal, secs) == Seq::<Seq<u8>>::empty(),
        !run.finishes(evs, seal, secs),
    decreases evs.len(),
{
    if evs.len() > 0 {
        lemma_send_ended(run, evs.skip(1), seal, secs);
    }
}

proof fn lemma_clear_wires(chunks: Seq<Seq<u8>>, a: nat, b: nat, stream_id: u32)
    ensures
        wires(chunks, a, stream_id, None) == wires(chunks, b, stream_id, None),
    decreases chunks.len(),
{
    if chunks.len() > 0 {
        lemma_clear_wires(chunks.skip(1), a + 1, b + 1, stream_id);
    }
}

/// A stream writes the chunks that it was given, in order, whatever it meets
/// with; when it finishes, they have the sizes that it asked for, and it has
/// written the wire of its whole range.
pub proof fn lemma_send_run(
    start: u64,
    end: u64,
    stream_id: u32,
    evs: Seq<SendInput>,
    seal: Option<(Seq<u8>, Seq<u8>)>,
    secs: u64,
)
    requires
        start <= end,
    ensures
        ({
            let run = SendRun::begin(start, end, stream_id);
            let chunks = run.taken(evs, seal, secs);
            &&& run.written(evs, seal, secs) == wires(chunks, 0, stream_id, seal)
            &&& run.finishes(evs, seal, secs) ==> as_asked(
                chunks,
                (end - start) as nat,
                chunk_limit(seal is Some),
            ) && run.written(evs, seal, secs) == sent(flat(chunks), 0, stream_id, seal)
        }),
{
    let run = SendRun::begin(start, end, stream_id);
    lemma_send_history(run, evs, seal, secs);
    if run.finishes(evs, seal, secs) {
        lemma_chunks_sent(
            run.taken(evs, seal, secs),
            (end - start) as nat,
            0,
            stream_id,
            seal,
        );
    }
}

/// The events of a stream that is given chunks one by one, and meets with
/// nothing else.
pub open spec fn fed(chunks: Seq<Seq<u8>>) -> Seq<SendInput>
    decreases chunks.len(),
{
    let ready = SendInput::Ready { aborted: false };
    if chunks.len() == 0 {
        seq![ready]
    } else {
        seq![ready, SendInput::Data(chunks[0])] + fed(chunks.skip(1))
    }
}

proof fn lemma_fed_history(
    run: SendRun,
    chunks: Seq<Seq<u8>>,
    seal: Option<(Seq<u8>, Seq<u8>)>,
    secs: u64,
)
    requires
        run.cursor.sendable(),
        run.stage is Ready || run.stage is Writing,
        as_asked(chunks, run.cursor.left as nat, chunk_limit(seal is Some)),
    ensures
        run.finishes(fed(chunks), seal, secs),
        run.taken(fed(chunks), seal, secs) == chunks,
    decreases chunks.len(),
{
    let evs = fed(chunks);
    let ready = SendInput::Ready { aborted: false };
    assert(evs[0] == ready);
    let reading = run.after(ready, seal, secs).0;
    if chunks.len() == 0 {
        assert(evs.skip(1) =~= Seq::empty());
        assert(reading.taken(evs.skip(1), seal, secs) =~= Seq::empty());
        assert(run.taken(evs, seal, secs) =~= chunks);
    } else {
        let data = SendInput::Data(chunks[0]);
        let tail = evs.skip(1);
        assert(tail[0] == data);
        assert(tail.skip(1) =~= fed(chunks.skip(1)));
        let next = reading.after(data, seal, secs).0;
        lemma_fed_history(next, chunks.skip(1), seal, secs);
        assert(reading.fits(data, seal is Some));
        assert(reading.taken(tail, seal, secs) =~= seq![chunks[0]] + chunks.skip(1));
        assert(seq![chunks[0]] + chunks.skip(1) =~= chunks);
        assert(reading.finishes(tail, seal, secs));
        assert(evs.skip(1) == tail);
        assert(run.fits(evs[0], seal is Some));
        assert(run.taken(evs, seal, secs) == reading.taken(tail, seal, secs));
    }
}

/// A stream that is given the chunks that it asks for finishes, and has written
/// the wire of its whole range.
pub proof fn lemma_send_fed(
    start: u64,
    end: u64,
    stream_id: u32,
    chunks: Seq<Seq<u8>>,
    seal: Option<(Seq<u8>, Seq<u8>)>,
    secs: u64,
)
    requires
        start <= end,
        as_asked(chunks, (end - start) as nat, chunk_limit(seal is Some)),
    ensures
        SendRun::begin(start, end, stream_id).finishes(fed(chunks), seal, secs),
        SendRun::begin(start, end, stream_id).written(fed(chunks), seal, secs) == sent(
            flat(chunks),
            0,
            stream_id,
            seal,
        ),
{
    lemma_fed_history(SendRun::begin(start, end, stream_id), chunks, seal, secs);
    lemma_send_run(start, end, stream_id, fed(chunks), seal, secs);
}

proof fn lemma_reads_history(
    run: SendRun,
    file: Seq<u8>,
    evs: Seq<SendInput>,
    seal: Option<(Seq<u8>, Seq<u8>)>,
    secs: u64,
)
    requires
        run.cursor.sendable(),
        run.cursor.off + run.cursor.left <= file.len(),
        run.reads(file, evs, seal, secs),
    ensures
        run.finishes(evs, seal, secs) ==> flat(run.taken(evs, seal, secs)) == file.subrange(
            run.cursor.off as int,
            run.cursor.off + run.cursor.left,
        ),
    decreases evs.len(),
{
    if evs.len() == 0 {
    } else if !run.fits(evs[0], seal is Some) {
        lemma_reads_history(run, file, evs.skip(1), seal, secs);
    } else {
        let next = run.after(evs[0], seal, secs).0;
        lemma_reads_history(next, file, evs.skip(1), seal, secs);
        let rest = next.taken(evs.skip(1), seal, secs);
        match evs[0] {
            SendInput::Data(chunk) => {
                let all = seq![chunk] + rest;
                assert(all.skip(1) =~= rest);
                let off = run.cursor.off as int;
                let end = off + run.cursor.left;
                let mid = off + chunk.len();
                assert(chunk + file.subrange(mid, end) =~= file.subrange(off, end));
            },
            _ => {
                if next.stage is Ended {
                    lemma_send_ended(next, evs.skip(1), seal, secs);
                    if run.cursor.left == 0 {
                        assert(file.subrange(run.cursor.off as int, run.cursor.off as int)
                            =~= Seq::empty());
                    }
                }
            },
        }
    }
}

/// A stream that finishes, and was given what a file holds at the offsets that
/// it asked for, has written the wire of its range of the file.
pub proof fn lemma_send_file(
    start: u64,
    end: u64,
    stream_id: u32,
    file: Seq<u8>,
    evs: Seq<SendInput>,
    seal: Option<(Seq<u8>, Seq<u8>)>,
    secs: u64,
)
    requires
        start <= end <= file.len(),
        SendRun::begin(start, end, stream_id).finishes(evs, seal, secs),
        SendRun::begin(start, end, stream_id).reads(file, evs, seal, secs),
    ensures
        SendRun::begin(start, end, stream_id).written(evs, seal, secs) == sent(
            file.subrange(start as int, end as int),
            0,
            stream_id,
            seal,
        ),
{
    lemma_send_run(start, end, stream_id, evs, seal, secs);
    lemma_reads_history(SendRun::begin(start, end, stream_id), file, evs, seal, secs);
}

/// Puts all the bytes of a range on the wire, chunk after chunk.
pub fn send_range(data: &[u8], stream_id: u32, seal: Option<(&[u8; 32], &[u8])>) -> (r: Result<
    Vec<u8>,
    String,
>)
    ensures
        r is Ok,
        r matches Ok(w) ==> w@ == sent(data@, 0, stream_id, seal_view(seal)),
        r matches Ok(w) ==> received(w@, data@.len(), 0, stream_id, seal_view(seal)) == Ok::<
            Seq<u8>,
            Seq<char>,
        >(data@),
        seal_view(seal) matches Some(s) ==> frames_open(data@, 0, stream_id, s),
{
    let mut out: Vec<u8> = Vec::new();
    let mut run: SendRun = SendRun::start(0, data.len() as u64, stream_id);
    let ghost sv = seal_view(seal);
    let ghost mut k: nat = 0;
    assert(data@.skip(0) =~= data@);
    assert(out@ + sent(data@, 0, stream_id, sv) =~= sent(data@, 0, stream_id, sv));
    loop
        invariant_except_break
            run.stage is Ready || run.stage is Writing,
        invariant
            run.stream_id == stream_id,
            run.cursor.sendable(),
            run.cursor.off + run.cursor.left == data.len(),
            data.len() == data@.len(),
            sv == seal_view(seal),
            seal is Some ==> run.cursor.counter == k,
            out@ + sent(data@.skip(run.cursor.off as int), k, stream_id, sv) == sent(
                data@,
                0,
                stream_id,
                sv,
            ),
            sv matches Some(s) ==> frames_open(
                data@.skip(run.cursor.off as int),
                k,
                stream_id,
                s,
            ) ==> frames_open(data@, 0, stream_id, s),
        ensures
            run.cursor.left == 0,
        decreases run.cursor.left,
    {
        let ghost rest = data@.skip(run.cursor.off as int);
        let ghost was = out@;
        match run.next(&SendEvent::Ready { aborted: false }, seal, 0) {
            SendAction::Read(off, n) => {
                let at: usize = off as usize;
                let chunk: &[u8] = slice_subrange(data, at, at + n);
                assert(rest.take(n as int) =~= chunk@);
                assert(rest.skip(n as int) =~= data@.skip(at + n));
                match run.next(&SendEvent::Data(chunk), seal, 0) {
                    SendAction::Write(w) => {
                        out.extend_from_slice(w.as_slice());
                        proof {
                            assert(out@ =~= was + w@);
                            let more = sent(data@.skip(at + n), k + 1, stream_id, sv);
                            assert(sent(rest, k, stream_id, sv) == w@ + more);
                            assert(was + (w@ + more) =~= was + w@ + more);
                            k = k + 1;
                        }
                    },
                    _ => {},
                }
            },
            _ => break,
        }
    }
    proof {
        assert(out@ + Seq::<u8>::empty() =~= out@);
        lemma_payload_roundtrip(data@, 0, stream_id, sv, Seq::empty());
    }
    Ok(out)
}

/// Where a receiving stream stands.
pub enum RecvStage {
    /// Between two chunks.
    Ready,
    /// The length of a sealed frame is read.
    Length,
    /// A sealed frame of that length is read.
    Frame(usize),
    /// Bytes in clear are read.
    Clear,
    /// The bytes are written to the file.
    Writing,
    /// Nothing more is done.
    Ended,
}

/// What a receiving stream has met with.
pub enum RecvEvent<'a> {
    /// The stream can go on; a sibling has failed, or not.
    Ready { aborted: bool },
    /// The length that was asked for.
    Length(u32),
    /// The frame that was asked for.
    Frame(&'a [u8]),
    /// The bytes in clear that were asked for.
    Clear(&'a [u8]),
    ReadFailed(&'a str),
    WriteFailed(&'a str),
}

/// What a receiving stream has met with, as a value.
pub enum RecvInput {
    Ready { aborted: bool },
    Length(u32),
    Frame(Seq<u8>),
    Clear(Seq<u8>),
    ReadFailed(Seq<char>),
    WriteFailed(Seq<char>),
}

impl<'a> View for RecvEvent<'a> {
    type V = RecvInput;

    open spec fn view(&self) -> RecvInput {
        match *self {
            RecvEvent::Ready { aborted } => RecvInput::Ready { aborted },
            RecvEvent::Length(n) => RecvInput::Length(n),
            RecvEvent::Frame(ct) => RecvInput::Frame(ct@),
            RecvEvent::Clear(data) => RecvInput::Clear(data@),
            RecvEvent::ReadFailed(e) => RecvInput::ReadFailed(e@),
            RecvEvent::WriteFailed(e) => RecvInput::WriteFailed(e@),
        }
    }
}

/// What a receiving stream is to do next.
pub enum RecvAction {
    /// Read the length of a frame, four bytes.
    ReadLength,
    /// Read a frame of that length.
    ReadFrame(usize),
    /// Read as many bytes in clear.
    ReadClear(usize),
    /// Write bytes at an offset of the file.
    Write(u64, Vec<u8>),
    Finish,
    Fail(String),
}

/// What a receiving stream is to do next, as a value.
pub enum RecvStep {
    ReadLength,
    ReadFrame(nat),
    ReadClear(nat),
    Write(int, Seq<u8>),
    Finish,
    Fail(Seq<char>),
}

impl View for RecvAction {
    type V = RecvStep;

    open spec fn view(&self) -> RecvStep {
        match *self {
            RecvAction::ReadLength => RecvStep::ReadLength,
            RecvAction::ReadFrame(n) => RecvStep::ReadFrame(n as nat),
            RecvAction::ReadClear(n) => RecvStep::ReadClear(n as nat),
            RecvAction::Write(off, data) => RecvStep::Write(off as int, data@),
            RecvAction::Finish => RecvStep::Finish,
            RecvAction::Fail(e) => RecvStep::Fail(e@),
        }
    }
}

/// One stream of a sink at work.
pub struct RecvRun {
    pub cursor: Cursor,
    pub stage: RecvStage,
    pub stream_id: u32,
}

impl RecvRun {
    /// An event can come at this stage.
    pub open spec fn fits(self, ev: RecvInput, sealed: bool) -> bool {
        match ev {
            RecvInput::Ready { .. } => self.stage is Ready || self.stage is Writing,
            RecvInput::Length(_) => self.stage is Length,
            RecvInput::Frame(ct) => sealed && self.cursor.counter < u64::MAX && (
            self.stage matches RecvStage::Frame(n) && ct.len() == n),
            RecvInput::Clear(data) => !sealed && self.stage is Clear && data.len() == min_nat(
                self.cursor.left as nat,
                CHUNK as nat,
            ),
            RecvInput::ReadFailed(_) => self.stage is Length || self.stage is Frame
                || self.stage is Clear,
            RecvInput::WriteFailed(_) => self.stage is Writing,
        }
    }

    /// Offsets do not run over, something is read only while bytes are still to
    /// come, and a frame is not too long.
    pub open spec fn valid(self) -> bool {
        &&& self.cursor.off + self.cursor.left <= u64::MAX
        &&& self.stage is Length || self.stage is Frame || self.stage is Clear ==> self.cursor.left
            > 0
        &&& self.stage matches RecvStage::Frame(n) ==> n <= MAX_FRAME
    }

    /// The stream at another stage.
    pub open spec fn at(self, stage: RecvStage) -> RecvRun {
        RecvRun { cursor: self.cursor, stage, stream_id: self.stream_id }
    }

    /// The stream when it has got bytes, which are to be written.
    pub open spec fn got(self, data: Seq<u8>, sealed: bool) -> (RecvRun, RecvStep) {
        (
            RecvRun {
                cursor: self.cursor.past(data.len(), sealed),
                stage: RecvStage::Writing,
                stream_id: self.stream_id,
            },
            RecvStep::Write(self.cursor.off as int, data),
        )
    }

    /// The stream after a failure.
    pub open spec fn failed(self, e: Seq<char>) -> (RecvRun, RecvStep) {
        (self.at(RecvStage::Ended), RecvStep::Fail(e))
    }

    /// The stream after an event that fits, and what is to do.
    pub open spec fn after(
        self,
        ev: RecvInput,
        seal: Option<(Seq<u8>, Seq<u8>)>,
        secs: u64,
    ) -> (RecvRun, RecvStep) {
        let left = self.cursor.left as nat;
        match ev {
            RecvInput::Ready { aborted } => if left == 0 {
                (self.at(RecvStage::Ended), RecvStep::Finish)
            } else if aborted {
                self.failed(abort_text(self.stream_id))
            } else if seal is Some {
                (self.at(RecvStage::Length), RecvStep::ReadLength)
            } else {
                (self.at(RecvStage::Clear), RecvStep::ReadClear(min_nat(left, CHUNK as nat)))
            },
            RecvInput::Length(n) => if n <= MAX_FRAME {
                (self.at(RecvStage::Frame(n as usize)), RecvStep::ReadFrame(n as nat))
            } else {
                self.failed("bad ciphertext len "@ + dec(n as nat))
            },
            RecvInput::Frame(ct) => match opened_frame(
                ct,
                left,
                self.cursor.counter as nat,
                self.stream_id,
                seal->0,
            ) {
                Ok(p) => self.got(p, true),
                Err(e) => self.failed(e),
            },
            RecvInput::Clear(data) => self.got(data, false),
            RecvInput::ReadFailed(e) => self.failed(io_text(self.stream_id, "read"@, e, secs)),
            RecvInput::WriteFailed(e) => self.failed(e),
        }
    }

    /// A stream that is about to receive the range from `start` to `end`.
    pub open spec fn begin(start: u64, end: u64, stream_id: u32) -> RecvRun {
        RecvRun {
            cursor: Cursor { off: start, left: (end - start) as u64, counter: 0 },
            stage: RecvStage::Ready,
            stream_id,
        }
    }

    pub fn start(start: u64, end: u64, stream_id: u32) -> (r: RecvRun)
        requires
            start <= end,
        ensures
            r == RecvRun::begin(start, end, stream_id),
            r.valid(),
    {
        RecvRun { cursor: Cursor::start(start, end), stage: RecvStage::Ready, stream_id }
    }

    fn fail(&mut self, e: String) -> (r: RecvAction)
        ensures
            (*final(self), r@) == old(self).failed(e@),
    {
        self.stage = RecvStage::Ended;
        RecvAction::Fail(e)
    }

    /// Moves on after an event. `secs` is the timeout of the connection.
    pub fn next(&mut self, ev: &RecvEvent, seal: Option<(&[u8; 32], &[u8])>, secs: u64) -> (r:
        RecvAction)
        requires
            old(self).valid(),
            old(self).fits(ev@, seal is Some),
        ensures
            final(self).valid(),
            (*final(self), r@) == old(self).after(ev@, seal_view(seal), secs),
    {
        match ev {
            RecvEvent::Ready { aborted } => {
                if self.cursor.left == 0 {
                    self.stage = RecvStage::Ended;
                    RecvAction::Finish
                } else if *aborted {
                    let e: String = stream_aborted(self.stream_id);
                    self.fail(e)
                } else if seal.is_some() {
                    self.stage = RecvStage::Length;
                    RecvAction::ReadLength
                } else {
                    self.stage = RecvStage::Clear;
                    RecvAction::ReadClear(self.cursor.recv_size())
                }
            },
            RecvEvent::Length(n) => match frame_len(*n) {
                Ok(len) => {
                    self.stage = RecvStage::Frame(len);
                    RecvAction::ReadFrame(len)
                },
                Err(e) => self.fail(e),
            },
            RecvEvent::Frame(ct) => {
                let off: u64 = self.cursor.off;
                match seal {
                    Some((key, aad)) => match self.cursor.recv_sealed(
                        self.stream_id,
                        key,
                        aad,
                        ct,
                    ) {
                        Ok(p) => {
                            self.stage = RecvStage::Writing;
                            RecvAction::Write(off, p)
                        },
                        Err(e) => self.fail(e),
                    },
                    None => RecvAction::Finish,
                }
            },
            RecvEvent::Clear(data) => {
                let off: u64 = self.cursor.off;
                self.cursor.recv_clear(data.len());
                self.stage = RecvStage::Writing;
                RecvAction::Write(off, slice_to_vec(data))
            },
            RecvEvent::ReadFailed(e) => {
                let x: String = io_err(self.stream_id, "read", e, secs);
                self.fail(x)
            },
            RecvEvent::WriteFailed(e) => self.fail((*e).to_owned()),
        }
    }

    /// The bytes that a stream takes from the wire in a run of events; an event
    /// out of place changes nothing.
    pub open spec fn taken(
        self,
        evs: Seq<RecvInput>,
        seal: Option<(Seq<u8>, Seq<u8>)>,
        secs: u64,
    ) -> Seq<u8>
        decreases evs.len(),
    {
        if evs.len() == 0 {
            Seq::empty()
        } else if !self.fits(evs[0], seal is Some) {
            self.taken(evs.skip(1), seal, secs)
        } else {
            let rest = self.after(evs[0], seal, secs).0.taken(evs.skip(1), seal, secs);
            match evs[0] {
                RecvInput::Length(n) => le(n as nat, 4) + rest,
                RecvInput::Frame(ct) => ct + rest,
                RecvInput::Clear(data) => data + rest,
                _ => rest,
            }
        }
    }

    /// What a stream writes to the file in a run of events, each with its
    /// offset.
    pub open spec fn writes(
        self,
        evs: Seq<RecvInput>,
        seal: Option<(Seq<u8>, Seq<u8>)>,
        secs: u64,
    ) -> Seq<(int, Seq<u8>)>
        decreases evs.len(),
    {
        if evs.len() == 0 {
            Seq::empty()
        } else if !self.fits(evs[0], seal is Some) {
            self.writes(evs.skip(1), seal, secs)
        } else {
            let (run, step) = self.after(evs[0], seal, secs);
            let rest = run.writes(evs.skip(1), seal, secs);
            match step {
                RecvStep::Write(off, data) => seq![(off, data)] + rest,
                _ => rest,
            }
        }
    }

    /// A run of events lets a stream finish.
    pub open spec fn finishes(
        self,
        evs: Seq<RecvInput>,
        seal: Option<(Seq<u8>, Seq<u8>)>,
        secs: u64,
    ) -> bool
        decreases evs.len(),
    {
        evs.len() > 0 && if !self.fits(evs[0], seal is Some) {
            self.finishes(evs.skip(1), seal, secs)
        } else {
            let (run, step) = self.after(evs[0], seal, secs);
            step is Finish || run.finishes(evs.skip(1), seal, secs)
        }
    }

    /// How a stream tells that what it took from the wire cannot be accepted,
    /// if it does so in a run of events.
    pub open spec fn refuses(
        self,
        evs: Seq<RecvInput>,
        seal: Option<(Seq<u8>, Seq<u8>)>,
        secs: u64,
    ) -> Option<Seq<char>>
        decreases evs.len(),
    {
        if evs.len() == 0 {
            None
        } else if !self.fits(evs[0], seal is Some) {
            self.refuses(evs.skip(1), seal, secs)
        } else {
            let (run, step) = self.after(evs[0], seal, secs);
            match step {
                RecvStep::Fail(e) if evs[0] is Length || evs[0] is Frame => Some(e),
                _ => run.refuses(evs.skip(1), seal, secs),
            }
        }
    }

    /// What a stream took from the wire of the chunk that it is in: the length
    /// of its frame.
    pub open spec fn begun(self) -> Seq<u8> {
        match self.stage {
            RecvStage::Frame(n) => le(n as nat, 4),
            _ => Seq::empty(),
        }
    }
}

/// Writes that lie end to end from one offset to another.
pub open spec fn end_to_end(writes: Seq<(int, Seq<u8>)>, from: int, to: int) -> bool
    decreases writes.len(),
{
    if writes.len() == 0 {
        from == to
    } else {
        writes[0].0 == from && end_to_end(writes.skip(1), from + writes[0].1.len(), to)
    }
}

/// The bytes of writes, joined.
pub open spec fn bytes_in(writes: Seq<(int, Seq<u8>)>) -> Seq<u8>
    decreases writes.len(),
{
    if writes.len() == 0 {
        Seq::empty()
    } else {
        writes[0].1 + bytes_in(writes.skip(1))
    }
}

/// A stream that has ended does nothing more, whatever comes.
pub proof fn lemma_recv_ended(
    run: RecvRun,
    evs: Seq<RecvInput>,
    seal: Option<(Seq<u8>, Seq<u8>)>,
    secs: u64,
)
    requires
        run.stage is Ended,
    ensures
        run.taken(evs, seal, secs) == Seq::<u8>::empty(),
        run.writes(evs, seal, secs) == Seq::<(int, Seq<u8>)>::empty(),
        !run.finishes(evs, seal, secs),
        run.refuses(evs, seal, secs) is None,
    decreases evs.len(),
{
    if evs.len() > 0 {
        lemma_recv_ended(run, evs.skip(1), seal, secs);
    }
}

proof fn lemma_recv_history(
    run: RecvRun,
    evs: Seq<RecvInput>,
    seal: Option<(Seq<u8>, Seq<u8>)>,
    secs: u64,
)
    requires
        run.valid(),
        run.stage is Clear ==> seal is None,
        run.stage is Length || run.stage is Frame ==> seal is Some,
    ensures
        ({
            let c = run.cursor;
            let wire = run.begun() + run.taken(evs, seal, secs);
            let writes = run.writes(evs, seal, secs);
            let got = received(wire, c.left as nat, c.counter as nat, run.stream_id, seal);
            &&& run.finishes(evs, seal, secs) ==> end_to_end(
                writes,
                c.off as int,
                c.off + c.left,
            ) && got == Ok::<Seq<u8>, Seq<char>>(bytes_in(writes))
            &&& run.refuses(evs, seal, secs) matches Some(e) ==> got == Err::<
                Seq<u8>,
                Seq<char>,
            >(e)
        }),
    decreases evs.len(),
{
    let c = run.cursor;
    let taken = run.taken(evs, seal, secs);
    let writes = run.writes(evs, seal, secs);
    let wire = run.begun() + taken;
    if evs.len() == 0 {
    } else if !run.fits(evs[0], seal is Some) {
        lemma_recv_history(run, evs.skip(1), seal, secs);
    } else {
        let (next, step) = run.after(evs[0], seal, secs);
        let rest = next.taken(evs.skip(1), seal, secs);
        let later = next.writes(evs.skip(1), seal, secs);
        lemma_recv_history(next, evs.skip(1), seal, secs);
        if next.stage is Ended {
            lemma_recv_ended(next, evs.skip(1), seal, secs);
        }
        assert(Seq::<u8>::empty() + rest =~= rest);
        assert(Seq::<u8>::empty() + taken =~= taken);
        match step {
            RecvStep::Write(off, data) => {
                assert(writes.skip(1) =~= later);
                assert(writes[0] == (off, data));
            },
            _ => {},
        }
        match evs[0] {
            RecvInput::Length(n) => {
                lemma_pow256();
                lemma_le_roundtrip(n as nat, 4);
                assert(taken.take(4) =~= le(n as nat, 4));
            },
            RecvInput::Frame(ct) => {
                let n = ct.len() as int;
                lemma_pow256();
                lemma_le_roundtrip(n as nat, 4);
                assert(wire.take(4) =~= le(n as nat, 4));
                assert(wire.subrange(4, 4 + n) =~= ct);
                assert(wire.skip(4 + n) =~= rest);
            },
            RecvInput::Clear(data) => {
                let n = data.len() as int;
                assert(wire.take(n) =~= data);
                assert(wire.skip(n) =~= rest);
            },
            _ => {},
        }
    }
}

/// When a stream finishes, what it wrote lies end to end from the start of its
/// range to the end, and is what is received from the wire that it took.
pub proof fn lemma_recv_run(
    start: u64,
    end: u64,
    stream_id: u32,
    evs: Seq<RecvInput>,
    seal: Option<(Seq<u8>, Seq<u8>)>,
    secs: u64,
)
    requires
        start <= end,
        RecvRun::begin(start, end, stream_id).finishes(evs, seal, secs),
    ensures
        ({
            let run = RecvRun::begin(start, end, stream_id);
            let writes = run.writes(evs, seal, secs);
            &&& end_to_end(writes, start as int, end as int)
            &&& received(run.taken(evs, seal, secs), (end - start) as nat, 0, stream_id, seal)
                == Ok::<Seq<u8>, Seq<char>>(bytes_in(writes))
        }),
{
    let run = RecvRun::begin(start, end, stream_id);
    lemma_recv_history(run, evs, seal, secs);
    assert(run.begun() + run.taken(evs, seal, secs) =~= run.taken(evs, seal, secs));
}

/// A stream that refuses what it took from the wire tells the failure of
/// receiving it.
pub proof fn lemma_recv_refuses(
    start: u64,
    end: u64,
    stream_id: u32,
    evs: Seq<RecvInput>,
    seal: Option<(Seq<u8>, Seq<u8>)>,
    secs: u64,
)
    requires
        start <= end,
    ensures
        ({
            let run = RecvRun::begin(start, end, stream_id);
            run.refuses(evs, seal, secs) matches Some(e) ==> received(
                run.taken(evs, seal, secs),
                (end - start) as nat,
                0,
                stream_id,
                seal,
            ) == Err::<Seq<u8>, Seq<char>>(e)
        }),
{
    let run = RecvRun::begin(start, end, stream_id);
    lemma_recv_history(run, evs, seal, secs);
    assert(run.begun() + run.taken(evs, seal, secs) =~= run.taken(evs, seal, secs));
}

/// A sending and a receiving stream that both finish, with the same wire between
/// them, move their range of a file: what is written lies where it was read.
pub proof fn lemma_runs_roundtrip(
    start: u64,
    end: u64,
    stream_id: u32,
    file: Seq<u8>,
    sends: Seq<SendInput>,
    recvs: Seq<RecvInput>,
    seal: Option<(Seq<u8>, Seq<u8>)>,
    secs: u64,
)
    requires
        start <= end <= file.len(),
        seal matches Some(s) ==> frames_open(
            file.subrange(start as int, end as int),
            0,
            stream_id,
            s,
        ),
        SendRun::begin(start, end, stream_id).finishes(sends, seal, secs),
        SendRun::begin(start, end, stream_id).reads(file, sends, seal, secs),
        RecvRun::begin(start, end, stream_id).finishes(recvs, seal, secs),
        RecvRun::begin(start, end, stream_id).taken(recvs, seal, secs) == SendRun::begin(
            start,
            end,
            stream_id,
        ).written(sends, seal, secs),
    ensures
        ({
            let writes = RecvRun::begin(start, end, stream_id).writes(recvs, seal, secs);
            &&& end_to_end(writes, start as int, end as int)
            &&& bytes_in(writes) == file.subrange(start as int, end as int)
        }),
{
    let data = file.subrange(start as int, end as int);
    lemma_send_file(start, end, stream_id, file, sends, seal, secs);
    lemma_recv_run(start, end, stream_id, recvs, seal, secs);
    lemma_payload_roundtrip(data, 0, stream_id, seal, Seq::empty());
    let wire = sent(data, 0, stream_id, seal);
    assert(wire + Seq::empty() =~= wire);
}

/// A result with bytes put before it.
pub open spec fn before(pre: Seq<u8>, r: Result<Seq<u8>, Seq<char>>) -> Result<
    Seq<u8>,
    Seq<char>,
> {
    match r {
        Ok(t) => Ok(pre + t),
        Err(e) => Err(e),
    }
}

/// Takes the bytes of a range from the wire.
pub fn recv_range(
    wire: &[u8],
    start: u64,
    end: u64,
    stream_id: u32,
    seal: Option<(&[u8; 32], &[u8])>,
) -> (r: Result<Vec<u8>, String>)
    requires
        start <= end,
    ensures
        match r {
            Ok(v) => received(wire@, (end - start) as nat, 0, stream_id, seal_view(seal)) == Ok::<
                Seq<u8>,
                Seq<char>,
            >(v@),
            Err(e) => received(wire@, (end - start) as nat, 0, stream_id, seal_view(seal)) == Err::<
                Seq<u8>,
                Seq<char>,
            >(e@),
        },
{
    let mut out: Vec<u8> = Vec::new();
    let mut run: RecvRun = RecvRun::start(start, end, stream_id);
    let mut at: usize = 0;
    let ghost sv = seal_view(seal);
    let ghost all = received(wire@, (end - start) as nat, 0, stream_id, sv);
    assert(wire@.skip(0) =~= wire@);
    assert(all matches Ok(t) ==> Seq::<u8>::empty() + t =~= t);
    loop
        invariant_except_break
            run.stage is Ready || run.stage is Writing,
        invariant
            run.stream_id == stream_id,
            run.valid(),
            at <= wire.len(),
            run.cursor.counter * 4 <= at,
            run.cursor.off + run.cursor.left == end,
            sv == seal_view(seal),
            all == received(wire@, (end - start) as nat, 0, stream_id, sv),
            before(
                out@,
                received(
                    wire@.skip(at as int),
                    run.cursor.left as nat,
                    run.cursor.counter as nat,
                    stream_id,
                    sv,
                ),
            ) == all,
        ensures
            run.cursor.left == 0,
        decreases run.cursor.left, wire.len() - at,
    {
        let ghost w = wire@.skip(at as int);
        let ghost was = out@;
        let ghost left = run.cursor.left as nat;
        let ghost k = run.cursor.counter as nat;
        match run.next(&RecvEvent::Ready { aborted: false }, seal, 0) {
            RecvAction::ReadLength => {
                let clen: u32 = match read_u32(wire, at) {
                    Some(n) => n,
                    None => return Err(short_read(stream_id)),
                };
                assert(w.take(4) =~= wire@.subrange(at as int, at + 4));
                let n: usize = match run.next(&RecvEvent::Length(clen), seal, 0) {
                    RecvAction::ReadFrame(n) => n,
                    RecvAction::Fail(e) => return Err(e),
                    _ => 0,
                };
                if n > wire.len() - at - 4 {
                    return Err(short_read(stream_id));
                }
                let ct: &[u8] = slice_subrange(wire, at + 4, at + 4 + n);
                assert(w.subrange(4, 4 + n) =~= ct@);
                assert(w.skip(4 + n) =~= wire@.skip(at + 4 + n));
                match run.next(&RecvEvent::Frame(ct), seal, 0) {
                    RecvAction::Write(_, p) => {
                        out.extend_from_slice(p.as_slice());
                        proof {
                            assert(out@ =~= was + p@);
                            let t = received(
                                wire@.skip(at + 4 + n),
                                (left - p@.len()) as nat,
                                k + 1,
                                stream_id,
                                sv,
                            );
                            assert(t matches Ok(x) ==> was + (p@ + x) =~= was + p@ + x);
                        }
                    },
                    RecvAction::Fail(e) => return Err(e),
                    _ => {},
                }
                at = at + 4 + n;
            },
            RecvAction::ReadClear(n) => {
                if n > wire.len() - at {
                    return Err(short_read(stream_id));
                }
                let chunk: &[u8] = slice_subrange(wire, at, at + n);
                assert(w.take(n as int) =~= chunk@);
                assert(w.skip(n as int) =~= wire@.skip(at + n));
                out.extend_from_slice(chunk);
                proof {
                    assert(out@ =~= was + chunk@);
                    let t = received(wire@.skip(at + n), (left - n) as nat, k, stream_id, sv);
                    assert(t matches Ok(x) ==> was + (chunk@ + x) =~= was + chunk@ + x);
                }
                run.next(&RecvEvent::Clear(chunk), seal, 0);
                at = at + n;
            },
            _ => break,
        }
    }
    assert(out@ + Seq::<u8>::empty() =~= out@);
    Ok(out)
}

} // verus!
