//! That runs come to their end when nothing fails, and what stops them.

use crate::banner::{banner_line, banner_text, line_feeds, BannerSoFar};
use crate::crypto::chacha_open;
use crate::liveness::{code_at, has_code, io_text, tells_timeout, timeout_of, to_kill, AgentEvent};
use crate::paths::{joined, safe_rel};
use crate::payload::{as_asked, CHUNK};
use crate::sink::{stage_after, stage_of, SinkEvent, SinkStage};
use crate::stream_run::{RecvInput, RecvRun, RecvStep, SendInput, SendRun, SendStep};
use crate::text::{dec, is_digit, lemma_number_dec, number, words};
use crate::text_laws::lemma_contains_text;
use crate::tree::{first_set, local_joined};
use crate::tree_run::{
    after, state_of, through_of, turn_of, TreeEvent, TreeStage, TreeStep, TreeTexts,
};
use crate::wire::{hex_text, key_of, le};
use vstd::prelude::*;

verus! {

/// A tree has as many files as were found or listed, and each goes between its
/// own two places.
pub proof fn lemma_tree_places(job: TreeTexts, k: int)
    ensures
        job matches TreeTexts::Push { files, remote_files, .. } ==> job.count() == files.len()
            && job.local_file(k) == files[k] && job.remote_file(k) == remote_files[k] && job.safe(
            k,
        ),
        job matches TreeTexts::Pull { rpath, dst, names } ==> job.count() == names.len()
            && job.remote_file(k) == joined(rpath, names[k]) && job.local_file(k) == local_joined(
            dst,
            names[k],
        ) && job.safe(k) == safe_rel(names[k]),
        job matches TreeTexts::Push { mkdir, .. } ==> job.makes() == mkdir is Some,
        job is Pull ==> job.makes(),
{
}

/// A file of a tree that is pushed goes over one stream if it is known to have at
/// most a mebibyte, and else over all; one that is pulled goes over one.
pub proof fn lemma_tree_streams(job: TreeTexts, streams: usize, at: int, len: Option<u64>)
    ensures
        after(job, streams, at, TreeEvent::Measured(len)).0 is Copying,
        after(job, streams, at, TreeEvent::Measured(len)).1 == (TreeStep::Copy {
            remote_file: job.remote_file(at),
            local_file: job.local_file(at),
            streams: if len is Some && len->0 <= 1024 * 1024 && streams > 1 { 1 } else { streams },
        }),
        forall|links: Vec<bool>|
            (forall|i: int| 0 <= i < links@.len() ==> !links@[i]) ==> #[trigger] after(
                job,
                streams,
                at,
                TreeEvent::Looked(links),
            ) == (
                TreeStage::Copying,
                TreeStep::Copy {
                    remote_file: job.remote_file(at),
                    local_file: job.local_file(at),
                    streams: if streams > 1 { 1 } else { streams },
                },
            ),
{
    assert forall|links: Vec<bool>|
        (forall|i: int| 0 <= i < links@.len() ==> !links@[i]) implies #[trigger] after(
        job,
        streams,
        at,
        TreeEvent::Looked(links),
    ) == (
        TreeStage::Copying,
        TreeStep::Copy {
            remote_file: job.remote_file(at),
            local_file: job.local_file(at),
            streams: if streams > 1 { 1 } else { streams },
        },
    ) by {
        lemma_none_set(links@, 0);
    }
}

proof fn lemma_none_set(flags: Seq<bool>, i: int)
    requires
        0 <= i,
        forall|k: int| 0 <= k < flags.len() ==> !flags[k],
    ensures
        first_set(flags, i) is None,
    decreases flags.len() - i,
{
    if i < flags.len() {
        lemma_none_set(flags, i + 1);
    }
}

/// An answer about the `k`-th file that lets it be copied: any size of a file to
/// push, and of one to pull that none of its paths is a symbolic link.
pub open spec fn lets_copy(job: TreeTexts, k: int, ev: TreeEvent) -> bool {
    match job {
        TreeTexts::Push { .. } => ev is Measured,
        TreeTexts::Pull { dst, names, .. } => ev matches TreeEvent::Looked(links) && links@.len()
            == through_of(dst, names[k]).len() && forall|i: int|
            0 <= i < links@.len() ==> !links@[i],
    }
}

/// The events of a tree of which nothing fails, up to its `n`-th file.
pub open spec fn smooth(job: TreeTexts, answers: Seq<TreeEvent>, n: int) -> Seq<TreeEvent>
    decreases n,
{
    if n <= 0 {
        if job.makes() {
            seq![TreeEvent::Start, TreeEvent::Made(Ok(()))]
        } else {
            seq![TreeEvent::Start]
        }
    } else {
        smooth(job, answers, n - 1).push(answers[n - 1]).push(TreeEvent::Copied(Ok(())))
    }
}

proof fn lemma_smooth(job: TreeTexts, streams: usize, answers: Seq<TreeEvent>, n: int)
    requires
        0 <= n <= job.count(),
        forall|k: int| 0 <= k < n ==> lets_copy(job, k, #[trigger] answers[k]),
        forall|k: int| 0 <= k < job.count() ==> #[trigger] job.safe(k),
    ensures
        state_of(job, streams, smooth(job, answers, n)) == (turn_of(job, n).0, n),
    decreases n,
{
    let evs = smooth(job, answers, n);
    if n == 0 {
        let none = Seq::<TreeEvent>::empty();
        let one = seq![TreeEvent::Start];
        assert(one.drop_last() =~= none);
        assert(state_of(job, streams, none) == (TreeStage::Idle, 0int));
        if job.makes() {
            assert(evs.drop_last() =~= one);
            assert(state_of(job, streams, one).0 is Making);
        }
    } else {
        assert(lets_copy(job, n - 1, answers[n - 1]));
        lemma_smooth(job, streams, answers, n - 1);
        let was = smooth(job, answers, n - 1);
        let mid = was.push(answers[n - 1]);
        assert(mid.drop_last() =~= was);
        assert(evs.drop_last() =~= mid);
        assert(job.safe(n - 1));
        if let TreeEvent::Looked(links) = answers[n - 1] {
            lemma_none_set(links@, 0);
        }
        assert(state_of(job, streams, mid) == (TreeStage::Copying, n - 1));
    }
}

/// A tree whose files can all be copied, and are, is done: no number of files, no
/// size and no name of a file is a reason not to, but a name that leads elsewhere.
pub proof fn lemma_tree_completes(job: TreeTexts, streams: usize, answers: Seq<TreeEvent>)
    requires
        forall|k: int| 0 <= k < job.count() ==> lets_copy(job, k, #[trigger] answers[k]),
        forall|k: int| 0 <= k < job.count() ==> #[trigger] job.safe(k),
    ensures
        state_of(job, streams, smooth(job, answers, job.count() as int)).0 is Done,
{
    lemma_smooth(job, streams, answers, job.count() as int);
}

/// A sink that meets with no failure, and finds the announced digest, puts the
/// file into its place.
pub proof fn lemma_sink_completes(hash: Option<[u8; 32]>, meta: Option<(u32, u64)>, d: [u8; 32])
    requires
        hash matches Some(h) ==> h@ == d@,
    ensures
        ({
            let a = seq![SinkEvent::Received(Ok(()))];
            let b = if hash is Some { a.push(SinkEvent::Hashed(Ok(d))) } else { a };
            let c = if meta is Some { b.push(SinkEvent::Kept(Ok(()))) } else { b };
            &&& stage_of(hash, meta, a) == if hash is Some {
                SinkStage::Hashing
            } else if meta is Some {
                SinkStage::Keeping
            } else {
                SinkStage::Placing
            }
            &&& stage_of(hash, meta, c) is Placing
            &&& stage_of(hash, meta, c.push(SinkEvent::Placed(Ok(())))) is Placed
        }),
{
    let a = seq![SinkEvent::Received(Ok(()))];
    let b = if hash is Some { a.push(SinkEvent::Hashed(Ok(d))) } else { a };
    let c = if meta is Some { b.push(SinkEvent::Kept(Ok(()))) } else { b };
    let e = c.push(SinkEvent::Placed(Ok(())));
    assert(a.drop_last() =~= Seq::empty());
    assert(a.push(SinkEvent::Hashed(Ok(d))).drop_last() =~= a);
    assert(b.push(SinkEvent::Kept(Ok(()))).drop_last() =~= b);
    assert(e.drop_last() =~= c);
    assert(stage_of(hash, meta, Seq::<SinkEvent>::empty()) is Receiving);
    assert(stage_of(hash, meta, a) == stage_after(hash, meta, SinkEvent::Received(Ok(()))));
    assert(stage_of(hash, meta, b) == if meta is Some {
        SinkStage::Keeping
    } else {
        SinkStage::Placing
    });
    assert(stage_of(hash, meta, c) is Placing);
}

/// Whatever fails ends a sink, and a digest other than the announced one is such
/// a failure.
pub proof fn lemma_sink_fails(
    hash: Option<[u8; 32]>,
    meta: Option<(u32, u64)>,
    d: [u8; 32],
    e: String,
)
    ensures
        stage_after(hash, meta, SinkEvent::Received(Err(e))) is Failed,
        stage_after(hash, meta, SinkEvent::Hashed(Err(e))) is Failed,
        stage_after(hash, meta, SinkEvent::Kept(Err(e))) is Failed,
        stage_after(hash, meta, SinkEvent::Placed(Err(e))) is Failed,
        stage_after(hash, meta, SinkEvent::Hashed(Ok(d))) is Failed <==> hash is Some && hash->0@
            != d@,
{
}

/// The events of a receiving stream that is given bytes in clear one by one, and
/// meets with nothing else.
pub open spec fn fed_clear(pieces: Seq<Seq<u8>>) -> Seq<RecvInput>
    decreases pieces.len(),
{
    let ready = RecvInput::Ready { aborted: false };
    if pieces.len() == 0 {
        seq![ready]
    } else {
        seq![ready, RecvInput::Clear(pieces[0])] + fed_clear(pieces.skip(1))
    }
}

/// A receiving stream that is given the bytes in clear that it asks for finishes,
/// wherever in the file its range lies and however long it is.
pub proof fn lemma_recv_clear_fed(run: RecvRun, pieces: Seq<Seq<u8>>, secs: u64)
    requires
        run.cursor.off + run.cursor.left <= u64::MAX,
        run.stage is Ready || run.stage is Writing,
        as_asked(pieces, run.cursor.left as nat, CHUNK as nat),
    ensures
        run.finishes(fed_clear(pieces), None, secs),
    decreases pieces.len(),
{
    let evs = fed_clear(pieces);
    let ready = RecvInput::Ready { aborted: false };
    assert(evs[0] == ready);
    if pieces.len() > 0 {
        let reading = run.after(ready, None, secs).0;
        let data = RecvInput::Clear(pieces[0]);
        let tail = evs.skip(1);
        assert(tail[0] == data);
        assert(tail.skip(1) =~= fed_clear(pieces.skip(1)));
        let next = reading.after(data, None, secs).0;
        assert(reading.fits(data, false));
        lemma_recv_clear_fed(next, pieces.skip(1), secs);
        assert(reading.finishes(tail, None, secs));
    }
}

/// The events of a receiving stream that is given sealed frames one by one, and
/// meets with nothing else.
pub open spec fn fed_frames(cts: Seq<Seq<u8>>) -> Seq<RecvInput>
    decreases cts.len(),
{
    let ready = RecvInput::Ready { aborted: false };
    if cts.len() == 0 {
        seq![ready]
    } else {
        seq![ready, RecvInput::Length(cts[0].len() as u32), RecvInput::Frame(cts[0])] + fed_frames(
            cts.skip(1),
        )
    }
}

/// Sealed frames of no more than 65616 bytes each, which open to `left` bytes in
/// all.
pub open spec fn frames_hold(
    cts: Seq<Seq<u8>>,
    left: nat,
    counter: nat,
    id: u32,
    seal: (Seq<u8>, Seq<u8>),
) -> bool
    decreases cts.len(),
{
    if left == 0 {
        cts.len() == 0
    } else {
        &&& cts.len() > 0
        &&& cts[0].len() <= 65616
        &&& chacha_open(
            seal.0,
            le(id as nat, 4) + le((counter as u64) as nat, 8),
            cts[0],
            seal.1,
        ) matches Some(p) && p.len() <= left && frames_hold(
            cts.skip(1),
            (left - p.len()) as nat,
            counter + 1,
            id,
            seal,
        )
    }
}

/// A receiving stream that is given frames which open to all of its range
/// finishes, wherever in the file its range lies and however long it is.
pub proof fn lemma_recv_frames_fed(
    run: RecvRun,
    cts: Seq<Seq<u8>>,
    seal: (Seq<u8>, Seq<u8>),
    secs: u64,
)
    requires
        run.cursor.off + run.cursor.left <= u64::MAX,
        run.cursor.counter + cts.len() < u64::MAX,
        run.stage is Ready || run.stage is Writing,
        frames_hold(
            cts,
            run.cursor.left as nat,
            run.cursor.counter as nat,
            run.stream_id,
            seal,
        ),
    ensures
        run.finishes(fed_frames(cts), Some(seal), secs),
    decreases cts.len(),
{
    let evs = fed_frames(cts);
    let ready = RecvInput::Ready { aborted: false };
    assert(evs[0] == ready);
    if cts.len() > 0 {
        let ct = cts[0];
        let len = RecvInput::Length(ct.len() as u32);
        let data = RecvInput::Frame(ct);
        let waiting = run.after(ready, Some(seal), secs).0;
        let tail = evs.skip(1);
        assert(tail[0] == len);
        let reading = waiting.after(len, Some(seal), secs).0;
        let tail2 = tail.skip(1);
        assert(tail2[0] == data);
        assert(tail2.skip(1) =~= fed_frames(cts.skip(1)));
        assert(reading.fits(data, true));
        let next = reading.after(data, Some(seal), secs).0;
        assert(next.stage is Writing);
        lemma_recv_frames_fed(next, cts.skip(1), seal, secs);
        assert(reading.finishes(tail2, Some(seal), secs));
        assert(waiting.finishes(tail, Some(seal), secs));
    }
}

/// A stream with bytes still to come stops when a sibling has failed, and one
/// that has none is done all the same.
pub proof fn lemma_abort_stops(
    send: SendRun,
    recv: RecvRun,
    seal: Option<(Seq<u8>, Seq<u8>)>,
    secs: u64,
)
    ensures
        send.cursor.left > 0 ==> {
            let r = send.after(SendInput::Ready { aborted: true }, seal, secs);
            r.0.stage is Ended && r.1 is Fail
        },
        send.cursor.left == 0 ==> send.after(SendInput::Ready { aborted: true }, seal, secs).1
            is Finish,
        recv.cursor.left > 0 ==> {
            let r = recv.after(RecvInput::Ready { aborted: true }, seal, secs);
            r.0.stage is Ended && r.1 is Fail
        },
        recv.cursor.left == 0 ==> recv.after(RecvInput::Ready { aborted: true }, seal, secs).1
            is Finish,
{
}

/// A failed read or write ends a stream with a failure.
pub proof fn lemma_io_stops(
    send: SendRun,
    recv: RecvRun,
    seal: Option<(Seq<u8>, Seq<u8>)>,
    e: Seq<char>,
    secs: u64,
)
    ensures
        send.after(SendInput::ReadFailed(e), seal, secs).0.stage is Ended,
        send.after(SendInput::ReadFailed(e), seal, secs).1 == SendStep::Fail(e),
        send.after(SendInput::WriteFailed(e), seal, secs).0.stage is Ended,
        send.after(SendInput::WriteFailed(e), seal, secs).1 is Fail,
        recv.after(RecvInput::ReadFailed(e), seal, secs).0.stage is Ended,
        recv.after(RecvInput::ReadFailed(e), seal, secs).1 is Fail,
        recv.after(RecvInput::WriteFailed(e), seal, secs).0.stage is Ended,
        recv.after(RecvInput::WriteFailed(e), seal, secs).1 == RecvStep::Fail(e),
{
}

/// The timeout is what the environment says, if it is a number above zero, however
/// large, and else two minutes.
pub proof fn lemma_timeout_read(n: u64, s: Seq<char>)
    ensures
        timeout_of(None) == 120,
        n > 0 ==> timeout_of(Some(dec(n as nat))) == n,
        timeout_of(Some(dec(0))) == 120,
        number(s, 0xffff_ffff_ffff_ffff) is None ==> timeout_of(Some(s)) == 120,
{
    lemma_number_dec(n as nat, u64::MAX as nat);
    lemma_number_dec(0, u64::MAX as nat);
}

/// An error is a timeout if and only if it says so, or holds one of two codes
/// with no further digit behind it.
pub proof fn lemma_timeout_told(e: Seq<char>)
    ensures
        tells_timeout(e) <==> {
            ||| exists|i: int|
                0 <= i && i + "timed out"@.len() <= e.len() && #[trigger] e.subrange(
                    i,
                    i + "timed out"@.len(),
                ) == "timed out"@
            ||| exists|i: int|
                0 <= i && i + "temporarily unavailable"@.len() <= e.len()
                    && #[trigger] e.subrange(i, i + "temporarily unavailable"@.len())
                    == "temporarily unavailable"@
            ||| exists|i: int| ends_number(e, "os error 11"@, i)
            ||| exists|i: int| ends_number(e, "os error 110"@, i)
        },
{
    lemma_contains_text(e, "timed out"@);
    lemma_contains_text(e, "temporarily unavailable"@);
    lemma_code(e, "os error 11"@);
    lemma_code(e, "os error 110"@);
}

/// A code stands at index `i`, and no digit follows it.
pub open spec fn ends_number(e: Seq<char>, code: Seq<char>, i: int) -> bool {
    &&& 0 <= i && i + code.len() <= e.len()
    &&& e.subrange(i, i + code.len()) == code
    &&& i + code.len() == e.len() || e[i + code.len()] < '0' || e[i + code.len()] > '9'
}

proof fn lemma_code(e: Seq<char>, code: Seq<char>)
    ensures
        has_code(e, code) <==> exists|i: int| ends_number(e, code, i),
{
    assert forall|i: int| #[trigger] code_at(e, code, i) == ends_number(e, code, i) by {
        lemma_digit(e[i + code.len()]);
    }
    if has_code(e, code) {
        let i = choose|i: int| code_at(e, code, i);
        assert(ends_number(e, code, i));
    }
    if exists|i: int| ends_number(e, code, i) {
        let i = choose|i: int| ends_number(e, code, i);
        assert(code_at(e, code, i));
    }
}

proof fn lemma_digit(c: char)
    ensures
        is_digit(c) <==> '0' <= c <= '9',
{
}

/// The failure of a stream names the stream and what it was doing, and tells a
/// timeout with its seconds, and any other error as it is.
pub proof fn lemma_io_told(id: u32, op: Seq<char>, e: Seq<char>, secs: u64)
    ensures
        tells_timeout(e) ==> io_text(id, op, e, secs) == "stream "@ + dec(id as nat) + " "@ + op
            + " timed out after "@ + dec(secs as nat) + "s (peer stalled or dead)"@,
        !tells_timeout(e) ==> io_text(id, op, e, secs) == "stream "@ + dec(id as nat) + " "@ + op
            + ": "@ + e,
{
}

/// An agent is killed if the transfer failed and it has not ended, or if its time
/// is up, and not otherwise.
pub proof fn lemma_agent_killed(transfer: Option<Seq<char>>, ev: AgentEvent)
    ensures
        to_kill(transfer, ev) <==> !(ev is Ended) && (transfer is Some || (
        ev matches AgentEvent::Running { time_up } && time_up)),
{
}

/// The banner of an agent: its port, then its key if it has one to tell, then how
/// much of the file it has if it is to tell that, each on a line.
pub proof fn lemma_banner_lines(port: u16, key: Option<Seq<u8>>, have: Option<u64>)
    ensures
        key is None && have is None ==> banner_text(port, key, have) == "PORT "@ + dec(port as nat)
            + "\n"@,
        key is Some && have is None ==> banner_text(port, key, have) == "PORT "@ + dec(port as nat)
            + "\n"@ + ("KEY "@ + hex_text(key->0) + "\n"@),
        key is None && have is Some ==> banner_text(port, key, have) == "PORT "@ + dec(port as nat)
            + "\n"@ + ("RESUME "@ + dec(have->0 as nat) + "\n"@),
        key is Some && have is Some ==> banner_text(port, key, have) == "PORT "@ + dec(port as nat)
            + "\n"@ + ("KEY "@ + hex_text(key->0) + "\n"@) + ("RESUME "@ + dec(have->0 as nat)
            + "\n"@),
{
    let none = Seq::<char>::empty();
    let p = "PORT "@ + dec(port as nat) + "\n"@;
    assert(p + none + none =~= p);
    assert(p + none =~= p);
    if let Some(k) = key {
        let l = "KEY "@ + hex_text(k) + "\n"@;
        assert(p + l + none =~= p + l);
    }
}

/// A line of a banner sets what its first word names, and nothing else; a line
/// that starts with another word, or has none, changes nothing.
pub proof fn lemma_banner_words(b: BannerSoFar, l: Seq<char>)
    ensures
        words(l).len() == 0 || (words(l)[0] != "PORT"@ && words(l)[0] != "KEY"@ && words(l)[0]
            != "RESUME"@) ==> banner_line(b, l) == Ok::<BannerSoFar, Seq<char>>(b),
        words(l).len() >= 2 && words(l)[0] == "PORT"@ ==> match number(words(l)[1], 65535) {
            Some(p) => banner_line(b, l) == Ok::<BannerSoFar, Seq<char>>(
                BannerSoFar { port: Some(p as u16), key: b.key, resume_from: b.resume_from },
            ),
            None => banner_line(b, l) is Err,
        },
        words(l).len() >= 2 && words(l)[0] == "KEY"@ ==> match key_of(words(l)[1]) {
            Ok(k) => banner_line(b, l) == Ok::<BannerSoFar, Seq<char>>(
                BannerSoFar { port: b.port, key: Some(k), resume_from: b.resume_from },
            ),
            Err(_) => banner_line(b, l) is Err,
        },
        words(l).len() >= 2 && words(l)[0] == "RESUME"@ ==> match number(
            words(l)[1],
            0xffff_ffff_ffff_ffff,
        ) {
            Some(n) => banner_line(b, l) == Ok::<BannerSoFar, Seq<char>>(
                BannerSoFar { port: b.port, key: b.key, resume_from: n as u64 },
            ),
            None => banner_line(b, l) is Err,
        },
{
    reveal_strlit("PORT");
    reveal_strlit("KEY");
    reveal_strlit("RESUME");
    assert("PORT"@.len() == 4);
    assert("KEY"@.len() == 3);
    assert("RESUME"@.len() == 6);
}

/// Each line feed counts once towards the lines of a banner, and no other byte
/// does.
pub proof fn lemma_feeds_counted(b: Seq<u8>, x: u8)
    ensures
        line_feeds(Seq::empty(), 0) == 0,
        line_feeds(b.push(x), b.len() + 1int) == line_feeds(b, b.len() as int) + if x == 10 {
            1nat
        } else {
            0
        },
{
    lemma_feeds_prefix(b, x, b.len() as int);
}

proof fn lemma_feeds_prefix(b: Seq<u8>, x: u8, n: int)
    requires
        0 <= n <= b.len(),
    ensures
        line_feeds(b.push(x), n) == line_feeds(b, n),
    decreases n,
{
    if n > 0 {
        lemma_feeds_prefix(b, x, n - 1);
        assert(b.push(x)[n - 1] == b[n - 1]);
    }
}

} // verus!
