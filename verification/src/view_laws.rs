//! What the values of the library stand for.

use crate::control::{opt_bytes, step_view, ControlHeader, ControlStep, Reading};
use crate::copies::PushTree;
use crate::flags::{opt_str, opt_text, Flags};
use crate::payload::{seal_view, Cursor};
use crate::remote::key_view;
use crate::sink::{FileStep, Step};
use crate::stream_run::{
    RecvAction, RecvEvent, RecvInput, RecvRun, RecvStep, SendAction, SendEvent, SendInput, SendRun,
    SendStep,
};
use crate::text::{place, texts};
use crate::tree::{below, comps_of, local_joined, rel_texts, rels, slashed, LocalFile};
use crate::tree_run::{through_of, TreeAction, TreeJob, TreeStep, TreeTexts};
use vstd::prelude::*;

verus! {

/// An optional value stands for its text or its bytes, and none for none.
pub proof fn lemma_options_stand(t: String, s: &str, k: [u8; 32], r: &[u8; 32], a: &[u8], i: usize)
    ensures
        opt_text(Some(t)) == Some(t@) && opt_text(None) is None,
        opt_str(Some(s)) == Some(s@) && opt_str(None) is None,
        opt_bytes(Some(k)) == Some(k@) && opt_bytes(None) is None,
        key_view(Some(r)) == Some(r@) && key_view(None) is None,
        seal_view(Some((r, a))) == Some((r@, a@)) && seal_view(None) is None,
        place(Some(i)) == Some(i as int) && place(None) is None,
{
}

/// Strings in a row stand for their texts in that order.
pub proof fn lemma_texts_stand(v: Seq<String>, i: int)
    requires
        0 <= i < v.len(),
    ensures
        texts(v).len() == v.len(),
        texts(v)[i] == v[i]@,
{
}

/// Flags stand for their own fields.
pub proof fn lemma_flags_stand(f: Flags)
    ensures
        f@.streams == f.streams && f@.wnd == f.wnd && f@.progress == f.progress,
        f@.check == f.check && f@.check_set == f.check_set,
        f@.crypt == f.crypt && f@.crypt_set == f.crypt_set,
        f@.reverse == f.reverse && f@.resume == f.resume && f@.resume_from == f.resume_from,
        f@.json == f.json && f@.recurse == f.recurse && f@.preserve == f.preserve,
        f@.port_range == f.port_range && f@.rate_limit == f.rate_limit,
        f@.key is Some <==> f.key is Some,
        f.key matches Some(k) ==> f@.key == Some(k@),
        f.listen matches Some(t) ==> f@.listen == Some(t@),
        f.addr matches Some(t) ==> f@.addr == Some(t@),
        f.input matches Some(t) ==> f@.input == Some(t@),
        f.output matches Some(t) ==> f@.output == Some(t@),
        f@.listen is Some <==> f.listen is Some,
        f@.addr is Some <==> f.addr is Some,
        f@.input is Some <==> f.input is Some,
        f@.output is Some <==> f.output is Some,
        f@.rest.len() == f.rest@.len(),
        forall|i: int| 0 <= i < f.rest@.len() ==> #[trigger] f@.rest[i] == f.rest@[i]@,
{
}

/// A header stands for its own fields, and what is still to read of one for its
/// number of bytes.
pub proof fn lemma_header_stands(h: ControlHeader, n: usize)
    requires
        h.streams <= u32::MAX,
    ensures
        h@.flags == h.flags && h@.size == h.size && h@.streams == h.streams,
        h@.resume_from == h.resume_from && h@.meta == h.meta,
        h.hash matches Some(k) ==> h@.hash == Some(k@),
        h.salt matches Some(k) ==> h@.salt == Some(k@),
        h@.hash is Some <==> h.hash is Some,
        h@.salt is Some <==> h.salt is Some,
        step_view(ControlStep::More(n)) == Reading::More(n as nat),
        step_view(ControlStep::Done(h)) == Reading::Done(h@),
{
}

/// What a sending stream meets with and is to do stands for itself.
pub proof fn lemma_sends_stand(
    off: u64,
    n: usize,
    w: Vec<u8>,
    e: String,
    d: &[u8],
    m: &str,
    aborted: bool,
)
    ensures
        SendAction::Read(off, n)@ == SendStep::Read(off as int, n as nat),
        SendAction::Write(w)@ == SendStep::Write(w@),
        SendAction::Finish@ == SendStep::Finish,
        SendAction::Fail(e)@ == SendStep::Fail(e@),
        (SendEvent::Ready { aborted })@ == (SendInput::Ready { aborted }),
        SendEvent::Data(d)@ == SendInput::Data(d@),
        SendEvent::ReadFailed(m)@ == SendInput::ReadFailed(m@),
        SendEvent::WriteFailed(m)@ == SendInput::WriteFailed(m@),
{
}

/// What a receiving stream meets with and is to do stands for itself.
pub proof fn lemma_receives_stand(
    off: u64,
    n: usize,
    len: u32,
    w: Vec<u8>,
    e: String,
    d: &[u8],
    m: &str,
    aborted: bool,
)
    ensures
        RecvAction::ReadLength@ == RecvStep::ReadLength,
        RecvAction::ReadFrame(n)@ == RecvStep::ReadFrame(n as nat),
        RecvAction::ReadClear(n)@ == RecvStep::ReadClear(n as nat),
        RecvAction::Write(off, w)@ == RecvStep::Write(off as int, w@),
        RecvAction::Finish@ == RecvStep::Finish,
        RecvAction::Fail(e)@ == RecvStep::Fail(e@),
        (RecvEvent::Ready { aborted })@ == (RecvInput::Ready { aborted }),
        RecvEvent::Length(len)@ == RecvInput::Length(len),
        RecvEvent::Frame(d)@ == RecvInput::Frame(d@),
        RecvEvent::Clear(d)@ == RecvInput::Clear(d@),
        RecvEvent::ReadFailed(m)@ == RecvInput::ReadFailed(m@),
        RecvEvent::WriteFailed(m)@ == RecvInput::WriteFailed(m@),
{
}

/// A stream begins at the start of its range, with all of it to do, and counts its
/// frames from zero; each piece of work moves it on by its bytes.
pub proof fn lemma_streams_begin(start: u64, end: u64, id: u32, c: Cursor, n: nat)
    requires
        start <= end,
        n <= c.left,
        c.off + c.left <= u64::MAX,
        c.counter < u64::MAX,
    ensures
        SendRun::begin(start, end, id).cursor == (Cursor {
            off: start,
            left: (end - start) as u64,
            counter: 0,
        }),
        SendRun::begin(start, end, id).stream_id == id,
        SendRun::begin(start, end, id).stage is Ready,
        RecvRun::begin(start, end, id).cursor == (Cursor {
            off: start,
            left: (end - start) as u64,
            counter: 0,
        }),
        RecvRun::begin(start, end, id).stream_id == id,
        RecvRun::begin(start, end, id).stage is Ready,
        c.past(n, true).off == c.off + n,
        c.past(n, true).left == c.left - n,
        c.past(n, true).counter == c.counter + 1,
        c.past(n, false).off == c.off + n,
        c.past(n, false).left == c.left - n,
        c.past(n, false).counter == c.counter,
{
}

/// What is to do to a file stands for itself.
pub proof fn lemma_file_steps_stand(a: String, b: String, n: u64)
    ensures
        FileStep::Create(a)@ == Step::Create(a@),
        FileStep::Resize(a, n)@ == Step::Resize(a@, n),
        FileStep::Rename(a, b)@ == Step::Rename(a@, b@),
        FileStep::Remove(a)@ == Step::Remove(a@),
{
}

/// What is to do for a tree stands for itself.
pub proof fn lemma_tree_steps_stand(a: String, b: String, ps: Vec<String>, streams: usize)
    ensures
        TreeAction::MakeRemote(a)@ == TreeStep::MakeRemote(a@),
        TreeAction::MakeLocal(a)@ == TreeStep::MakeLocal(a@),
        TreeAction::Measure(a)@ == TreeStep::Measure(a@),
        TreeAction::Look(ps)@ == TreeStep::Look(texts(ps@)),
        (TreeAction::Copy { remote_file: a, local_file: b, streams })@ == (TreeStep::Copy {
            remote_file: a@,
            local_file: b@,
            streams,
        }),
        TreeAction::Fail(a)@ == TreeStep::Fail(a@),
        TreeAction::Finish@ == TreeStep::Finish,
{
}

/// A tree to push stands for the paths of its files, where they go and the command
/// that makes their directories; one to pull for its two directories and the names
/// that were listed.
pub proof fn lemma_tree_jobs_stand(t: PushTree, rpath: String, dst: String, names: Vec<String>)
    ensures
        TreeJob::Push(t)@ matches TreeTexts::Push { files, remote_files, mkdir } && files.len()
            == t.files@.len() && (forall|i: int|
            0 <= i < t.files@.len() ==> #[trigger] files[i] == t.files@[i].path@) && remote_files
            == texts(t.remote_files@) && (mkdir is Some <==> t.mkdir is Some) && (
        t.mkdir matches Some(c) ==> mkdir == Some(c@)),
        (TreeJob::Pull { rpath, dst, names })@ == (TreeTexts::Pull {
            rpath: rpath@,
            dst: dst@,
            names: texts(names@),
        }),
{
}

/// A file that was found is known by its relative path with slashes, and one of a
/// tree by its relative path.
pub proof fn lemma_names_stand(found: Seq<LocalFile>, i: int)
    requires
        0 <= i < found.len(),
    ensures
        rels(found).len() == found.len(),
        rels(found)[i] == slashed(found[i].rel@),
        rel_texts(found).len() == found.len(),
        rel_texts(found)[i] == found[i].rel@,
{
}

/// The paths that a pulled file goes through lead from the destination down to the
/// file itself, each one component below the one before it.
pub proof fn lemma_through_each(dst: Seq<char>, rel: Seq<char>, k: int)
    requires
        0 <= k < comps_of(rel).len(),
    ensures
        through_of(dst, rel).len() == comps_of(rel).len(),
        k == 0 ==> through_of(dst, rel)[k] == local_joined(dst, comps_of(rel)[k]),
        k > 0 ==> through_of(dst, rel)[k] == local_joined(
            through_of(dst, rel)[k - 1],
            comps_of(rel)[k],
        ),
{
    let c = comps_of(rel);
    let t = c.take(k + 1);
    assert(t.drop_last() =~= c.take(k));
    assert(t.last() == c[k]);
    if k == 0 {
        assert(below(dst, c.take(0)) == dst);
    }
}

} // verus!
