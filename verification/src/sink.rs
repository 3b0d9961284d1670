//! How a sink lays its file down.

use crate::crypto::check_digest;
use crate::liveness::failure;
use crate::ranges::{
    is_split, lemma_ranges_end_to_end, lemma_ranges_exclusive, range_of, range_start, transfer_ranges,
};
use crate::text::{dec, dec_text, lemma_dec_digits, lemma_number_dec, is_digit, rfind_below};
use crate::wire::hex_text;
use vstd::prelude::*;

verus! {

/// One step on the files of a directory.
pub enum FileStep {
    /// Make a new, empty file where there is none.
    Create(String),
    /// Cut a file off, or fill it up with zero bytes.
    Resize(String, u64),
    /// Give the first file the name of the second, which it replaces.
    Rename(String, String),
    Remove(String),
}

/// `FileStep` over mathematical values.
pub enum Step {
    Create(Seq<char>),
    Resize(Seq<char>, u64),
    Rename(Seq<char>, Seq<char>),
    Remove(Seq<char>),
}

impl View for FileStep {
    type V = Step;

    open spec fn view(&self) -> Step {
        match self {
            FileStep::Create(p) => Step::Create(p@),
            FileStep::Resize(p, n) => Step::Resize(p@, *n),
            FileStep::Rename(a, b) => Step::Rename(a@, b@),
            FileStep::Remove(p) => Step::Remove(p@),
        }
    }
}

pub open spec fn steps(v: Seq<FileStep>) -> Seq<Step> {
    v.map_values(|s: FileStep| s@)
}

/// The first `n` bytes, with zero bytes for those that are missing.
pub open spec fn resized(b: Seq<u8>, n: nat) -> Seq<u8> {
    Seq::new(
        n,
        |i: int|
            if i < b.len() {
                b[i]
            } else {
                0
            },
    )
}

/// The files, by their paths, after a step.
pub open spec fn after_step(fs: Map<Seq<char>, Seq<u8>>, s: Step) -> Map<Seq<char>, Seq<u8>> {
    match s {
        Step::Create(p) => fs.insert(p, Seq::empty()),
        Step::Resize(p, n) => if fs.contains_key(p) {
            fs.insert(p, resized(fs[p], n as nat))
        } else {
            fs
        },
        Step::Rename(a, b) => if fs.contains_key(a) {
            fs.remove(a).insert(b, fs[a])
        } else {
            fs
        },
        Step::Remove(p) => fs.remove(p),
    }
}

/// The files after a list of steps.
pub open spec fn after_steps(fs: Map<Seq<char>, Seq<u8>>, s: Seq<Step>) -> Map<Seq<char>, Seq<u8>>
    decreases s.len(),
{
    if s.len() == 0 {
        fs
    } else {
        after_step(after_steps(fs, s.drop_last()), s.last())
    }
}

/// The name of the file that stands in for `out` until it is complete.
pub open spec fn temp_text(out: Seq<char>, tag: u64) -> Seq<char> {
    out + ".bbx."@ + dec(tag as nat) + ".tmp"@
}

pub fn temp_name(out: &str, tag: u64) -> (r: String)
    ensures
        r@ == temp_text(out@, tag),
{
    let mut r: String = out.to_owned();
    r.append(".bbx.");
    r.append(dec_text(tag).as_str());
    r.append(".tmp");
    r
}

/// How a sink lays a file down.
pub struct SinkPlan {
    /// The file that takes the bytes. Digest, mode and time are those of this
    /// file.
    pub target: String,
    /// Steps before the first byte.
    pub open: Vec<FileStep>,
    /// Steps when the file is complete and its digest is right.
    pub commit: Vec<FileStep>,
    /// Steps when the transfer has failed.
    pub rollback: Vec<FileStep>,
    /// The ranges that the streams fill.
    pub ranges: Vec<(u64, u64)>,
}

/// The steps before the first byte. A fresh file is built beside its place; a
/// file that is resumed is cut off at the resume offset and filled up.
pub open spec fn open_steps(out: Seq<char>, tag: u64, size: u64, resume_from: u64) -> Seq<Step> {
    if resume_from == 0 {
        seq![Step::Create(temp_text(out, tag)), Step::Resize(temp_text(out, tag), size)]
    } else {
        seq![Step::Resize(out, resume_from), Step::Resize(out, size)]
    }
}

/// The steps that put a complete file into its place.
pub open spec fn commit_steps(out: Seq<char>, tag: u64, resume_from: u64) -> Seq<Step> {
    if resume_from == 0 {
        seq![Step::Rename(temp_text(out, tag), out)]
    } else {
        Seq::empty()
    }
}

/// The steps after a failure: nothing remains of a fresh file, and a file that
/// was resumed is cut off at the resume offset again.
pub open spec fn rollback_steps(out: Seq<char>, tag: u64, resume_from: u64) -> Seq<Step> {
    if resume_from == 0 {
        seq![Step::Remove(temp_text(out, tag))]
    } else {
        seq![Step::Resize(out, resume_from)]
    }
}

/// The steps after a failed transfer.
pub fn sink_fail_cleanup(out: &str, tag: u64, resume_from: u64) -> (r: Vec<FileStep>)
    ensures
        steps(r@) == rollback_steps(out@, tag, resume_from),
{
    let mut r: Vec<FileStep> = Vec::new();
    if resume_from == 0 {
        r.push(FileStep::Remove(temp_name(out, tag)));
    } else {
        r.push(FileStep::Resize(out.to_owned(), resume_from));
    }
    assert(steps(r@) =~= rollback_steps(out@, tag, resume_from));
    r
}

/// The plan of a sink for a file of `size` bytes, of which those before
/// `resume_from` are at hand. `have` is the length of the file in place, and
/// `tag` tells stand-in files apart.
pub fn finish_sink(
    out: &str,
    tag: u64,
    have: u64,
    size: u64,
    resume_from: u64,
    streams: usize,
) -> (r: Result<SinkPlan, String>)
    requires
        streams > 0,
        resume_from <= size,
    ensures
        r is Ok <==> resume_from <= have,
        match r {
            Err(e) => e@ == "local file shorter than resume_from ("@ + dec(have as nat) + " < "@
                + dec(resume_from as nat) + ")"@,
            Ok(p) => {
                &&& p.target@ == if resume_from == 0 {
                    temp_text(out@, tag)
                } else {
                    out@
                }
                &&& steps(p.open@) == open_steps(out@, tag, size, resume_from)
                &&& steps(p.commit@) == commit_steps(out@, tag, resume_from)
                &&& steps(p.rollback@) == rollback_steps(out@, tag, resume_from)
                &&& is_split(
                    p.ranges@,
                    (size - resume_from) as nat,
                    streams as nat,
                    resume_from as nat,
                )
            },
        },
{
    if have < resume_from {
        let mut m: String = "local file shorter than resume_from (".to_owned();
        m.append(dec_text(have).as_str());
        m.append(" < ");
        m.append(dec_text(resume_from).as_str());
        m.append(")");
        return Err(m);
    }
    let mut open: Vec<FileStep> = Vec::new();
    let mut commit: Vec<FileStep> = Vec::new();
    let target: String = if resume_from == 0 {
        open.push(FileStep::Create(temp_name(out, tag)));
        open.push(FileStep::Resize(temp_name(out, tag), size));
        commit.push(FileStep::Rename(temp_name(out, tag), out.to_owned()));
        temp_name(out, tag)
    } else {
        open.push(FileStep::Resize(out.to_owned(), resume_from));
        open.push(FileStep::Resize(out.to_owned(), size));
        out.to_owned()
    };
    assert(steps(open@) =~= open_steps(out@, tag, size, resume_from));
    assert(steps(commit@) =~= commit_steps(out@, tag, resume_from));
    Ok(
        SinkPlan {
            target,
            open,
            commit,
            rollback: sink_fail_cleanup(out, tag, resume_from),
            ranges: transfer_ranges(size, resume_from, streams),
        },
    )
}

proof fn lemma_one_step(fs: Map<Seq<char>, Seq<u8>>, a: Step)
    ensures
        after_steps(fs, seq![a]) == after_step(fs, a),
{
    assert(seq![a].drop_last() =~= Seq::empty());
    assert(after_steps(fs, seq![a].drop_last()) == fs);
}

proof fn lemma_two_steps(fs: Map<Seq<char>, Seq<u8>>, a: Step, b: Step)
    ensures
        after_steps(fs, seq![a, b]) == after_step(after_step(fs, a), b),
{
    assert(seq![a, b].drop_last() =~= seq![a]);
    lemma_one_step(fs, a);
}

/// A stand-in file is never its own destination, lies in the same directory, and
/// is another one for another tag.
pub proof fn lemma_temp_beside(out: Seq<char>, tag: u64)
    ensures
        temp_text(out, tag) != out,
        rfind_below(temp_text(out, tag), '/', temp_text(out, tag).len() as int) == rfind_below(
            out,
            '/',
            out.len() as int,
        ),
        forall|other: u64| #[trigger]
            temp_text(out, other) == temp_text(out, tag) ==> other == tag,
{
    reveal_strlit(".bbx.");
    reveal_strlit(".tmp");
    let t = temp_text(out, tag);
    lemma_dec_digits(tag as nat);
    assert forall|k: int| out.len() <= k < t.len() implies t[k] != '/' by {
        if out.len() + 5 <= k < out.len() + 5 + dec(tag as nat).len() {
            assert(is_digit(dec(tag as nat)[k - out.len() - 5]));
        }
    }
    assert(t.take(out.len() as int) =~= out);
    lemma_rfind_skips(t, out, '/', t.len() as int);
    assert forall|other: u64| #[trigger] temp_text(out, other) == t implies other == tag by {
        lemma_temp_tag(out, tag);
        lemma_temp_tag(out, other);
        lemma_number_dec(tag as nat, u64::MAX as nat);
        lemma_number_dec(other as nat, u64::MAX as nat);
    }
}

proof fn lemma_temp_tag(out: Seq<char>, tag: u64)
    ensures
        temp_text(out, tag).len() >= out.len() + 9,
        temp_text(out, tag).subrange(out.len() + 5int, temp_text(out, tag).len() - 4) == dec(
            tag as nat,
        ),
{
    reveal_strlit(".bbx.");
    reveal_strlit(".tmp");
    assert(temp_text(out, tag).subrange(out.len() + 5int, temp_text(out, tag).len() - 4) =~= dec(
        tag as nat,
    ));
}

proof fn lemma_rfind_skips(t: Seq<char>, s: Seq<char>, c: char, n: int)
    requires
        s.len() <= n <= t.len(),
        t.take(s.len() as int) == s,
        forall|k: int| s.len() <= k < n ==> t[k] != c,
    ensures
        rfind_below(t, c, n) == rfind_below(s, c, s.len() as int),
    decreases n,
{
    if n > s.len() {
        lemma_rfind_skips(t, s, c, n - 1);
    } else {
        lemma_rfind_same(t, s, c, n);
    }
}

proof fn lemma_rfind_same(t: Seq<char>, s: Seq<char>, c: char, n: int)
    requires
        0 <= n <= s.len() <= t.len(),
        t.take(s.len() as int) == s,
    ensures
        rfind_below(t, c, n) == rfind_below(s, c, n),
    decreases n,
{
    if n > 0 {
        assert(t[n - 1] == t.take(s.len() as int)[n - 1]);
        lemma_rfind_same(t, s, c, n - 1);
    }
}

/// While a fresh file is built, and after a failure, every other file is as it
/// was, the destination too, and after a failure no stand-in file is left.
/// `fs` are the files before, and `now` those when the transfer failed, with
/// whatever the stand-in file held.
pub proof fn lemma_fresh_failure(
    fs: Map<Seq<char>, Seq<u8>>,
    now: Map<Seq<char>, Seq<u8>>,
    out: Seq<char>,
    tag: u64,
    size: u64,
)
    requires
        !fs.contains_key(temp_text(out, tag)),
        now.remove(temp_text(out, tag)) == after_steps(fs, open_steps(out, tag, size, 0)).remove(
            temp_text(out, tag),
        ),
    ensures
        after_steps(fs, open_steps(out, tag, size, 0)).remove(temp_text(out, tag)) == fs,
        after_steps(now, rollback_steps(out, tag, 0)) == fs,
{
    let t = temp_text(out, tag);
    lemma_two_steps(fs, Step::Create(t), Step::Resize(t, size));
    lemma_one_step(now, Step::Remove(t));
    assert(after_steps(fs, open_steps(out, tag, size, 0)).remove(t) =~= fs);
}

/// A fresh file that is complete takes the place of its destination, and
/// nothing else changes.
pub proof fn lemma_fresh_success(
    fs: Map<Seq<char>, Seq<u8>>,
    now: Map<Seq<char>, Seq<u8>>,
    out: Seq<char>,
    tag: u64,
    size: u64,
    file: Seq<u8>,
)
    requires
        !fs.contains_key(temp_text(out, tag)),
        now == after_steps(fs, open_steps(out, tag, size, 0)).insert(temp_text(out, tag), file),
    ensures
        after_steps(now, commit_steps(out, tag, 0)) == fs.insert(out, file),
{
    let t = temp_text(out, tag);
    lemma_temp_beside(out, tag);
    lemma_two_steps(fs, Step::Create(t), Step::Resize(t, size));
    lemma_one_step(now, Step::Rename(t, out));
    assert(now.remove(t).insert(out, now[t]) =~= fs.insert(out, file));
}

/// Before the first byte of a resumed transfer the file in place has its full
/// size: the bytes before the resume offset are as they were, and none of those
/// behind it.
pub proof fn lemma_resume_open(
    fs: Map<Seq<char>, Seq<u8>>,
    out: Seq<char>,
    tag: u64,
    size: u64,
    resume_from: u64,
)
    requires
        0 < resume_from <= size,
        fs.contains_key(out),
        fs[out].len() >= resume_from,
    ensures
        after_steps(fs, open_steps(out, tag, size, resume_from)) == fs.insert(
            out,
            resized(fs[out].take(resume_from as int), size as nat),
        ),
{
    lemma_two_steps(fs, Step::Resize(out, resume_from), Step::Resize(out, size));
    assert(resized(fs[out], resume_from as nat) =~= fs[out].take(resume_from as int));
    assert(fs.insert(out, resized(fs[out], resume_from as nat)).insert(
        out,
        resized(fs[out].take(resume_from as int), size as nat),
    ) =~= fs.insert(out, resized(fs[out].take(resume_from as int), size as nat)));
}

/// A resumed transfer that is complete leaves the file in place as it is, and
/// nothing else changes.
pub proof fn lemma_resume_success(
    fs: Map<Seq<char>, Seq<u8>>,
    out: Seq<char>,
    tag: u64,
    size: u64,
    resume_from: u64,
    file: Seq<u8>,
)
    requires
        0 < resume_from <= size,
        fs.contains_key(out),
        fs[out].len() >= resume_from,
    ensures
        after_steps(
            after_steps(fs, open_steps(out, tag, size, resume_from)).insert(out, file),
            commit_steps(out, tag, resume_from),
        ) == fs.insert(out, file),
{
    lemma_resume_open(fs, out, tag, size, resume_from);
    let now = after_steps(fs, open_steps(out, tag, size, resume_from)).insert(out, file);
    assert(now =~= fs.insert(out, file));
}

/// After a resumed transfer has failed, the file in place holds what it held
/// before the resume offset and nothing more, and no other file has changed.
pub proof fn lemma_resume_failure(
    fs: Map<Seq<char>, Seq<u8>>,
    got: Seq<u8>,
    out: Seq<char>,
    tag: u64,
    resume_from: u64,
)
    requires
        0 < resume_from <= got.len(),
        fs.contains_key(out),
        fs[out].len() >= resume_from,
        got.take(resume_from as int) == fs[out].take(resume_from as int),
    ensures
        after_steps(fs.insert(out, got), rollback_steps(out, tag, resume_from)) == fs.insert(
            out,
            fs[out].take(resume_from as int),
        ),
{
    let now = fs.insert(out, got);
    lemma_one_step(now, Step::Resize(out, resume_from));
    assert(resized(got, resume_from as nat) =~= got.take(resume_from as int));
    assert(now.insert(out, got.take(resume_from as int)) =~= fs.insert(
        out,
        fs[out].take(resume_from as int),
    ));
}

/// A file whose every range holds the bytes of the source, behind a prefix that
/// does, is the file of the source.
pub proof fn lemma_file_complete(
    file: Seq<u8>,
    got: Seq<u8>,
    ranges: Seq<(u64, u64)>,
    resume_from: nat,
    streams: nat,
)
    requires
        streams > 0,
        resume_from <= file.len(),
        got.len() == file.len(),
        is_split(ranges, (file.len() - resume_from) as nat, streams, resume_from),
        got.take(resume_from as int) == file.take(resume_from as int),
        forall|i: int|
            0 <= i < streams ==> got.subrange((#[trigger] ranges[i]).0 as int, ranges[i].1 as int)
                == file.subrange(ranges[i].0 as int, ranges[i].1 as int),
    ensures
        got == file,
{
    let left = (file.len() - resume_from) as nat;
    assert forall|k: int| 0 <= k < file.len() implies got[k] == file[k] by {
        if k < resume_from {
            assert(got.take(resume_from as int)[k] == got[k]);
            assert(file.take(resume_from as int)[k] == file[k]);
        } else {
            let off = (k - resume_from) as nat;
            lemma_ranges_exclusive(left, streams, off);
            let i = choose|i: nat|
                i < streams && (#[trigger] range_of(left, streams, i)).0 <= off < range_of(
                    left,
                    streams,
                    i,
                ).1;
            let r = ranges[i as int];
            assert(r.0 == resume_from + range_of(left, streams, i).0);
            assert(r.1 == resume_from + range_of(left, streams, i).1);
            assert(r.0 <= k < r.1);
            lemma_ranges_end_to_end(left, streams);
            assert(range_start(left, streams, i + 1) <= range_start(left, streams, streams));
            assert(r.1 <= file.len());
            let a = got.subrange(r.0 as int, r.1 as int);
            let b = file.subrange(r.0 as int, r.1 as int);
            assert(a == b);
            assert(a[k - r.0] == got[k]);
            assert(b[k - r.0] == file[k]);
        }
    }
    assert(got =~= file);
}

/// How far a sink is with a file.
pub enum SinkStage {
    /// The streams fill the file.
    Receiving,
    /// The digest of the file is taken.
    Hashing,
    /// Mode and time are set.
    Keeping,
    /// The file is put into its place.
    Placing,
    /// The file is in its place.
    Placed,
    /// The transfer has failed.
    Failed,
}

/// What a sink has done with a file.
pub enum SinkEvent {
    Received(Result<(), String>),
    Hashed(Result<[u8; 32], String>),
    Kept(Result<(), String>),
    Placed(Result<(), String>),
}

/// What a sink is to do next.
pub enum SinkAction {
    /// Take the digest of the file.
    Hash,
    /// Set mode and time of the file.
    Keep(u32, u64),
    /// Take the steps that put the file into its place.
    Commit,
    /// Take the steps after a failure, and tell it.
    Rollback(String),
    /// All is done.
    Finish,
}

/// The stage that an event belongs to.
pub open spec fn fits(stage: SinkStage, ev: SinkEvent) -> bool {
    match ev {
        SinkEvent::Received(_) => stage is Receiving,
        SinkEvent::Hashed(_) => stage is Hashing,
        SinkEvent::Kept(_) => stage is Keeping,
        SinkEvent::Placed(_) => stage is Placing,
    }
}

/// How an event tells of a failure, if it does. A digest other than the
/// announced one is a failure.
pub open spec fn event_failure(hash: Option<[u8; 32]>, ev: SinkEvent) -> Option<Seq<char>> {
    match ev {
        SinkEvent::Hashed(Ok(d)) => match hash {
            Some(h) if h@ != d@ => Some(
                "checksum mismatch: expected "@ + hex_text(h@) + " got "@ + hex_text(d@),
            ),
            _ => None,
        },
        SinkEvent::Hashed(Err(e)) => Some(e@),
        SinkEvent::Received(r) => failure(r),
        SinkEvent::Kept(r) => failure(r),
        SinkEvent::Placed(r) => failure(r),
    }
}

/// The stage after an event: the next one that there is something to do in, or
/// failure.
pub open spec fn stage_after(
    hash: Option<[u8; 32]>,
    meta: Option<(u32, u64)>,
    ev: SinkEvent,
) -> SinkStage {
    if event_failure(hash, ev) is Some {
        SinkStage::Failed
    } else {
        match ev {
            SinkEvent::Received(_) => if hash is Some {
                SinkStage::Hashing
            } else if meta is Some {
                SinkStage::Keeping
            } else {
                SinkStage::Placing
            },
            SinkEvent::Hashed(_) => if meta is Some {
                SinkStage::Keeping
            } else {
                SinkStage::Placing
            },
            SinkEvent::Kept(_) => SinkStage::Placing,
            SinkEvent::Placed(_) => SinkStage::Placed,
        }
    }
}

/// A sink at work on a file, with the digest and the mode and time that were
/// announced.
pub struct SinkRun {
    pub stage: SinkStage,
    pub hash: Option<[u8; 32]>,
    pub meta: Option<(u32, u64)>,
}

impl SinkRun {
    /// A sink whose streams are about to fill the file.
    pub fn start(hash: Option<[u8; 32]>, meta: Option<(u32, u64)>) -> (r: SinkRun)
        ensures
            r.stage is Receiving,
            r.hash == hash,
            r.meta == meta,
    {
        SinkRun { stage: SinkStage::Receiving, hash, meta }
    }

    fn keep_or_commit(&mut self) -> (r: SinkAction)
        ensures
            final(self).hash == old(self).hash,
            final(self).meta == old(self).meta,
            match old(self).meta {
                Some(m) => final(self).stage is Keeping && r == SinkAction::Keep(m.0, m.1),
                None => final(self).stage is Placing && r is Commit,
            },
    {
        match self.meta {
            Some((mode, mtime)) => {
                self.stage = SinkStage::Keeping;
                SinkAction::Keep(mode, mtime)
            },
            None => {
                self.stage = SinkStage::Placing;
                SinkAction::Commit
            },
        }
    }

    fn fail(&mut self, e: &str) -> (r: SinkAction)
        ensures
            final(self).hash == old(self).hash,
            final(self).meta == old(self).meta,
            final(self).stage is Failed,
            r matches SinkAction::Rollback(x) && x@ == e@,
    {
        self.stage = SinkStage::Failed;
        SinkAction::Rollback(e.to_owned())
    }

    /// Moves on after an event.
    pub fn next(&mut self, ev: &SinkEvent) -> (r: SinkAction)
        requires
            fits(old(self).stage, *ev),
        ensures
            final(self).hash == old(self).hash,
            final(self).meta == old(self).meta,
            final(self).stage == stage_after(old(self).hash, old(self).meta, *ev),
            match final(self).stage {
                SinkStage::Hashing => r is Hash,
                SinkStage::Keeping => r matches SinkAction::Keep(a, b) && old(self).meta == Some(
                    (a, b),
                ),
                SinkStage::Placing => r is Commit,
                SinkStage::Placed => r is Finish,
                SinkStage::Failed => r matches SinkAction::Rollback(e) && event_failure(
                    old(self).hash,
                    *ev,
                ) == Some(e@),
                SinkStage::Receiving => false,
            },
    {
        match ev {
            SinkEvent::Received(Err(e)) => self.fail(e.as_str()),
            SinkEvent::Received(Ok(_)) => {
                if self.hash.is_some() {
                    self.stage = SinkStage::Hashing;
                    SinkAction::Hash
                } else {
                    self.keep_or_commit()
                }
            },
            SinkEvent::Hashed(Err(e)) => self.fail(e.as_str()),
            SinkEvent::Hashed(Ok(d)) => {
                if let Some(h) = self.hash {
                    if let Err(e) = check_digest(&h, d) {
                        return self.fail(e.as_str());
                    }
                }
                self.keep_or_commit()
            },
            SinkEvent::Kept(Err(e)) => self.fail(e.as_str()),
            SinkEvent::Kept(Ok(_)) => {
                self.stage = SinkStage::Placing;
                SinkAction::Commit
            },
            SinkEvent::Placed(Err(e)) => self.fail(e.as_str()),
            SinkEvent::Placed(Ok(_)) => {
                self.stage = SinkStage::Placed;
                SinkAction::Finish
            },
        }
    }
}

/// The stage after a run of events; an event out of place changes nothing.
pub open spec fn stage_of(
    hash: Option<[u8; 32]>,
    meta: Option<(u32, u64)>,
    evs: Seq<SinkEvent>,
) -> SinkStage
    decreases evs.len(),
{
    if evs.len() == 0 {
        SinkStage::Receiving
    } else {
        let before = stage_of(hash, meta, evs.drop_last());
        if fits(before, evs.last()) {
            stage_after(hash, meta, evs.last())
        } else {
            before
        }
    }
}

/// The streams have filled the file.
pub open spec fn was_received(evs: Seq<SinkEvent>) -> bool {
    exists|i: int|
        0 <= i < evs.len() && (#[trigger] evs[i] matches SinkEvent::Received(r) && r is Ok)
}

/// The digest of the file was found to be the announced one.
pub open spec fn was_verified(hash: Option<[u8; 32]>, evs: Seq<SinkEvent>) -> bool {
    hash matches Some(h) ==> exists|i: int|
        0 <= i < evs.len() && (#[trigger] evs[i] matches SinkEvent::Hashed(Ok(d)) && d@ == h@)
}

/// Mode and time of the file were set as announced.
pub open spec fn was_kept(meta: Option<(u32, u64)>, evs: Seq<SinkEvent>) -> bool {
    meta is Some ==> exists|i: int|
        0 <= i < evs.len() && (#[trigger] evs[i] matches SinkEvent::Kept(r) && r is Ok)
}

/// A file is put into its place only when its streams have filled it, its
/// digest is the announced one, and mode and time are set.
pub proof fn lemma_placed_verified(
    hash: Option<[u8; 32]>,
    meta: Option<(u32, u64)>,
    evs: Seq<SinkEvent>,
)
    ensures
        stage_of(hash, meta, evs) is Placing || stage_of(hash, meta, evs) is Placed ==> {
            &&& was_received(evs)
            &&& was_verified(hash, evs)
            &&& was_kept(meta, evs)
        },
{
    lemma_stage_history(hash, meta, evs);
}

proof fn lemma_stage_history(
    hash: Option<[u8; 32]>,
    meta: Option<(u32, u64)>,
    evs: Seq<SinkEvent>,
)
    ensures
        ({
            let s = stage_of(hash, meta, evs);
            let late = s is Placing || s is Placed;
            &&& s is Hashing || s is Keeping || late ==> was_received(evs)
            &&& s is Keeping || late ==> was_verified(hash, evs)
            &&& late ==> was_kept(meta, evs)
        }),
    decreases evs.len(),
{
    if evs.len() > 0 {
        let was = evs.drop_last();
        let ev = evs.last();
        let n = evs.len() - 1;
        lemma_stage_history(hash, meta, was);
        assert(evs[n] == ev);
        assert forall|i: int| 0 <= i < was.len() implies #[trigger] was[i] == evs[i] by {}
        if was_received(was) {
            let i = choose|i: int|
                0 <= i < was.len() && (#[trigger] was[i] matches SinkEvent::Received(r) && r is Ok);
            assert(evs[i] == was[i]);
        }
        if hash is Some && was_verified(hash, was) {
            let h = hash->0;
            let i = choose|i: int|
                0 <= i < was.len() && (#[trigger] was[i] matches SinkEvent::Hashed(Ok(d)) && d@
                    == h@);
            assert(evs[i] == was[i]);
        }
        if meta is Some && was_kept(meta, was) {
            let i = choose|i: int|
                0 <= i < was.len() && (#[trigger] was[i] matches SinkEvent::Kept(r) && r is Ok);
            assert(evs[i] == was[i]);
        }
    }
}

} // verus!
