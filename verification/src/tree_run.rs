//! A copy of a whole directory at work: the next thing to do after each event.

use crate::copies::PushTree;
use crate::paths::{joined, safe_rel};
use crate::text::texts;
use crate::tree::{
    below, check_links, comps_of, first_set, local_joined, plan_pull, pull_streams,
    streams_for_file, LocalFile, TREE_SINGLE_STREAM_MAX,
};
use vstd::prelude::*;

verus! {

/// What is copied, and where it goes.
pub enum TreeJob {
    Push(PushTree),
    Pull {
        /// The directory on the remote host.
        rpath: String,
        /// The directory here.
        dst: String,
        /// The files below the remote directory.
        names: Vec<String>,
    },
}

/// What is copied, as texts.
pub enum TreeTexts {
    Push { files: Seq<Seq<char>>, remote_files: Seq<Seq<char>>, mkdir: Option<Seq<char>> },
    Pull { rpath: Seq<char>, dst: Seq<char>, names: Seq<Seq<char>> },
}

/// The paths of local files.
pub open spec fn paths_of(files: Seq<LocalFile>) -> Seq<Seq<char>> {
    files.map_values(|f: LocalFile| f.path@)
}

impl View for TreeJob {
    type V = TreeTexts;

    open spec fn view(&self) -> TreeTexts {
        match *self {
            TreeJob::Push(t) => TreeTexts::Push {
                files: paths_of(t.files@),
                remote_files: texts(t.remote_files@),
                mkdir: match t.mkdir {
                    Some(c) => Some(c@),
                    None => None,
                },
            },
            TreeJob::Pull { rpath, dst, names } => TreeTexts::Pull {
                rpath: rpath@,
                dst: dst@,
                names: texts(names@),
            },
        }
    }
}

impl TreeTexts {
    /// Number of files.
    pub open spec fn count(self) -> nat {
        match self {
            TreeTexts::Push { files, .. } => files.len(),
            TreeTexts::Pull { names, .. } => names.len(),
        }
    }

    /// Each file has a place on the remote host.
    pub open spec fn whole(self) -> bool {
        self matches TreeTexts::Push { files, remote_files, .. } ==> remote_files.len()
            == files.len()
    }

    /// There are directories to make.
    pub open spec fn makes(self) -> bool {
        match self {
            TreeTexts::Push { mkdir, .. } => mkdir is Some,
            TreeTexts::Pull { .. } => true,
        }
    }

    /// The `k`-th file on the remote host.
    pub open spec fn remote_file(self, k: int) -> Seq<char> {
        match self {
            TreeTexts::Push { remote_files, .. } => remote_files[k],
            TreeTexts::Pull { rpath, names, .. } => joined(rpath, names[k]),
        }
    }

    /// The `k`-th file here.
    pub open spec fn local_file(self, k: int) -> Seq<char> {
        match self {
            TreeTexts::Push { files, .. } => files[k],
            TreeTexts::Pull { dst, names, .. } => local_joined(dst, names[k]),
        }
    }

    /// The `k`-th file may be copied: a name from the remote host does not lead
    /// out of the directory here.
    pub open spec fn safe(self, k: int) -> bool {
        self matches TreeTexts::Pull { names, .. } ==> safe_rel(names[k])
    }
}

/// Where a copy stands.
pub enum TreeStage {
    /// Nothing is done yet.
    Idle,
    /// Directories are made.
    Making,
    /// Something is asked of the next file.
    Asking,
    /// The next file is copied.
    Copying,
    /// All files are copied.
    Done,
    /// Something failed.
    Failed,
}

/// What a copy has met with.
pub enum TreeEvent {
    Start,
    /// The directories were made, or not.
    Made(Result<(), String>),
    /// The size of the file to push, if it could be asked for.
    Measured(Option<u64>),
    /// Which of the paths that a pulled file goes through are symbolic links.
    Looked(Vec<bool>),
    /// The file was copied, or not.
    Copied(Result<(), String>),
}

/// What a copy is to do next.
pub enum TreeAction {
    /// Make directories on the remote host, by a command.
    MakeRemote(String),
    /// Make a directory here.
    MakeLocal(String),
    /// Ask for the size of a file here.
    Measure(String),
    /// Ask of each path whether it is a symbolic link.
    Look(Vec<String>),
    /// Copy a file.
    Copy { remote_file: String, local_file: String, streams: usize },
    /// Give up.
    Fail(String),
    /// All files are copied.
    Finish,
}

/// What a copy is to do next, as texts.
pub enum TreeStep {
    MakeRemote(Seq<char>),
    MakeLocal(Seq<char>),
    Measure(Seq<char>),
    Look(Seq<Seq<char>>),
    Copy { remote_file: Seq<char>, local_file: Seq<char>, streams: usize },
    Fail(Seq<char>),
    Finish,
}

impl View for TreeAction {
    type V = TreeStep;

    open spec fn view(&self) -> TreeStep {
        match *self {
            TreeAction::MakeRemote(c) => TreeStep::MakeRemote(c@),
            TreeAction::MakeLocal(d) => TreeStep::MakeLocal(d@),
            TreeAction::Measure(p) => TreeStep::Measure(p@),
            TreeAction::Look(ps) => TreeStep::Look(texts(ps@)),
            TreeAction::Copy { remote_file, local_file, streams } => TreeStep::Copy {
                remote_file: remote_file@,
                local_file: local_file@,
                streams,
            },
            TreeAction::Fail(e) => TreeStep::Fail(e@),
            TreeAction::Finish => TreeStep::Finish,
        }
    }
}

/// The paths that a file goes through below a directory.
pub open spec fn through_of(dst: Seq<char>, rel: Seq<char>) -> Seq<Seq<char>> {
    Seq::new(comps_of(rel).len(), |k: int| below(dst, comps_of(rel).take(k + 1)))
}

/// An event can come at a stage, when the `at`-th file is next.
pub open spec fn fits(job: TreeTexts, stage: TreeStage, at: int, ev: TreeEvent) -> bool {
    match ev {
        TreeEvent::Start => stage is Idle,
        TreeEvent::Made(_) => stage is Making,
        TreeEvent::Measured(_) => stage is Asking && job is Push,
        TreeEvent::Looked(links) => stage is Asking && (
        job matches TreeTexts::Pull { dst, names, .. } && links@.len() == through_of(
            dst,
            names[at],
        ).len()),
        TreeEvent::Copied(_) => stage is Copying,
    }
}

/// The turn of the `at`-th file: its stage, and what is to do. Behind the last
/// file the copy is done, and a name that leads elsewhere ends it.
pub open spec fn turn_of(job: TreeTexts, at: int) -> (TreeStage, TreeStep) {
    if at >= job.count() {
        (TreeStage::Done, TreeStep::Finish)
    } else {
        match job {
            TreeTexts::Push { files, .. } => (TreeStage::Asking, TreeStep::Measure(files[at])),
            TreeTexts::Pull { dst, names, .. } => if safe_rel(names[at]) {
                (TreeStage::Asking, TreeStep::Look(through_of(dst, names[at])))
            } else {
                (
                    TreeStage::Failed,
                    TreeStep::Fail("unsafe remote path rejected: "@ + names[at]),
                )
            },
        }
    }
}

/// The copy of the `at`-th file.
pub open spec fn copy_of(job: TreeTexts, at: int, streams: usize) -> (TreeStage, TreeStep) {
    (
        TreeStage::Copying,
        TreeStep::Copy {
            remote_file: job.remote_file(at),
            local_file: job.local_file(at),
            streams,
        },
    )
}

/// The stage after an event that fits, and what is to do.
pub open spec fn after(job: TreeTexts, streams: usize, at: int, ev: TreeEvent) -> (
    TreeStage,
    TreeStep,
) {
    match ev {
        TreeEvent::Start => match job {
            TreeTexts::Push { mkdir: Some(c), .. } => (TreeStage::Making, TreeStep::MakeRemote(c)),
            TreeTexts::Push { mkdir: None, .. } => turn_of(job, at),
            TreeTexts::Pull { dst, .. } => (TreeStage::Making, TreeStep::MakeLocal(dst)),
        },
        TreeEvent::Made(Ok(_)) => turn_of(job, at),
        TreeEvent::Made(Err(e)) => (TreeStage::Failed, TreeStep::Fail(e@)),
        TreeEvent::Measured(len) => copy_of(
            job,
            at,
            match len {
                Some(n) if n <= TREE_SINGLE_STREAM_MAX && streams > 1 => 1,
                _ => streams,
            },
        ),
        TreeEvent::Looked(links) => match first_set(links@, 0) {
            Some(i) => (
                TreeStage::Failed,
                TreeStep::Fail(
                    "symlink in destination path rejected: "@ + through_of(
                        job->dst,
                        job->names[at],
                    )[i],
                ),
            ),
            None => copy_of(
                job,
                at,
                if streams > 1 {
                    1
                } else {
                    streams
                },
            ),
        },
        TreeEvent::Copied(Ok(_)) => turn_of(job, at + 1),
        TreeEvent::Copied(Err(e)) => (TreeStage::Failed, TreeStep::Fail(e@)),
    }
}

/// The file that is next after an event that fits.
pub open spec fn at_after(at: int, ev: TreeEvent) -> int {
    match ev {
        TreeEvent::Copied(Ok(_)) => at + 1,
        _ => at,
    }
}

/// A copy of a directory at work.
pub struct TreeRun {
    pub job: TreeJob,
    pub streams: usize,
    /// The file that is next.
    pub at: usize,
    pub stage: TreeStage,
}

impl TreeRun {
    /// The file that is asked for or copied is one of the job's, and may be
    /// copied.
    pub open spec fn valid(self) -> bool {
        &&& self.job@.whole()
        &&& self.at <= self.job@.count()
        &&& self.stage is Asking || self.stage is Copying ==> self.at < self.job@.count()
            && self.job@.safe(self.at as int)
    }

    /// A push of a planned tree.
    pub fn push(tree: PushTree, streams: usize) -> (r: TreeRun)
        requires
            tree.remote_files@.len() == tree.files@.len(),
        ensures
            r.valid(),
            r.job == TreeJob::Push(tree),
            r.streams == streams,
            r.at == 0,
            r.stage is Idle,
    {
        TreeRun { job: TreeJob::Push(tree), streams, at: 0, stage: TreeStage::Idle }
    }

    /// A pull of listed files.
    pub fn pull(rpath: String, dst: String, names: Vec<String>, streams: usize) -> (r: TreeRun)
        ensures
            r.valid(),
            r.job == (TreeJob::Pull { rpath, dst, names }),
            r.streams == streams,
            r.at == 0,
            r.stage is Idle,
    {
        TreeRun {
            job: TreeJob::Pull { rpath, dst, names },
            streams,
            at: 0,
            stage: TreeStage::Idle,
        }
    }

    /// Number of files.
    pub fn files(&self) -> (r: usize)
        ensures
            r == self.job@.count(),
    {
        match &self.job {
            TreeJob::Push(t) => t.files.len(),
            TreeJob::Pull { names, .. } => names.len(),
        }
    }

    fn fail(&mut self, e: &str) -> (r: TreeAction)
        ensures
            final(self).job == old(self).job,
            final(self).streams == old(self).streams,
            final(self).at == old(self).at,
            final(self).stage is Failed,
            r@ == TreeStep::Fail(e@),
    {
        self.stage = TreeStage::Failed;
        TreeAction::Fail(e.to_owned())
    }

    fn turn(&mut self) -> (r: TreeAction)
        requires
            old(self).job@.whole(),
            old(self).at <= old(self).job@.count(),
        ensures
            final(self).valid(),
            final(self).job == old(self).job,
            final(self).streams == old(self).streams,
            final(self).at == old(self).at,
            (final(self).stage, r@) == turn_of(old(self).job@, old(self).at as int),
    {
        let r: Result<TreeAction, String> = match &self.job {
            TreeJob::Push(t) => {
                assert(paths_of(t.files@).len() == t.files@.len());
                if self.at < t.files.len() {
                    Ok(TreeAction::Measure(t.files[self.at].path.as_str().to_owned()))
                } else {
                    Ok(TreeAction::Finish)
                }
            },
            TreeJob::Pull { rpath, dst, names } => {
                assert(texts(names@).len() == names@.len());
                if self.at < names.len() {
                    let rel: &str = names[self.at].as_str();
                    assert(texts(names@)[self.at as int] == rel@);
                    match plan_pull(rpath.as_str(), dst.as_str(), rel) {
                        Ok(p) => {
                            assert(texts(p.through@) =~= through_of(dst@, rel@));
                            Ok(TreeAction::Look(p.through))
                        },
                        Err(e) => Err(e),
                    }
                } else {
                    Ok(TreeAction::Finish)
                }
            },
        };
        match r {
            Ok(a) => {
                self.stage = match &a {
                    TreeAction::Finish => TreeStage::Done,
                    _ => TreeStage::Asking,
                };
                a
            },
            Err(e) => self.fail(e.as_str()),
        }
    }

    /// Moves on after an event.
    pub fn next(&mut self, ev: &TreeEvent) -> (r: TreeAction)
        requires
            old(self).valid(),
            fits(old(self).job@, old(self).stage, old(self).at as int, *ev),
        ensures
            final(self).valid(),
            final(self).job == old(self).job,
            final(self).streams == old(self).streams,
            final(self).at == at_after(old(self).at as int, *ev),
            (final(self).stage, r@) == after(
                old(self).job@,
                old(self).streams,
                old(self).at as int,
                *ev,
            ),
    {
        match ev {
            TreeEvent::Start => {
                let make: Option<TreeAction> = match &self.job {
                    TreeJob::Push(t) => match &t.mkdir {
                        Some(c) => Some(TreeAction::MakeRemote(c.as_str().to_owned())),
                        None => None,
                    },
                    TreeJob::Pull { dst, .. } => Some(
                        TreeAction::MakeLocal(dst.as_str().to_owned()),
                    ),
                };
                match make {
                    Some(a) => {
                        self.stage = TreeStage::Making;
                        a
                    },
                    None => self.turn(),
                }
            },
            TreeEvent::Made(Ok(_)) => self.turn(),
            TreeEvent::Made(Err(e)) => self.fail(e.as_str()),
            TreeEvent::Measured(len) => self.copy_measured(*len),
            TreeEvent::Looked(links) => self.copy_looked(links),
            TreeEvent::Copied(Ok(_)) => {
                if self.at < self.files() {
                    self.at = self.at + 1;
                }
                self.turn()
            },
            TreeEvent::Copied(Err(e)) => self.fail(e.as_str()),
        }
    }

    fn copy_measured(&mut self, len: Option<u64>) -> (r: TreeAction)
        requires
            old(self).valid(),
            old(self).stage is Asking,
            old(self).job is Push,
        ensures
            final(self).valid(),
            final(self).job == old(self).job,
            final(self).streams == old(self).streams,
            final(self).at == old(self).at,
            (final(self).stage, r@) == after(
                old(self).job@,
                old(self).streams,
                old(self).at as int,
                TreeEvent::Measured(len),
            ),
    {
        self.stage = TreeStage::Copying;
        let streams: usize = streams_for_file(len, self.streams);
        match &self.job {
            TreeJob::Push(t) => {
                let k: usize = self.at;
                assert(texts(t.remote_files@).len() == t.remote_files@.len());
                assert(texts(t.remote_files@)[k as int] == t.remote_files@[k as int]@);
                assert(paths_of(t.files@)[k as int] == t.files@[k as int].path@);
                TreeAction::Copy {
                    remote_file: t.remote_files[k].as_str().to_owned(),
                    local_file: t.files[k].path.as_str().to_owned(),
                    streams,
                }
            },
            TreeJob::Pull { .. } => TreeAction::Finish,
        }
    }

    fn copy_looked(&mut self, links: &Vec<bool>) -> (r: TreeAction)
        requires
            old(self).valid(),
            fits(
                old(self).job@,
                old(self).stage,
                old(self).at as int,
                TreeEvent::Looked(*links),
            ),
        ensures
            final(self).valid(),
            final(self).job == old(self).job,
            final(self).streams == old(self).streams,
            final(self).at == old(self).at,
            (final(self).stage, r@) == after(
                old(self).job@,
                old(self).streams,
                old(self).at as int,
                TreeEvent::Looked(*links),
            ),
    {
        let streams: usize = pull_streams(self.streams);
        let r: Result<TreeAction, String> = match &self.job {
            TreeJob::Push(_) => Ok(TreeAction::Finish),
            TreeJob::Pull { rpath, dst, names } => {
                assert(texts(names@).len() == names@.len());
                let rel: &str = names[self.at].as_str();
                assert(texts(names@)[self.at as int] == rel@);
                match plan_pull(rpath.as_str(), dst.as_str(), rel) {
                    Ok(p) => {
                        assert(texts(p.through@) =~= through_of(dst@, rel@));
                        match check_links(&p.through, links) {
                            Ok(_) => Ok(
                                TreeAction::Copy {
                                    remote_file: p.remote_file,
                                    local_file: p.local_file,
                                    streams,
                                },
                            ),
                            Err(e) => {
                                proof {
                                    lemma_first_in(links@, 0);
                                }
                                Err(e)
                            },
                        }
                    },
                    Err(e) => Err(e),
                }
            },
        };
        match r {
            Ok(a) => {
                self.stage = TreeStage::Copying;
                a
            },
            Err(e) => self.fail(e.as_str()),
        }
    }
}

proof fn lemma_first_in(flags: Seq<bool>, i: int)
    ensures
        first_set(flags, i) matches Some(k) ==> i <= k < flags.len() && flags[k],
    decreases flags.len() - i,
{
    if 0 <= i < flags.len() && !flags[i] {
        lemma_first_in(flags, i + 1);
    }
}

/// The stage of a copy after a run of events, and the file that is next; an
/// event out of place changes nothing.
pub open spec fn state_of(job: TreeTexts, streams: usize, evs: Seq<TreeEvent>) -> (TreeStage, int)
    decreases evs.len(),
{
    if evs.len() == 0 {
        (TreeStage::Idle, 0)
    } else {
        let was = state_of(job, streams, evs.drop_last());
        if fits(job, was.0, was.1, evs.last()) {
            (after(job, streams, was.1, evs.last()).0, at_after(was.1, evs.last()))
        } else {
            was
        }
    }
}

/// What was to do in a run of events, in order.
pub open spec fn steps_of(job: TreeTexts, streams: usize, evs: Seq<TreeEvent>) -> Seq<TreeStep>
    decreases evs.len(),
{
    if evs.len() == 0 {
        Seq::empty()
    } else {
        let was = state_of(job, streams, evs.drop_last());
        let steps = steps_of(job, streams, evs.drop_last());
        if fits(job, was.0, was.1, evs.last()) {
            steps.push(after(job, streams, was.1, evs.last()).1)
        } else {
            steps
        }
    }
}

/// The copies among steps.
pub open spec fn copies_in(steps: Seq<TreeStep>) -> Seq<TreeStep> {
    steps.filter(|s: TreeStep| s is Copy)
}

/// The `k`-th file was copied: an event told so, when its copy was under way.
pub open spec fn was_copied(job: TreeTexts, streams: usize, evs: Seq<TreeEvent>, k: int) -> bool {
    exists|i: int|
        0 <= i < evs.len() && (#[trigger] evs[i] matches TreeEvent::Copied(r) && r is Ok)
            && state_of(job, streams, evs.take(i)) == (TreeStage::Copying, k)
}

/// The directories were made.
pub open spec fn was_made(evs: Seq<TreeEvent>) -> bool {
    exists|i: int| 0 <= i < evs.len() && (#[trigger] evs[i] matches TreeEvent::Made(r) && r is Ok)
}

proof fn lemma_tree_history(job: TreeTexts, streams: usize, evs: Seq<TreeEvent>)
    ensures
        ({
            let s = state_of(job, streams, evs);
            let copies = copies_in(steps_of(job, streams, evs));
            &&& 0 <= s.1 <= job.count()
            &&& s.0 is Idle || s.0 is Making ==> s.1 == 0
            &&& s.0 is Asking || s.0 is Copying ==> s.1 < job.count() && job.safe(s.1)
            &&& s.0 is Done ==> s.1 == job.count()
            &&& s.1 <= copies.len() <= s.1 + 1
            &&& s.0 is Copying ==> copies.len() == s.1 + 1
            &&& !(s.0 is Copying || s.0 is Failed) ==> copies.len() == s.1
            &&& copies.len() <= job.count()
            &&& forall|k: int|
                0 <= k < copies.len() ==> (#[trigger] copies[k] matches TreeStep::Copy {
                    remote_file,
                    local_file,
                    ..
                } && remote_file == job.remote_file(k) && local_file == job.local_file(k)
                    && job.safe(k))
            &&& forall|k: int| 0 <= k < s.1 ==> #[trigger] was_copied(job, streams, evs, k)
            &&& job.makes() && (s.0 is Asking || s.0 is Copying || s.0 is Done || copies.len() > 0)
                ==> was_made(evs)
        }),
    decreases evs.len(),
{
    let p = |s: TreeStep| s is Copy;
    reveal(Seq::filter);
    if evs.len() > 0 {
        let prior = evs.drop_last();
        let ev = evs.last();
        let n = evs.len() - 1;
        lemma_tree_history(job, streams, prior);
        let was = state_of(job, streams, prior);
        let s = state_of(job, streams, evs);
        let steps = steps_of(job, streams, prior);
        assert(evs[n] == ev);
        assert(evs.take(n) =~= prior);
        assert forall|k: int| 0 <= k < was.1 implies #[trigger] was_copied(
            job,
            streams,
            evs,
            k,
        ) by {
            assert(was_copied(job, streams, prior, k));
            let i = choose|i: int|
                0 <= i < prior.len() && (#[trigger] prior[i] matches TreeEvent::Copied(r)
                    && r is Ok) && state_of(job, streams, prior.take(i)) == (
                    TreeStage::Copying,
                    k,
                );
            assert(evs[i] == prior[i]);
            assert(evs.take(i) =~= prior.take(i));
        }
        if was_made(prior) {
            let i = choose|i: int|
                0 <= i < prior.len() && (#[trigger] prior[i] matches TreeEvent::Made(r) && r is Ok);
            assert(evs[i] == prior[i]);
        }
        if fits(job, was.0, was.1, ev) {
            let a = after(job, streams, was.1, ev).1;
            assert(steps.push(a).drop_last() =~= steps);
            if s.1 == was.1 + 1 {
                assert(was_copied(job, streams, evs, was.1));
            }
        }
    }
}

/// The files of a tree are copied one by one, in order: the copies that were to
/// do are those of the first files, each from and to its own place.
pub proof fn lemma_tree_in_order(job: TreeTexts, streams: usize, evs: Seq<TreeEvent>)
    ensures
        copies_in(steps_of(job, streams, evs)).len() <= job.count(),
        forall|k: int|
            0 <= k < copies_in(steps_of(job, streams, evs)).len() ==> (#[trigger] copies_in(
                steps_of(job, streams, evs),
            )[k] matches TreeStep::Copy { remote_file, local_file, .. } && remote_file
                == job.remote_file(k) && local_file == job.local_file(k)),
{
    lemma_tree_history(job, streams, evs);
}

/// No file is copied before the directories are made.
pub proof fn lemma_tree_made_first(job: TreeTexts, streams: usize, evs: Seq<TreeEvent>)
    requires
        job.makes(),
        copies_in(steps_of(job, streams, evs)).len() > 0,
    ensures
        was_made(evs),
{
    lemma_tree_history(job, streams, evs);
}

/// A copy is done only when every file was copied.
pub proof fn lemma_tree_done(job: TreeTexts, streams: usize, evs: Seq<TreeEvent>)
    requires
        state_of(job, streams, evs).0 is Done,
    ensures
        copies_in(steps_of(job, streams, evs)).len() == job.count(),
        forall|k: int| 0 <= k < job.count() ==> #[trigger] was_copied(job, streams, evs, k),
{
    lemma_tree_history(job, streams, evs);
}

/// The first failure of a file, or of the making of directories, ends a copy
/// with that error.
pub proof fn lemma_tree_fails(job: TreeTexts, streams: usize, evs: Seq<TreeEvent>, e: String)
    ensures
        state_of(job, streams, evs).0 is Copying ==> state_of(
            job,
            streams,
            evs.push(TreeEvent::Copied(Err(e))),
        ).0 is Failed && steps_of(job, streams, evs.push(TreeEvent::Copied(Err(e)))) == steps_of(
            job,
            streams,
            evs,
        ).push(TreeStep::Fail(e@)),
        state_of(job, streams, evs).0 is Making ==> state_of(
            job,
            streams,
            evs.push(TreeEvent::Made(Err(e))),
        ).0 is Failed && steps_of(job, streams, evs.push(TreeEvent::Made(Err(e)))) == steps_of(
            job,
            streams,
            evs,
        ).push(TreeStep::Fail(e@)),
{
    assert(evs.push(TreeEvent::Copied(Err(e))).drop_last() =~= evs);
    assert(evs.push(TreeEvent::Made(Err(e))).drop_last() =~= evs);
}

/// When a copy is done or has failed, nothing more is to do, whatever comes.
pub proof fn lemma_tree_over(
    job: TreeTexts,
    streams: usize,
    evs: Seq<TreeEvent>,
    more: Seq<TreeEvent>,
)
    requires
        state_of(job, streams, evs).0 is Done || state_of(job, streams, evs).0 is Failed,
    ensures
        state_of(job, streams, evs + more) == state_of(job, streams, evs),
        steps_of(job, streams, evs + more) == steps_of(job, streams, evs),
    decreases more.len(),
{
    if more.len() == 0 {
        assert(evs + more =~= evs);
    } else {
        lemma_tree_over(job, streams, evs, more.drop_last());
        assert((evs + more).drop_last() =~= evs + more.drop_last());
    }
}

/// A listed name that leads out of the directory ends a pull: neither its file
/// nor one after it is looked for or copied, and the pull is never done.
pub proof fn lemma_pull_unsafe(job: TreeTexts, streams: usize, evs: Seq<TreeEvent>, bad: int)
    requires
        0 <= bad < job.count(),
        !job.safe(bad),
    ensures
        copies_in(steps_of(job, streams, evs)).len() <= bad,
        !(state_of(job, streams, evs).0 is Done),
        state_of(job, streams, evs).0 is Asking ==> state_of(job, streams, evs).1 < bad,
{
    lemma_tree_history(job, streams, evs);
    let copies = copies_in(steps_of(job, streams, evs));
    if copies.len() > bad {
        assert(copies[bad] is Copy);
    }
    let s = state_of(job, streams, evs);
    if s.0 is Asking && s.1 > bad {
        assert(copies.len() == s.1);
    }
}

} // verus!
