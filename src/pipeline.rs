//! Bookkeeping of the background crop jobs: one job per piece, submitted once,
//! delivered once.
use vstd::prelude::*;
use crate::board::{Board, PieceState};
use crate::descriptor::{PieceDescriptor, PieceStore, crop_in_bounds};

verus! {

#[derive(Clone, Copy, Debug, PartialEq, Eq, Structural)]
pub enum JobState {
    /// No job was submitted for the piece.
    Idle,
    /// A job is in flight or finished but not yet drained.
    Pending,
    /// The job's result was handed out by a poll.
    Delivered,
}

#[derive(Clone, Copy, Debug, PartialEq, Eq, Structural)]
pub enum PipelineError {
    InvalidPieceIndex,
    /// The piece already has a live or delivered job.
    AlreadySubmitted,
}

/// A crop job that was refused because its rectangle leaves the source image.
#[derive(Clone, Copy, Debug, PartialEq, Eq, Structural)]
pub struct CropFailure {
    pub index: usize,
}

pub struct CropPipeline {
    jobs: Vec<JobState>,
}

/// The states after a poll that found the jobs in `finished` done: each
/// pending one among them becomes delivered.
pub open spec fn drained(jobs: Seq<JobState>, finished: Seq<usize>) -> Seq<JobState> {
    Seq::new(
        jobs.len(),
        |j: int|
            if jobs[j] == JobState::Pending && finished.contains(j as usize) {
                JobState::Delivered
            } else {
                jobs[j]
            },
    )
}

/// A delivered job stays delivered from `a` to `b`.
pub open spec fn keeps_delivered(a: Seq<JobState>, b: Seq<JobState>) -> bool {
    &&& a.len() == b.len()
    &&& forall|j: int| 0 <= j < a.len() && a[j] == JobState::Delivered ==> b[j] == JobState::Delivered
}

/// One poll: from `jobs` with the jobs in `finished` done, to `after`,
/// handing out `out`: the pending finished ones, each once.
pub open spec fn poll_step(jobs: Seq<JobState>, finished: Seq<usize>, after: Seq<JobState>, out: Seq<usize>) -> bool {
    &&& after == drained(jobs, finished)
    &&& out.no_duplicates()
    &&& forall|k: usize| #[trigger] out.contains(k) <==> (k < jobs.len() && jobs[k as int]
        == JobState::Pending && finished.contains(k))
}

impl CropPipeline {
    pub closed spec fn view(&self) -> Seq<JobState> {
        self.jobs@
    }

    /// A pipeline for `n` pieces, none submitted.
    pub fn new(n: usize) -> (r: CropPipeline)
        ensures
            r@ == Seq::new(n as nat, |j: int| JobState::Idle),
    {
        let mut jobs: Vec<JobState> = Vec::new();
        let mut i: usize = 0;
        while i < n
            invariant
                i <= n,
                jobs@ == Seq::new(i as nat, |j: int| JobState::Idle),
            decreases n - i,
        {
            jobs.push(JobState::Idle);
            i = i + 1;
            proof {
                assert(jobs@ =~= Seq::new(i as nat, |j: int| JobState::Idle));
            }
        }
        CropPipeline { jobs }
    }

    pub fn len(&self) -> (r: usize)
        ensures
            r == self@.len(),
    {
        self.jobs.len()
    }

    /// Records that a crop job was dispatched for piece `i`.
    pub fn submit(&mut self, i: usize) -> (r: Result<(), PipelineError>)
        ensures
            i >= old(self)@.len() ==> r == Err::<(), PipelineError>(PipelineError::InvalidPieceIndex),
            i < old(self)@.len() && old(self)@[i as int] != JobState::Idle ==> r == Err::<(), PipelineError>(
                PipelineError::AlreadySubmitted,
            ),
            i < old(self)@.len() && old(self)@[i as int] == JobState::Idle ==> r is Ok,
            r is Ok ==> final(self)@ == old(self)@.update(i as int, JobState::Pending),
            r is Err ==> final(self)@ == old(self)@,
            keeps_delivered(old(self)@, final(self)@),
    {
        if i >= self.jobs.len() {
            return Err(PipelineError::InvalidPieceIndex);
        }
        if self.jobs[i] != JobState::Idle {
            return Err(PipelineError::AlreadySubmitted);
        }
        self.jobs.set(i, JobState::Pending);
        Ok(())
    }

    /// Whether no job is pending.
    pub fn is_drained(&self) -> (r: bool)
        ensures
            r == (forall|j: int| 0 <= j < self@.len() ==> self@[j] != JobState::Pending),
    {
        let mut i: usize = 0;
        while i < self.jobs.len()
            invariant
                i <= self.jobs@.len(),
                forall|j: int| 0 <= j < i ==> self.jobs@[j] != JobState::Pending,
            decreases self.jobs@.len() - i,
        {
            if self.jobs[i] == JobState::Pending {
                return false;
            }
            i = i + 1;
        }
        true
    }

    /// Drains the jobs that finished since the last poll: hands out each
    /// pending index of `finished` once, in the order of `finished`, and marks
    /// it delivered. Unknown, idle, delivered and repeated indices are skipped.
    pub fn poll_completed(&mut self, finished: &Vec<usize>) -> (out: Vec<usize>)
        ensures
            poll_step(old(self)@, finished@, final(self)@, out@),
    {
        let ghost start = self.jobs@;
        let mut out: Vec<usize> = Vec::new();
        let mut i: usize = 0;
        while i < finished.len()
            invariant
                i <= finished@.len(),
                self.jobs@ == drained(start, finished@.take(i as int)),
                out@.no_duplicates(),
                forall|k: usize| #[trigger] out@.contains(k) <==> (k < start.len() && start[k as int]
                    == JobState::Pending && finished@.take(i as int).contains(k)),
            decreases finished@.len() - i,
        {
            let k = finished[i];
            let ghost prev = out@;
            proof {
                assert(finished@.take(i as int + 1) =~= finished@.take(i as int).push(k));
                lemma_push_contains(finished@.take(i as int), k);
            }
            if k < self.jobs.len() && self.jobs[k] == JobState::Pending {
                proof {
                    assert(!out@.contains(k));
                }
                self.jobs.set(k, JobState::Delivered);
                out.push(k);
                proof {
                    assert(out@ =~= prev.push(k));
                    lemma_push_contains(prev, k);
                }
            }
            i = i + 1;
            proof {
                assert(self.jobs@ =~= drained(start, finished@.take(i as int)));
                assert forall|x: usize| #[trigger] out@.contains(x) <==> (x < start.len() && start[x as int]
                    == JobState::Pending && finished@.take(i as int).contains(x)) by {
                    assert(prev.contains(x) <==> (x < start.len() && start[x as int] == JobState::Pending
                        && finished@.take(i - 1).contains(x)));
                    if out@.contains(x) && x != k {
                        assert(prev.contains(x));
                    }
                }
            }
        }
        proof {
            assert(finished@.take(finished@.len() as int) =~= finished@);
        }
        out
    }
}

proof fn lemma_push_contains(s: Seq<usize>, k: usize)
    ensures
        forall|x: usize| #[trigger] s.push(k).contains(x) <==> (s.contains(x) || x == k),
{
    assert forall|x: usize| #[trigger] s.push(k).contains(x) <==> (s.contains(x) || x == k) by {
        if s.push(k).contains(x) {
            let j = choose|j: int| 0 <= j < s.push(k).len() && s.push(k)[j] == x;
            if j < s.len() {
                assert(s[j] == x);
            }
        }
        if s.contains(x) {
            let j = choose|j: int| 0 <= j < s.len() && s[j] == x;
            assert(s.push(k)[j] == x);
        }
        if x == k {
            assert(s.push(k)[s.len() as int] == x);
        }
    }
}

/// Piece `j` after the jobs in `out` were applied: a delivered piece without
/// an image gets the image handle `j`.
pub open spec fn applied(s: Seq<PieceState>, out: Seq<usize>, j: int) -> PieceState {
    if out.contains(j as usize) && s[j].texture is None {
        PieceState { texture: Some(j as u64), ..s[j] }
    } else {
        s[j]
    }
}

/// One tick of the pipeline: drains the finished jobs and installs the image
/// of each delivered piece, under the handle that is the piece's index.
pub fn apply_completed(pipeline: &mut CropPipeline, board: &mut Board, finished: &Vec<usize>) -> (out: Vec<usize>)
    requires
        old(board).wf(),
    ensures
        poll_step(old(pipeline)@, finished@, final(pipeline)@, out@),
        final(board).wf(),
        final(board).descs() == old(board).descs(),
        final(board).states().len() == old(board).states().len(),
        forall|j: int| 0 <= j < old(board).states().len() ==> #[trigger] final(board).states()[j] == applied(
            old(board).states(),
            out@,
            j,
        ),
        delivered_textured(old(pipeline)@, old(board).states()) ==> delivered_textured(
            final(pipeline)@,
            final(board).states(),
        ),
{
    // The job count fits in a usize, which the proof below relies on.
    let _jobs = pipeline.len();
    let out = pipeline.poll_completed(finished);
    let ghost s0 = board.states();
    let mut t: usize = 0;
    while t < out.len()
        invariant
            board.wf(),
            board.descs() == old(board).descs(),
            s0 == old(board).states(),
            board.states().len() == s0.len(),
            out@.no_duplicates(),
            t <= out@.len(),
            forall|j: int| 0 <= j < s0.len() ==> #[trigger] board.states()[j] == applied(s0, out@.take(t as int), j),
        decreases out@.len() - t,
    {
        let k = out[t];
        let ghost before = board.states();
        proof {
            assert(out@.take(t as int + 1) =~= out@.take(t as int).push(k));
            lemma_push_contains(out@.take(t as int), k);
            assert(!out@.take(t as int).contains(k)) by {
                if out@.take(t as int).contains(k) {
                    let m = choose|m: int| 0 <= m < t && out@.take(t as int)[m] == k;
                    assert(out@[m] == out@[t as int]);
                }
            }
        }
        if k < board.len() {
            let _ = board.install_texture(k, k as u64);
        }
        t = t + 1;
    }
    proof {
        assert(out@.take(out@.len() as int) =~= out@);
        if delivered_textured(old(pipeline)@, s0) {
            lemma_applied_textured(old(pipeline)@, finished@, pipeline@, out@, s0, board.states());
        }
    }
    out
}

proof fn lemma_applied_textured(
    jobs0: Seq<JobState>,
    finished: Seq<usize>,
    jobs1: Seq<JobState>,
    out: Seq<usize>,
    s0: Seq<PieceState>,
    s1: Seq<PieceState>,
)
    requires
        jobs0.len() <= usize::MAX,
        poll_step(jobs0, finished, jobs1, out),
        delivered_textured(jobs0, s0),
        s1.len() == s0.len(),
        forall|j: int| 0 <= j < s0.len() ==> #[trigger] s1[j] == applied(s0, out, j),
    ensures
        delivered_textured(jobs1, s1),
{
    assert forall|j: int| 0 <= j < jobs1.len() && jobs1[j] == JobState::Delivered
        implies (#[trigger] s1[j]).texture is Some by {
        assert(s1[j] == applied(s0, out, j));
        if jobs0[j] != JobState::Delivered {
            assert(jobs0[j] == JobState::Pending && finished.contains(j as usize));
            assert(out.contains(j as usize));
        }
    }
}

/// Every job handed out so far has its image installed on the board.
pub open spec fn delivered_textured(jobs: Seq<JobState>, states: Seq<PieceState>) -> bool {
    &&& jobs.len() == states.len()
    &&& forall|j: int| 0 <= j < jobs.len() && jobs[j] == JobState::Delivered ==> (#[trigger] states[j]).texture is Some
}

/// Once every piece was submitted and nothing is pending, every piece has
/// its image, provided each delivery was installed on the way.
pub proof fn lemma_drained_all_ready(jobs: Seq<JobState>, states: Seq<PieceState>)
    requires
        delivered_textured(jobs, states),
        forall|j: int| 0 <= j < jobs.len() ==> #[trigger] jobs[j] != JobState::Idle && jobs[j] != JobState::Pending,
    ensures
        forall|j: int| 0 <= j < states.len() ==> (#[trigger] states[j]).texture is Some,
{
    assert forall|j: int| 0 <= j < states.len() implies (#[trigger] states[j]).texture is Some by {
        assert(jobs[j] != JobState::Idle && jobs[j] != JobState::Pending);
    }
}

/// Whether the crop job of piece `j` is dispatched: it was never submitted
/// and its rectangle fits the image.
pub open spec fn dispatchable(jobs: Seq<JobState>, store: &PieceStore, j: int) -> bool {
    jobs[j] == JobState::Idle && crop_in_bounds(store.descriptors@[j], store.image_width, store.image_height)
}

/// Submits a crop job for every piece that was never submitted and whose
/// rectangle fits the image, in index order; a rectangle that leaves the
/// image fails that piece alone. Returns the pieces submitted.
pub fn dispatch_all(pipeline: &mut CropPipeline, store: &PieceStore) -> (jobs: Vec<usize>)
    requires
        old(pipeline)@.len() == store.descriptors@.len(),
    ensures
        final(pipeline)@.len() == old(pipeline)@.len(),
        forall|j: int| 0 <= j < old(pipeline)@.len() ==> #[trigger] final(pipeline)@[j] == if dispatchable(
            old(pipeline)@,
            store,
            j,
        ) {
            JobState::Pending
        } else {
            old(pipeline)@[j]
        },
        forall|k: usize| #[trigger] jobs@.contains(k) <==> (k < old(pipeline)@.len() && dispatchable(
            old(pipeline)@,
            store,
            k as int,
        )),
        keeps_delivered(old(pipeline)@, final(pipeline)@),
{
    let ghost j0 = pipeline@;
    let n = pipeline.len();
    let mut jobs: Vec<usize> = Vec::new();
    let mut i: usize = 0;
    while i < n
        invariant
            n == j0.len(),
            n == store.descriptors@.len(),
            i <= n,
            j0 == old(pipeline)@,
            pipeline@.len() == n,
            forall|j: int| 0 <= j < n ==> #[trigger] pipeline@[j] == if j < i && dispatchable(j0, store, j) {
                JobState::Pending
            } else {
                j0[j]
            },
            forall|k: usize| #[trigger] jobs@.contains(k) <==> (k < i && dispatchable(j0, store, k as int)),
        decreases n - i,
    {
        let ghost prev = jobs@;
        if store.crop_fits(i) {
            if pipeline.submit(i).is_ok() {
                jobs.push(i);
                proof {
                    assert(jobs@ =~= prev.push(i));
                    lemma_push_contains(prev, i);
                }
            }
        }
        i = i + 1;
    }
    jobs
}

/// The descriptor a worker crops for piece `i`, or the failure of that job
/// alone when its rectangle leaves the source image.
pub fn prepare_crop(store: &PieceStore, i: usize) -> (r: Result<PieceDescriptor, CropFailure>)
    requires
        i < store.descriptors@.len(),
    ensures
        r is Ok <==> crop_in_bounds(store.descriptors@[i as int], store.image_width, store.image_height),
        r matches Ok(d) ==> d == store.descriptors@[i as int],
        r matches Err(e) ==> e.index == i,
{
    if store.crop_fits(i) {
        Ok(store.descriptors[i])
    } else {
        Err(CropFailure { index: i })
    }
}

/// A poll never takes a job back from delivered.
pub proof fn lemma_poll_keeps_delivered(jobs: Seq<JobState>, finished: Seq<usize>, after: Seq<JobState>, out: Seq<usize>)
    requires
        poll_step(jobs, finished, after, out),
    ensures
        keeps_delivered(jobs, after),
{
}

/// Keeping delivered jobs delivered composes over any run of submits and
/// polls, so the steps between two polls can be chained one by one.
pub proof fn lemma_keeps_delivered_trans(a: Seq<JobState>, b: Seq<JobState>, c: Seq<JobState>)
    requires
        keeps_delivered(a, b),
        keeps_delivered(b, c),
    ensures
        keeps_delivered(a, c),
{
}

/// Along any run of pipeline states in which each step keeps delivered jobs
/// delivered (every submit and every poll does), a job delivered at one
/// point is delivered at every later one.
pub proof fn lemma_delivered_stays(run: Seq<Seq<JobState>>, a: int, b: int)
    requires
        0 <= a <= b < run.len(),
        forall|t: int| 0 <= t < run.len() - 1 ==> keeps_delivered(#[trigger] run[t], run[t + 1]),
    ensures
        keeps_delivered(run[a], run[b]),
    decreases b - a,
{
    if a < b {
        lemma_delivered_stays(run, a + 1, b);
        assert(keeps_delivered(run[a], run[a + 1]));
        lemma_keeps_delivered_trans(run[a], run[a + 1], run[b]);
    }
}

/// A piece index handed out by one poll is never handed out by a later one,
/// whatever submits or polls happen in between.
pub proof fn lemma_poll_yields_once(
    s0: Seq<JobState>,
    f1: Seq<usize>,
    s1: Seq<JobState>,
    o1: Seq<usize>,
    s2: Seq<JobState>,
    f2: Seq<usize>,
    s3: Seq<JobState>,
    o2: Seq<usize>,
    k: usize,
)
    requires
        poll_step(s0, f1, s1, o1),
        keeps_delivered(s1, s2),
        poll_step(s2, f2, s3, o2),
        o1.contains(k),
    ensures
        !o2.contains(k),
        s3[k as int] == JobState::Delivered,
{
    assert(s1[k as int] == JobState::Delivered);
}

} // verus!
