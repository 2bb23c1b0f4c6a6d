//! An ordered output queue. Tasks write while others are still running, and what they write
//! reaches the writer in the order in which the tasks were started: the task at the front of the
//! queue writes through, and the others are buffered until every task before them has closed.
//!
//! The queue decides; the caller holds the writer. Each operation hands back the bytes that are to
//! be written to the writer now, in order.
use vstd::prelude::*;

verus! {

/// The first `n` outputs, one after the other.
pub open spec fn concat_first(outputs: Seq<Seq<u8>>, n: int) -> Seq<u8> {
    outputs.take(n).flatten()
}

proof fn lemma_concat_first_succ(outputs: Seq<Seq<u8>>, n: int)
    requires
        0 <= n < outputs.len(),
    ensures
        concat_first(outputs, n + 1) == concat_first(outputs, n) + outputs[n],
{
    assert(outputs.take(n + 1) =~= outputs.take(n).push(outputs[n]));
    outputs.take(n).lemma_flatten_push(outputs[n]);
}

proof fn lemma_concat_first_prefix(outputs: Seq<Seq<u8>>, n: int)
    requires
        0 <= n <= outputs.len(),
    ensures
        concat_first(outputs, n).is_prefix_of(outputs.flatten()),
    decreases outputs.len() - n,
{
    if n == outputs.len() {
        assert(outputs.take(n) =~= outputs);
    } else {
        lemma_concat_first_succ(outputs, n);
        lemma_concat_first_prefix(outputs, n + 1);
    }
}

/// A task's buffered output.
struct Output {
    /// The buffered output.
    buffer: Vec<u8>,
    /// Whether the task has closed and can no longer write to the buffer.
    closed: bool,
}

impl Output {
    fn is_closed(&self) -> (r: bool)
        ensures
            r == self.closed,
    {
        self.closed
    }
}

/// The queue of buffered outputs.
struct Inner {
    /// The number of outputs popped from the queue.
    popped: usize,
    /// A queue in which the index is the task's position (as an offset from `popped`), and the
    /// value is its output.
    pending: Vec<Output>,
}

impl Inner {
    /// The position in the queue of the output of the task `index`, adding empty outputs up to it.
    fn get(&mut self, index: usize) -> (offset: usize)
        requires
            index >= old(self).popped,
        ensures
            offset == index - old(self).popped,
            final(self).popped == old(self).popped,
            final(self).pending@.len() == if offset < old(self).pending@.len() {
                old(self).pending@.len() as int
            } else {
                offset + 1
            },
            forall|k: int|
                0 <= k < old(self).pending@.len() ==> #[trigger] final(self).pending@[k] == old(self).pending@[k],
            forall|k: int|
                old(self).pending@.len() <= k < final(self).pending@.len() ==> (
                #[trigger] final(self).pending@[k]).buffer@ == Seq::<u8>::empty() && !final(self).pending@[k].closed,
    {
        let offset = index - self.popped;
        while self.pending.len() <= offset
            invariant
                self.popped == old(self).popped,
                offset == index - old(self).popped,
                old(self).pending@.len() <= self.pending@.len(),
                self.pending@.len() <= if offset < old(self).pending@.len() {
                    old(self).pending@.len() as int
                } else {
                    offset + 1
                },
                forall|k: int|
                    0 <= k < old(self).pending@.len() ==> #[trigger] self.pending@[k] == old(self).pending@[k],
                forall|k: int|
                    old(self).pending@.len() <= k < self.pending@.len() ==> (
                    #[trigger] self.pending@[k]).buffer@ == Seq::<u8>::empty()
                        && !self.pending@[k].closed,
            decreases offset + 1 - self.pending@.len(),
        {
            self.pending.push(Output { buffer: Vec::new(), closed: false });
        }
        offset
    }
}

/// Appends bytes to a buffer.
fn append_bytes(buffer: &mut Vec<u8>, bytes: &[u8])
    ensures
        final(buffer)@ == old(buffer)@ + bytes@,
{
    let n = bytes.len();
    let mut i: usize = 0;
    while i < n
        invariant
            n == bytes@.len(),
            i <= n,
            buffer@ == old(buffer)@ + bytes@.take(i as int),
        decreases n - i,
    {
        buffer.push(bytes[i]);
        assert(bytes@.take(i + 1) =~= bytes@.take(i as int).push(bytes@[i as int]));
        i += 1;
    }
    assert(bytes@.take(n as int) =~= bytes@);
}

/// A set of tasks whose outputs are written in the order in which the tasks were started.
pub struct Job {
    /// The number of tasks started.
    started: usize,
    inner: Inner,
    /// What each task has written, by its position.
    written: Ghost<Seq<Seq<u8>>>,
    /// What has been handed to the writer.
    emitted: Ghost<Seq<u8>>,
}

/// A task of a job, which writes through the job.
pub struct Task {
    /// The number of previous tasks started.
    index: usize,
}

impl Task {
    fn new(index: usize) -> (t: Self)
        ensures
            t.index == index,
    {
        Task { index }
    }

    /// The number of tasks started before this one.
    pub closed spec fn position(&self) -> nat {
        self.index as nat
    }
}

/// Whether the task at position `j` can still write, given the front position `popped`, the
/// pending outputs and the number of tasks started.
spec fn open_in(popped: int, pending: Seq<Output>, started: int, j: int) -> bool {
    &&& popped <= j < started
    &&& !(j - popped < pending.len() && pending[j - popped].closed)
}

/// The number of outputs that have wholly or partly reached the writer: those of the closed
/// tasks at the front, and that of the task at the front, if any.
spec fn front_end(popped: int, started: int) -> int {
    if popped < started {
        popped + 1
    } else {
        popped
    }
}

impl Job {
    /// The number of tasks started.
    pub closed spec fn started(&self) -> nat {
        self.started as nat
    }

    /// The position of the task at the front of the queue, whose output goes straight to the
    /// writer; all tasks before it have closed.
    pub closed spec fn front(&self) -> nat {
        self.inner.popped as nat
    }

    /// What each task has written, by its position.
    pub closed spec fn written(&self) -> Seq<Seq<u8>> {
        self.written@
    }

    /// What has been handed to the writer.
    pub closed spec fn emitted(&self) -> Seq<u8> {
        self.emitted@
    }

    /// Whether the task at position `j` has started and not closed.
    pub closed spec fn is_open(&self, j: nat) -> bool {
        open_in(self.inner.popped as int, self.inner.pending@, self.started as int, j as int)
    }

    /// Whether every task that has started has closed.
    pub open spec fn all_closed(&self) -> bool {
        forall|j: nat| !self.is_open(j)
    }

    pub closed spec fn wf(&self) -> bool {
        let popped = self.inner.popped as int;
        let pending = self.inner.pending@;
        let started = self.started as int;
        let written = self.written@;
        &&& popped + pending.len() <= started
        &&& written.len() == started
        &&& pending.len() > 0 ==> !pending[0].closed && pending[0].buffer@ == Seq::<u8>::empty()
        &&& forall|k: int| 0 < k < pending.len() ==> #[trigger] pending[k].buffer@ == written[popped + k]
        &&& forall|j: int|
            popped < j < started && j - popped >= pending.len() ==> #[trigger] written[j]
                == Seq::<u8>::empty()
        &&& self.emitted@ == concat_first(written, front_end(popped, started))
    }

    /// A job without tasks.
    pub fn new() -> (job: Self)
        ensures
            job.wf(),
            job.started() == 0,
            job.front() == 0,
            job.written() == Seq::<Seq<u8>>::empty(),
            job.emitted() == Seq::<u8>::empty(),
    {
        let job = Job {
            started: 0,
            inner: Inner { popped: 0, pending: Vec::new() },
            written: Ghost(Seq::empty()),
            emitted: Ghost(Seq::empty()),
        };
        assert(job.written@.take(0) =~= Seq::<Seq<u8>>::empty());
        job
    }

    /// Starts a task, after all tasks started so far.
    pub fn new_task(&mut self) -> (task: Task)
        requires
            old(self).wf(),
            old(self).started() < usize::MAX,
        ensures
            final(self).wf(),
            task.position() == old(self).started(),
            final(self).started() == old(self).started() + 1,
            final(self).written() == old(self).written().push(Seq::<u8>::empty()),
            final(self).emitted() == old(self).emitted(),
            final(self).front() == old(self).front(),
            final(self).is_open(task.position()),
            forall|j: nat| j != task.position() ==> final(self).is_open(j) == old(self).is_open(j),
    {
        let index = self.started;
        let ghost w = self.written@;
        self.started = self.started + 1;
        self.written = Ghost(self.written@.push(Seq::empty()));
        let task = Task::new(index);
        proof {
            let popped = self.inner.popped as int;
            let nw = self.written@;
            assert(nw.take(popped) =~= w.take(popped));
            if popped < index {
                assert(nw.take(popped + 1) =~= w.take(popped + 1));
            } else {
                lemma_concat_first_succ(nw, popped);
            }
            assert forall|k: int| 0 < k < self.inner.pending@.len() implies #[trigger] self.inner.pending@[k].buffer@
                == nw[popped + k] by {}
        }
        task
    }

    /// Writes bytes for a task that has not closed; hands back what is to be written to the
    /// writer now: the bytes if the task is at the front, and nothing otherwise.
    pub fn write(&mut self, task: &Task, bytes: &[u8]) -> (direct: Vec<u8>)
        requires
            old(self).wf(),
            old(self).is_open(task.position()),
        ensures
            final(self).wf(),
            direct@ == if task.position() == old(self).front() {
                bytes@
            } else {
                Seq::<u8>::empty()
            },
            final(self).emitted() == old(self).emitted() + direct@,
            final(self).written() == old(self).written().update(
                task.position() as int,
                old(self).written()[task.position() as int] + bytes@,
            ),
            final(self).started() == old(self).started(),
            final(self).front() == old(self).front(),
            forall|j: nat| final(self).is_open(j) == old(self).is_open(j),
    {
        let index = task.index;
        let ghost w = self.written@;
        let ghost popped = self.inner.popped as int;
        self.written = Ghost(self.written@.update(index as int, self.written@[index as int] + bytes@));
        if index == self.inner.popped {
            let direct = vstd::slice::slice_to_vec(bytes);
            self.emitted = Ghost(self.emitted@ + bytes@);
            proof {
                let nw = self.written@;
                let pending = self.inner.pending@;
                assert(nw.take(popped) =~= w.take(popped));
                lemma_concat_first_succ(w, popped);
                lemma_concat_first_succ(nw, popped);
                assert(self.emitted@ =~= concat_first(nw, popped + 1));
                assert forall|k: int| 0 < k < pending.len() implies #[trigger] pending[k].buffer@
                    == nw[popped + k] by {
                    assert(pending[k].buffer@ == w[popped + k]);
                }
                assert forall|j: int|
                    popped < j < self.started && j - popped >= pending.len() implies #[trigger] nw[j]
                        == Seq::<u8>::empty() by {
                    assert(w[j] == Seq::<u8>::empty());
                }
            }
            direct
        } else {
            let offset = self.inner.get(index);
            let ghost extended = self.inner.pending@;
            proof {
                let old_pending = old(self).inner.pending@;
                assert(extended[offset as int].buffer@ == w[index as int]) by {
                    if offset >= old_pending.len() {
                        assert(w[index as int] == Seq::<u8>::empty());
                    }
                }
            }
            let mut entry = Output { buffer: Vec::new(), closed: false };
            self.inner.pending.set_and_swap(offset, &mut entry);
            append_bytes(&mut entry.buffer, bytes);
            self.inner.pending.set_and_swap(offset, &mut entry);
            let direct: Vec<u8> = Vec::new();
            proof {
                let nw = self.written@;
                let old_pending = old(self).inner.pending@;
                let pending = self.inner.pending@;
                assert(nw.take(popped + 1) =~= w.take(popped + 1));
                assert(self.emitted@ + direct@ =~= self.emitted@);
                assert(self.emitted@ == concat_first(nw, popped + 1));
                assert forall|k: int| 0 < k < pending.len() implies #[trigger] pending[k].buffer@
                    == nw[popped + k] by {
                    if k != offset && k >= old_pending.len() {
                        assert(w[popped + k] == Seq::<u8>::empty());
                    }
                }
                assert forall|j: int|
                    popped < j < self.started && j - popped >= pending.len() implies #[trigger] nw[j]
                        == Seq::<u8>::empty() by {
                    assert(w[j] == Seq::<u8>::empty());
                }
                assert forall|j: int| #![all_triggers]
                    open_in(popped, pending, self.started as int, j) == open_in(
                        popped,
                        old_pending,
                        self.started as int,
                        j,
                    ) by {
                    if popped <= j < self.started && j - popped < pending.len() {
                        assert(pending[j - popped].closed == extended[j - popped].closed);
                    }
                }
            }
            direct
        }
    }

    /// Closes a task that has not closed; hands back what is to be written to the writer now:
    /// the outputs of the closed tasks that have come to the front, in order, and what the task
    /// now at the front has written so far.
    pub fn close(&mut self, task: Task) -> (out: Vec<u8>)
        requires
            old(self).wf(),
            old(self).is_open(task.position()),
        ensures
            final(self).wf(),
            final(self).emitted() == old(self).emitted() + out@,
            final(self).written() == old(self).written(),
            final(self).started() == old(self).started(),
            !final(self).is_open(task.position()),
            forall|j: nat| j != task.position() ==> final(self).is_open(j) == old(self).is_open(j),
            old(self).front() <= final(self).front() <= final(self).started(),
            forall|j: nat| old(self).front() <= j < final(self).front() ==> !final(self).is_open(j),
            final(self).front() < final(self).started() ==> final(self).is_open(final(self).front()),
            final(self).emitted() == concat_first(
                final(self).written(),
                if final(self).front() < final(self).started() {
                    final(self).front() + 1int
                } else {
                    final(self).front() as int
                },
            ),
    {
        let index = task.index;
        let ghost p0 = self.inner.popped as int;
        let ghost started = self.started as int;
        let ghost w = self.written@;
        let ghost old_pending = self.inner.pending@;
        let offset = self.inner.get(index);
        let mut entry = Output { buffer: Vec::new(), closed: false };
        self.inner.pending.set_and_swap(offset, &mut entry);
        entry.closed = true;
        self.inner.pending.set_and_swap(offset, &mut entry);
        let ghost marked = self.inner.pending@;
        proof {
            assert(marked.len() >= 1);
            assert forall|k: int| 0 < k < marked.len() implies #[trigger] marked[k].buffer@ == w[p0
                + k] by {
                if k >= old_pending.len() {
                    assert(w[p0 + k] == Seq::<u8>::empty());
                }
            }
            assert forall|j: int|
                p0 + marked.len() <= j < started implies #[trigger] w[j] == Seq::<u8>::empty() by {
                assert(p0 < j);
            }
            assert forall|j: int| #![all_triggers]
                open_in(p0, marked, started, j) == (open_in(p0, old_pending, started, j) && j
                    != index) by {
                if p0 <= j < started && j - p0 < marked.len() && j - p0 >= old_pending.len() {
                    assert(marked[j - p0].closed == (j == index));
                }
            }
            assert(marked[0].buffer@ == Seq::<u8>::empty());
        }
        let mut out: Vec<u8> = Vec::new();
        proof {
            lemma_concat_first_succ(w, p0);
            assert(self.emitted@ + out@ =~= self.emitted@);
        }
        while self.inner.pending.len() > 0 && self.inner.pending[0].is_closed()
            invariant
                p0 <= self.inner.popped,
                self.inner.popped - p0 <= marked.len(),
                self.inner.pending@ == marked.subrange(self.inner.popped - p0, marked.len() as int),
                forall|k: int| 0 <= k < self.inner.popped - p0 ==> (#[trigger] marked[k]).closed,
                self.emitted@ + out@ == concat_first(w, self.inner.popped as int) + if self.inner.popped
                    == p0 {
                    w[p0]
                } else {
                    Seq::<u8>::empty()
                },
                marked.len() >= 1,
                marked[0].buffer@ == Seq::<u8>::empty(),
                forall|k: int| 0 < k < marked.len() ==> #[trigger] marked[k].buffer@ == w[p0 + k],
                p0 + marked.len() <= started,
                p0 < started,
                w.len() == started,
                started == self.started,
                self.emitted@ == old(self).emitted@,
                self.written@ == w,
            decreases self.inner.pending@.len(),
        {
            let ghost p = self.inner.popped as int;
            self.inner.popped = self.inner.popped + 1;
            let mut o = self.inner.pending.remove(0);
            out.append(&mut o.buffer);
            proof {
                assert(self.inner.pending@ =~= marked.subrange(p + 1 - p0, marked.len() as int));
                lemma_concat_first_succ(w, p);
                if p == p0 {
                    assert(o.buffer@ =~= Seq::<u8>::empty());
                } else {
                    assert(marked[p - p0].buffer@ == w[p]);
                }
            }
        }
        if self.inner.pending.len() > 0 {
            let ghost p = self.inner.popped as int;
            let ghost fb = self.inner.pending@[0].buffer@;
            let ghost before = out@;
            let mut front = Output { buffer: Vec::new(), closed: false };
            self.inner.pending.set_and_swap(0, &mut front);
            out.append(&mut front.buffer);
            self.inner.pending.set_and_swap(0, &mut front);
            proof {
                assert(out@ == before + fb);
                lemma_concat_first_succ(w, p);
                assert(fb == marked[p - p0].buffer@);
                assert(self.emitted@ + out@ =~= concat_first(w, p + 1));
                if p > p0 {
                    assert(marked[p - p0].buffer@ == w[p]);
                }
                let pending = self.inner.pending@;
                assert(pending.len() == marked.len() - (p - p0));
                assert forall|k: int| 0 < k < pending.len() implies pending[k] == marked[p - p0 + k] by {}
                assert(!pending[0].closed && pending[0].buffer@ == Seq::<u8>::empty());
            }
        } else {
            proof {
                let p = self.inner.popped as int;
                if p < started {
                    assert(p == p0 + marked.len());
                    assert(w[p] == Seq::<u8>::empty());
                    lemma_concat_first_succ(w, p);
                    assert(self.emitted@ + out@ =~= concat_first(w, p + 1));
                } else {
                    assert(self.emitted@ + out@ =~= concat_first(w, p));
                }
            }
        }
        self.emitted = Ghost(self.emitted@ + out@);
        proof {
            let p = self.inner.popped as int;
            let pending = self.inner.pending@;
            assert forall|k: int| 0 < k < pending.len() implies #[trigger] pending[k].buffer@ == w[p
                + k] by {
                assert(pending[k] == marked[p - p0 + k]);
            }
            assert forall|j: int|
                p < j < started && j - p >= pending.len() implies #[trigger] w[j] == Seq::<
                u8,
            >::empty() by {
                assert(p0 < j);
            }
            assert forall|j: int| #![all_triggers]
                open_in(p, pending, started, j) == open_in(p0, marked, started, j) by {
                if p0 <= j < p {
                    assert(marked[j - p0].closed);
                }
                if p <= j < started && j - p < pending.len() {
                    assert(pending[j - p].closed == marked[j - p0].closed);
                }
            }
            assert(open_in(p0, marked, started, index as int) == false);
        }
        out
    }

    /// Tasks started one after another, as `new_task` starts them, are numbered in turn: given the
    /// states of a job between `n` such starts, the tasks' positions are the job's count before
    /// the first start plus 0, 1, ..., n - 1, so they are distinct and increasing, and the job has
    /// counted all `n` of them. From a new job they are exactly 0, ..., n - 1.
    pub proof fn lemma_task_positions(jobs: Seq<Job>, positions: Seq<nat>)
        requires
            jobs.len() == positions.len() + 1,
            forall|i: int|
                0 <= i < positions.len() ==> #[trigger] positions[i] == jobs[i].started()
                    && jobs[i + 1].started() == jobs[i].started() + 1,
        ensures
            forall|i: int| 0 <= i < positions.len() ==> #[trigger] positions[i] == jobs[0].started() + i,
            forall|i: int, j: int| 0 <= i < j < positions.len() ==> positions[i] < positions[j],
            jobs.last().started() == jobs[0].started() + positions.len(),
        decreases positions.len(),
    {
        if positions.len() > 0 {
            let n = positions.len() - 1;
            Job::lemma_task_positions(jobs.drop_last(), positions.drop_last());
            assert(positions[n] == jobs[n].started());
            assert(jobs.drop_last().last() == jobs[n]);
            assert forall|i: int| 0 <= i < positions.len() implies #[trigger] positions[i]
                == jobs[0].started() + i by {
                if i < n {
                    assert(positions.drop_last()[i] == positions[i]);
                }
            }
        }
    }

    /// Laws of the queue: what has reached the writer is the output of the tasks before the front,
    /// in the order in which they were started, followed by what the task at the front has
    /// written; so it is always a prefix of all outputs in that order, and once every task has
    /// closed, it is all of them.
    pub proof fn lemma_in_order(&self)
        requires
            self.wf(),
        ensures
            self.emitted() == concat_first(
                self.written(),
                if self.front() < self.started() {
                    self.front() + 1int
                } else {
                    self.front() as int
                },
            ),
            self.emitted().is_prefix_of(self.written().flatten()),
            self.all_closed() ==> self.emitted() == self.written().flatten(),
    {
        let popped = self.inner.popped as int;
        let started = self.started as int;
        lemma_concat_first_prefix(self.written@, front_end(popped, started));
        if self.all_closed() {
            assert(!self.is_open(popped as nat));
            assert(popped == started);
            assert(self.written@.take(started) =~= self.written@);
        }
    }
}

} // verus!
