//! Executors: what they decide on each poll of the futures they run.
//!
//! An executor drives futures whose `poll` is written by users; whether those
//! ever complete is up to them, so the loops that run an executor until all
//! of its futures are done are not here. What is here is each step: polling a
//! future once, and one round over all pending futures, after which the
//! completed ones are gone and the others keep their order.
use vstd::prelude::*;

use crate::future::Future;
use crate::future::Poll;
use crate::future::lemma_ready_on_step;
use crate::future::ready_on;
use crate::positions::kept_where;
use crate::positions::lemma_kept_all;
use crate::positions::lemma_kept_congruent;
use crate::positions::lemma_reversed_listed;
use crate::positions::listed;
use crate::positions::remove_positions;
use crate::positions::reversed;
use crate::positions::strictly_increasing;

verus! {

/// A unit of work with nothing to hand back: a future of `()` as the
/// executors hold it.
pub trait Task: Send {
    /// Whether `step` may be called.
    spec fn live(&self) -> bool;

    /// One step may leave the task as `after` and report `done`.
    spec fn steps_to(&self, after: &Self, done: bool) -> bool;

    /// Polls once; `true` when the work is complete.
    fn step(&mut self) -> (done: bool)
        requires
            old(self).live(),
        ensures
            !done ==> final(self).live(),
            old(self).steps_to(&*final(self), done),
    ;
}

/// A poll of `f` may leave it as `after` and answer `Ready` exactly when
/// `done`.
pub open spec fn polled_once<F: Future<Item = ()>>(f: &F, after: &F, done: bool) -> bool {
    exists|r: Poll<F::Item>| #[trigger] f.polls_to(after, r) && done == (r is Ready)
}

impl<F: Future<Item = ()>> Task for F {
    open spec fn live(&self) -> bool {
        self.pollable()
    }

    /// A step is one poll; it is done when the poll answers `Ready`.
    open spec fn steps_to(&self, after: &Self, done: bool) -> bool {
        polled_once(self, after, done)
    }

    fn step(&mut self) -> (done: bool) {
        let r = self.poll();
        match r {
            Poll::Ready(_) => true,
            Poll::NotReady => false,
        }
    }
}

/// The part of a task that a task of any type offers: whether it may be
/// stepped, and the step.
pub trait Runnable: Send {
    /// Whether `run_once` may be called.
    spec fn runnable(&self) -> bool;

    /// One poll of the task may answer that it is complete.
    spec fn may_finish(&self) -> bool;

    /// One poll of the task may answer that it is not complete.
    spec fn may_stay(&self) -> bool;

    /// The task completes within `n` polls.
    spec fn done_within(&self, n: nat) -> bool;

    /// Polls once; `true` when the work is complete. A task that completes
    /// within one poll completes on this one, and one that completes within
    /// `n` polls and is not complete is left completing within `n - 1`.
    fn run_once(&mut self) -> (done: bool)
        requires
            old(self).runnable(),
        ensures
            !done ==> final(self).runnable(),
            done ==> old(self).may_finish(),
            !done ==> old(self).may_stay(),
            old(self).done_within(1) ==> done,
            !done ==> forall|n: nat|
                n > 1 && #[trigger] old(self).done_within(n) ==> final(self).done_within((n - 1) as nat),
    ;
}

impl<F: Future<Item = ()>> Runnable for F {
    open spec fn runnable(&self) -> bool {
        self.pollable()
    }

    /// Some poll of the future answers `Ready`.
    open spec fn may_finish(&self) -> bool {
        exists|a: F| #[trigger] polled_once(self, &a, true)
    }

    /// Some poll of the future answers `NotReady`.
    open spec fn may_stay(&self) -> bool {
        exists|a: F| #[trigger] polled_once(self, &a, false)
    }

    open spec fn done_within(&self, n: nat) -> bool {
        finishes_within(*self, n)
    }

    fn run_once(&mut self) -> (done: bool) {
        let ghost before = *self;
        let done = self.step();
        proof {
            assert(polled_once(&before, &*self, done));
            assert(before.steps_to(&*self, done));
            assert(!finishes_within(*self, 0));
        }
        done
    }
}

/// A task of any type, as the single-threaded executor holds it.
pub struct BoxedTask(Box<dyn Runnable>);

impl BoxedTask {
    /// The task is `f`, boxed.
    pub closed spec fn boxes<F: Future<Item = ()> + 'static>(&self, f: F) -> bool {
        let b: Box<dyn Runnable> = Box::new(f);
        self.0 == b
    }

    /// One poll of the boxed task may answer that it is complete.
    pub closed spec fn may_finish(&self) -> bool {
        self.0.may_finish()
    }

    /// One poll of the boxed task may answer that it is not complete.
    pub closed spec fn may_stay(&self) -> bool {
        self.0.may_stay()
    }

    /// The boxed task completes within `n` polls.
    pub closed spec fn within(&self, n: nat) -> bool {
        n > 0 && self.0.done_within(n)
    }

    pub fn new<F: Future<Item = ()> + 'static>(f: F) -> (r: BoxedTask)
        ensures
            r.boxes(f),
            r.live() == f.pollable(),
            r.may_finish() == (exists|a: F| #[trigger] polled_once(&f, &a, true)),
            r.may_stay() == (exists|a: F| #[trigger] polled_once(&f, &a, false)),
            forall|n: nat| #[trigger] r.within(n) == finishes_within(f, n),
    {
        BoxedTask(Box::new(f))
    }
}

impl Task for BoxedTask {
    closed spec fn live(&self) -> bool {
        self.0.runnable()
    }

    /// A step of a task of any type: it reports done only where a poll of
    /// the task may answer that it is complete, and not done only where a
    /// poll may answer that it is not, and then the task may be stepped
    /// again, one poll closer to completion.
    open spec fn steps_to(&self, after: &Self, done: bool) -> bool {
        &&& done ==> self.may_finish()
        &&& !done ==> self.may_stay() && after.live()
        &&& !done ==> forall|n: nat| #[trigger] self.within(n) ==> n > 1 && after.within((n - 1) as nat)
    }

    fn step(&mut self) -> (done: bool) {
        self.0.run_once()
    }
}

/// An executor that runs each future to completion as soon as it is spawned.
pub struct BlockingExecutor;

impl BlockingExecutor {
    pub fn new() -> (r: BlockingExecutor) {
        BlockingExecutor
    }

    /// One poll of a spawned future; `true` when it is complete, after which
    /// the executor stops polling it.
    pub fn advance<F: Future<Item = ()>>(&mut self, f: &mut F) -> (done: bool)
        requires
            old(f).pollable(),
        ensures
            !done ==> final(f).pollable(),
            polled_once(&*old(f), &*final(f), done),
    {
        f.step()
    }
}

/// An executor that keeps the futures that are not complete yet and polls
/// them in turn, on one thread.
pub struct SingleThreadExecutor<T: Task = BoxedTask> {
    futures: Vec<T>,
}

impl SingleThreadExecutor<BoxedTask> {
    pub fn new() -> (r: SingleThreadExecutor<BoxedTask>)
        ensures
            r.pending() == Seq::<BoxedTask>::empty(),
    {
        SingleThreadExecutor { futures: Vec::new() }
    }

    /// Polls `f` once; keeps it, boxed and after the pending ones, when it is
    /// not complete.
    pub fn spawn<F: Future<Item = ()> + 'static>(&mut self, f: F)
        requires
            f.pollable(),
        ensures
            exists|after: F, done: bool|
                #[trigger] polled_once(&f, &after, done) && if done {
                    final(self).pending() == old(self).pending()
                } else {
                    &&& final(self).pending().len() == old(self).pending().len() + 1
                    &&& final(self).pending().take(old(self).pending().len() as int) == old(self).pending()
                    &&& final(self).pending().last().boxes(after)
                },
    {
        let ghost f0 = f;
        let mut f = f;
        let done = f.step();
        if !done {
            let task = BoxedTask::new(f);
            self.settle(task, false);
            proof {
                assert(self.pending().take(old(self).pending().len() as int) =~= old(self).pending());
            }
        }
        proof {
            assert(polled_once(&f0, &f, done));
        }
    }
}

impl<T: Task> SingleThreadExecutor<T> {
    /// All pending futures may be polled.
    #[verifier::type_invariant]
    spec fn all_live(&self) -> bool {
        forall|i: int| 0 <= i < self.futures@.len() ==> (#[trigger] self.futures@[i]).live()
    }

    /// The pending futures, in the order in which they were spawned.
    pub closed spec fn pending(&self) -> Seq<T> {
        self.futures@
    }

    /// Whether no future is pending.
    pub fn is_idle(&self) -> (r: bool)
        ensures
            r == (self.pending().len() == 0),
    {
        self.futures.len() == 0
    }

    /// Polls `task` once; keeps it, after the pending ones, when it is not
    /// complete.
    pub fn spawn_task(&mut self, task: T)
        requires
            task.live(),
        ensures
            exists|after: T, done: bool|
                #[trigger] task.steps_to(&after, done) && final(self).pending() == if done {
                    old(self).pending()
                } else {
                    old(self).pending().push(after)
                },
    {
        proof {
            use_type_invariant(&*self);
        }
        let ghost t0 = task;
        let mut task = task;
        let done = task.step();
        let ghost t1 = task;
        self.settle(task, done);
        proof {
            assert(t0.steps_to(&t1, done));
        }
    }

    /// The decision after a task was polled: it is kept, after the pending
    /// ones, exactly when the poll did not complete it.
    pub fn settle(&mut self, task: T, done: bool)
        requires
            !done ==> task.live(),
        ensures
            final(self).pending() == (if done {
                old(self).pending()
            } else {
                old(self).pending().push(task)
            }),
    {
        proof {
            use_type_invariant(&*self);
        }
        if !done {
            let mut futures: Vec<T> = Vec::new();
            std::mem::swap(&mut futures, &mut self.futures);
            futures.push(task);
            self.futures = futures;
        }
    }

    /// `polled` is what one step of each task of `tasks` left, and the steps
    /// that reported completion are those at the positions of `completed`.
    pub open spec fn round_of(tasks: Seq<T>, polled: Seq<T>, completed: Seq<usize>) -> bool {
        &&& polled.len() == tasks.len()
        &&& forall|j: int| 0 <= j < tasks.len() ==> #[trigger] tasks[j].steps_to(&polled[j], listed(completed, j))
    }

    /// Polls every pending future once and drops those that completed; the
    /// others stay, in their order. Returns the positions, among the pending
    /// futures, of those that completed, in increasing order.
    pub fn run_round(&mut self) -> (completed: Vec<usize>)
        ensures
            strictly_increasing(completed@),
            forall|k: int| 0 <= k < completed@.len() ==> completed@[k] < old(self).pending().len(),
            final(self).pending().len() == old(self).pending().len() - completed@.len(),
            exists|polled: Seq<T>|
                #![trigger Self::round_of(old(self).pending(), polled, completed@)]
                Self::round_of(old(self).pending(), polled, completed@) && final(self).pending()
                    == kept_where(polled, |j: int| listed(completed@, j), 0),
    {
        proof {
            use_type_invariant(&*self);
        }
        let mut futures: Vec<T> = Vec::new();
        std::mem::swap(&mut futures, &mut self.futures);
        let ghost tasks = futures@;
        let n = futures.len();
        let mut finished: Vec<usize> = Vec::new();
        let mut i: usize = 0;
        while i < n
            invariant
                n == futures@.len(),
                tasks.len() == n,
                0 <= i <= n,
                forall|j: int| i <= j < n ==> futures@[j] == tasks[j],
                forall|j: int| 0 <= j < i ==> #[trigger] tasks[j].steps_to(&futures@[j], listed(finished@, j)),
                strictly_increasing(finished@),
                forall|k: int| 0 <= k < finished@.len() ==> finished@[k] < i,
                forall|j: int| i <= j < n ==> (#[trigger] futures@[j]).live(),
                forall|j: int| 0 <= j < i && !listed(finished@, j) ==> (#[trigger] futures@[j]).live(),
            decreases n - i,
        {
            let ghost prev = futures@;
            let ghost prev_finished = finished@;
            assert(forall|j: int| 0 <= j < i ==> #[trigger] tasks[j].steps_to(&prev[j], listed(prev_finished, j)));
            let done = futures[i].step();
            assert(forall|j: int| 0 <= j < n && j != i ==> futures@[j] == prev[j]);
            if done {
                finished.push(i);
                assert(finished@[finished@.len() - 1] == i);
                assert(listed(finished@, i as int));
            }
            proof {
                assert forall|j: int| 0 <= j < i + 1 implies #[trigger] tasks[j].steps_to(
                    &futures@[j],
                    listed(finished@, j),
                ) by {
                    if j < i {
                        assert(futures@[j] == prev[j]);
                        assert(tasks[j].steps_to(&prev[j], listed(prev_finished, j)));
                        assert(listed(finished@, j) == listed(prev_finished, j)) by {
                            if listed(prev_finished, j) {
                                let k = choose|k: int| 0 <= k < prev_finished.len() && prev_finished[k] as int == j;
                                assert(finished@[k] == prev_finished[k]);
                            }
                            if listed(finished@, j) {
                                let k = choose|k: int| 0 <= k < finished@.len() && finished@[k] as int == j;
                                if k == prev_finished.len() {
                                    assert(finished@[k] == i);
                                } else {
                                    assert(finished@[k] == prev_finished[k]);
                                }
                            }
                        }
                    } else {
                        assert(prev[j] == tasks[j]);
                        assert(tasks[j].steps_to(&futures@[j], done));
                        if !done {
                            if listed(finished@, j) {
                                let k = choose|k: int| 0 <= k < finished@.len() && finished@[k] as int == j;
                                assert(finished@[k] < i);
                            }
                        }
                    }
                }
                assert forall|j: int| 0 <= j < i + 1 && !listed(finished@, j) implies (
                #[trigger] futures@[j]).live() by {
                    if j < i {
                        if listed(prev_finished, j) {
                            let k = choose|k: int| 0 <= k < prev_finished.len() && prev_finished[k] as int == j;
                            assert(finished@[k] == prev_finished[k]);
                        }
                    }
                }
            }
            i = i + 1;
        }
        let ghost ascending = finished@;
        let descending = reversed(&finished);
        proof {
            lemma_reversed_listed(ascending);
        }
        let ghost before = futures@;
        remove_positions(&mut futures, &descending);
        proof {
            let gone = |j: int| listed(descending@, j);
            let p = |t: T| t.live();
            assert forall|j: int| 0 <= j < before.len() && !gone(j) implies #[trigger] p(before[j]) by {
                assert(!listed(ascending, j));
            }
            lemma_kept_all(before, gone, 0, p);
            lemma_kept_congruent(before, gone, |j: int| listed(finished@, j), 0);
            assert(Self::round_of(tasks, before, finished@));
        }
        self.futures = futures;
        proof {
            assert(tasks == old(self).futures@);
            assert(self.futures@ == kept_where(before, |j: int| listed(finished@, j), 0));
            assert(Self::round_of(old(self).pending(), before, finished@));
        }
        finished
    }
}

/// In a round of the single-threaded executor, a boxed task leaves only
/// when its poll answered that it is complete; every other task answered
/// that it is not, stays, in its order, and may be polled again.
pub proof fn lemma_round_drops_only_finished(
    tasks: Seq<BoxedTask>,
    polled: Seq<BoxedTask>,
    completed: Seq<usize>,
)
    requires
        SingleThreadExecutor::<BoxedTask>::round_of(tasks, polled, completed),
    ensures
        forall|j: int| 0 <= j < tasks.len() && listed(completed, j) ==> #[trigger] tasks[j].may_finish(),
        forall|j: int|
            0 <= j < tasks.len() && !listed(completed, j) ==> #[trigger] tasks[j].may_stay()
                && polled[j].live(),
{
    assert forall|j: int| 0 <= j < tasks.len() && listed(completed, j) implies #[trigger] tasks[j].may_finish() by {
        assert(tasks[j].steps_to(&polled[j], listed(completed, j)));
    }
    assert forall|j: int| 0 <= j < tasks.len() && !listed(completed, j) implies #[trigger] tasks[j].may_stay()
        && polled[j].live() by {
        assert(tasks[j].steps_to(&polled[j], listed(completed, j)));
    }
}


/// The task completes within `n` steps: no task completes within none, and
/// a step that leaves it not complete leaves a task that completes within
/// `n - 1`.
pub open spec fn finishes_within<T: Task>(t: T, n: nat) -> bool
    decreases n,
{
    if n == 0 {
        false
    } else {
        forall|after: T| #[trigger] t.steps_to(&after, false) ==> finishes_within(after, (n - 1) as nat)
    }
}

/// Successive rounds of a single-threaded executor: `pending[r]` is what
/// was pending before round `r`, which stepped it to `polled[r]` with the
/// completions at `completed[r]`, and left the others pending.
pub open spec fn rounds_run<T: Task>(
    pending: Seq<Seq<T>>,
    polled: Seq<Seq<T>>,
    completed: Seq<Seq<usize>>,
) -> bool {
    &&& pending.len() == polled.len() + 1
    &&& completed.len() == polled.len()
    &&& forall|r: int|
        0 <= r < polled.len() ==> {
            &&& #[trigger] SingleThreadExecutor::<T>::round_of(pending[r], polled[r], completed[r])
            &&& pending[r + 1] == kept_where(polled[r], |j: int| listed(completed[r], j), 0)
        }
}

/// Where every future pending in a single-threaded executor completes within
/// `n` polls, the executor is idle after `n` rounds, and stays idle.
pub proof fn lemma_rounds_reach_idle<T: Task>(
    pending: Seq<Seq<T>>,
    polled: Seq<Seq<T>>,
    completed: Seq<Seq<usize>>,
    n: nat,
)
    requires
        rounds_run(pending, polled, completed),
        forall|i: int| 0 <= i < pending[0].len() ==> finishes_within(#[trigger] pending[0][i], n),
    ensures
        forall|k: int| n <= k < pending.len() ==> (#[trigger] pending[k]).len() == 0,
{
    lemma_rounds_progress(pending, polled, completed, 0, n);
}

proof fn lemma_rounds_progress<T: Task>(
    pending: Seq<Seq<T>>,
    polled: Seq<Seq<T>>,
    completed: Seq<Seq<usize>>,
    k: int,
    b: nat,
)
    requires
        rounds_run(pending, polled, completed),
        0 <= k < pending.len(),
        forall|i: int| 0 <= i < pending[k].len() ==> finishes_within(#[trigger] pending[k][i], b),
    ensures
        forall|m: int| k + b <= m < pending.len() ==> (#[trigger] pending[m]).len() == 0,
    decreases pending.len() - k,
{
    if b == 0 && pending[k].len() > 0 {
        assert(finishes_within(pending[k][0], b));
    }
    if k < polled.len() {
        let tasks = pending[k];
        let stepped = polled[k];
        let gone = |j: int| listed(completed[k], j);
        assert(SingleThreadExecutor::<T>::round_of(tasks, stepped, completed[k]));
        let b2: nat = if b == 0 { 0 } else { (b - 1) as nat };
        let p = |t: T| finishes_within(t, b2);
        assert forall|i: int| 0 <= i < stepped.len() && !gone(i) implies #[trigger] p(stepped[i]) by {
            assert(tasks[i].steps_to(&stepped[i], listed(completed[k], i)));
            assert(finishes_within(tasks[i], b));
        }
        lemma_kept_all(stepped, gone, 0, p);
        assert(pending[k + 1] == kept_where(stepped, gone, 0));
        assert forall|i: int| 0 <= i < pending[k + 1].len() implies finishes_within(
            #[trigger] pending[k + 1][i],
            b2,
        ) by {
            assert(p(kept_where(stepped, gone, 0)[i]));
        }
        lemma_rounds_progress(pending, polled, completed, k + 1, b2);
    }
}

/// A future that is ready on its `n`-th poll completes within `n` polls.
pub proof fn lemma_ready_on_finishes<F: Future<Item = ()>>(f: F, n: nat)
    requires
        n >= 1,
        ready_on(f, n),
    ensures
        finishes_within(f, n),
    decreases n,
{
    assert forall|after: F| #[trigger] f.steps_to(&after, false) implies finishes_within(after, (n - 1) as nat) by {
        let r = choose|r: Poll<()>| #[trigger] f.polls_to(&after, r) && false == (r is Ready);
        lemma_ready_on_step(f, n, after, r);
        lemma_ready_on_finishes(after, (n - 1) as nat);
    }
}

/// The task boxing `f` completes within `n` polls exactly when `f` does.
pub proof fn lemma_boxes_within<F: Future<Item = ()> + 'static>(b: BoxedTask, f: F, n: nat)
    requires
        b.boxes(f),
    ensures
        b.within(n) == finishes_within(f, n),
{
}

/// A boxed task that completes within `n` polls completes within `n` steps
/// of the executor.
pub proof fn lemma_boxed_within(b: BoxedTask, n: nat)
    requires
        b.within(n),
    ensures
        finishes_within(b, n),
    decreases n,
{
    assert forall|after: BoxedTask| #[trigger] b.steps_to(&after, false) implies finishes_within(
        after,
        (n - 1) as nat,
    ) by {
        lemma_boxed_within(after, (n - 1) as nat);
    }
}

/// Where every boxed task pending in the single-threaded executor completes
/// within `n` polls, the executor is idle after `n` rounds, and stays idle.
pub proof fn lemma_boxed_rounds_reach_idle(
    pending: Seq<Seq<BoxedTask>>,
    polled: Seq<Seq<BoxedTask>>,
    completed: Seq<Seq<usize>>,
    n: nat,
)
    requires
        rounds_run(pending, polled, completed),
        forall|i: int| 0 <= i < pending[0].len() ==> (#[trigger] pending[0][i]).within(n),
    ensures
        forall|k: int| n <= k < pending.len() ==> (#[trigger] pending[k]).len() == 0,
{
    assert forall|i: int| 0 <= i < pending[0].len() implies finishes_within(#[trigger] pending[0][i], n) by {
        lemma_boxed_within(pending[0][i], n);
    }
    lemma_rounds_reach_idle(pending, polled, completed, n);
}

} // verus!
