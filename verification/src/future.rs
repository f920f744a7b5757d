//! Poll-based futures and the combinators `immediate`, `map`, `join` and `and_then`.
//!
//! A future is a state machine that is driven by calling `poll` until it
//! answers `Poll::Ready`. Each combinator here is itself such a state
//! machine; its transitions are written as verified functions that take what
//! the inner futures answered as arguments, so that every decision is stated
//! exactly, whatever the inner futures (which users implement) do.
use vstd::prelude::*;

verus! {

/// The answer of one call of `poll`.
#[derive(Debug)]
pub enum Poll<T> {
    Ready(T),
    NotReady,
}

/// The core futures interface.
///
/// `pollable` says that the future is in a state in which `poll` may be
/// called: once a future has produced its value, polling it again is an
/// error. A future that answers `NotReady` must stay pollable. A future that
/// does not say otherwise may always be polled.
///
/// `polls_to(after, r)` says that one poll of the future may answer `r` and
/// leave the future as `after`; every poll answers and leaves accordingly. A
/// future that does not say otherwise may answer anything.
pub trait Future: Send {
    type Item: Send;

    open spec fn pollable(&self) -> bool {
        true
    }

    open spec fn polls_to(&self, after: &Self, r: Poll<Self::Item>) -> bool {
        true
    }

    fn poll(&mut self) -> (r: Poll<Self::Item>)
        requires
            old(self).pollable(),
        ensures
            r is NotReady ==> final(self).pollable(),
            old(self).polls_to(&*final(self), r),
    ;
}

/// `take_mut::take` runs the closure on the value behind the reference and
/// stores the closure's result there. The contract claims exactly that: the
/// closure is called once, on the old value, and its result is the new value
/// (where the closure panics, the crate aborts the process instead of
/// returning; the contract says nothing of that case, and a closure that
/// calls a function written by a user, as `and_then`'s does, may panic).
pub assume_specification<T, F>[ take_mut::take::<T, F> ](mut_ref: &mut T, closure: F)
    where
        F: FnOnce(T) -> T,
    requires
        closure.requires((*old(mut_ref),)),
    ensures
        closure.ensures((*old(mut_ref),), *final(mut_ref)),
;

// ---------------------------------------------------------------------------
// Immediate
// ---------------------------------------------------------------------------

/// A future that is ready at once with the value it holds.
pub struct Immediate<T> {
    t: Option<T>,
}

impl<T> Immediate<T> {
    /// The value still to be handed out, if any.
    pub closed spec fn value(&self) -> Option<T> {
        self.t
    }
}

impl<T: Send> Future for Immediate<T> {
    type Item = T;

    closed spec fn pollable(&self) -> bool {
        self.t is Some
    }

    open spec fn polls_to(&self, after: &Self, r: Poll<T>) -> bool {
        &&& r == Poll::Ready(self.value().unwrap())
        &&& after.value() is None
    }

    fn poll(&mut self) -> (r: Poll<T>)
        ensures
            r == Poll::Ready(old(self).value().unwrap()),
            final(self).value() is None,
    {
        Poll::Ready(self.t.take().unwrap())
    }
}

/// Builds a future that is ready with `t` on its first poll.
pub fn immediate<T: Send>(t: T) -> (r: Immediate<T>)
    ensures
        r.value() == Some(t),
        r.pollable(),
{
    Immediate { t: Some(t) }
}

// ---------------------------------------------------------------------------
// Map
// ---------------------------------------------------------------------------

/// A future that applies a function to the value of another future.
pub struct Mapped<Fut, Fun> {
    fut: Fut,
    fun: Option<Fun>,
}

impl<Fut, Fun> Mapped<Fut, Fun> {
    /// The future whose value is mapped.
    pub closed spec fn inner(&self) -> Fut {
        self.fut
    }

    /// The function still to be applied; `None` once it has been applied.
    pub closed spec fn func(&self) -> Option<Fun> {
        self.fun
    }
}

/// Builds a future that, once `fut` is ready with `x`, is ready with `fun(x)`.
pub fn map<T, Fut, Fun>(fut: Fut, fun: Fun) -> (r: Mapped<Fut, Fun>) where
    T: Send,
    Fut: Future,
    Fun: FnOnce(Fut::Item) -> T + Send,

    ensures
        r.inner() == fut,
        r.func() == Some(fun),
        r.pollable() == (fut.pollable() && forall|x: Fut::Item| #[trigger] fun.requires((x,))),
{
    let r = Mapped { fut, fun: Some(fun) };
    assert(r.fun.unwrap() == fun);
    r
}

impl<T, Fut, Fun> Mapped<Fut, Fun> where
    T: Send,
    Fut: Future,
    Fun: FnOnce(Fut::Item) -> T + Send,
 {
    /// One poll of a mapped future: the inner future answered `r0`; on
    /// `Ready(x)` the function, applied to `x`, gives the answer and is gone.
    pub open spec fn mapped_answer(fun: Option<Fun>, fun_after: Option<Fun>, r0: Poll<Fut::Item>, r: Poll<T>) -> bool {
        match r0 {
            Poll::NotReady => r is NotReady && fun_after == fun,
            Poll::Ready(x) => {
                &&& fun_after is None
                &&& r matches Poll::Ready(t) && fun.unwrap().ensures((x,), t)
            },
        }
    }

    /// What one poll of the mapped future may answer and leave: some poll of
    /// the inner future, then `mapped_answer`.
    pub open spec fn maps_to(&self, after: &Self, r: Poll<T>) -> bool {
        exists|r0: Poll<Fut::Item>| #[trigger] self.inner().polls_to(&after.inner(), r0)
            && Self::mapped_answer(self.func(), after.func(), r0, r)
    }

    /// `t` is a value that the function `fun` can give back for some argument.
    pub open spec fn applied(fun: Option<Fun>, t: T) -> bool {
        exists|x: Fut::Item| #[trigger] fun.unwrap().ensures((x,), t)
    }

    /// The step taken when the inner future is ready with `x`: the function
    /// is applied to `x` (once: it is gone afterwards).
    pub fn finish(&mut self, x: Fut::Item) -> (t: T)
        requires
            old(self).func() is Some,
            old(self).func().unwrap().requires((x,)),
        ensures
            final(self).inner() == old(self).inner(),
            final(self).func() is None,
            old(self).func().unwrap().ensures((x,), t),
    {
        let f = self.fun.take().unwrap();
        f(x)
    }
}

impl<T, Fut, Fun> Future for Mapped<Fut, Fun> where
    T: Send,
    Fut: Future,
    Fun: FnOnce(Fut::Item) -> T + Send,
 {
    type Item = T;

    closed spec fn pollable(&self) -> bool {
        &&& self.fun is Some
        &&& self.fut.pollable()
        &&& forall|x: Fut::Item| #[trigger] self.fun.unwrap().requires((x,))
    }

    open spec fn polls_to(&self, after: &Self, r: Poll<T>) -> bool {
        self.maps_to(after, r)
    }

    fn poll(&mut self) -> (r: Poll<T>)
        ensures
            r is NotReady ==> final(self).func() == old(self).func(),
            r is Ready ==> final(self).func() is None,
            r matches Poll::Ready(t) ==> Self::applied(old(self).func(), t),
    {
        let answer = self.fut.poll();
        let r = match answer {
            Poll::NotReady => Poll::NotReady,
            Poll::Ready(s) => {
                let t = self.finish(s);
                Poll::Ready(t)
            },
        };
        proof {
            assert(old(self).inner().polls_to(&self.inner(), answer));
            assert(Self::mapped_answer(old(self).func(), self.func(), answer, r));
        }
        r
    }
}

// ---------------------------------------------------------------------------
// Join
// ---------------------------------------------------------------------------

/// A join of two futures is a state machine depending on which future is
/// completed: it is ready with both values once both futures are.
pub enum Join<F, G> where F: Future, G: Future {
    BothRunning(F, G),
    FirstDone(F::Item, G),
    SecondDone(F, G::Item),
    Done,
}

/// Builds the join of `f` and `g`; neither is assumed to have completed.
pub fn join<F, G>(f: F, g: G) -> (r: Join<F, G>) where F: Future, G: Future
    ensures
        r == Join::<F, G>::BothRunning(f, g),
{
    Join::BothRunning(f, g)
}

/// The state after the first future of a running join is ready with `a`.
fn first_completed<F: Future, G: Future>(j: Join<F, G>, a: F::Item) -> (r: Join<F, G>)
    requires
        j is BothRunning,
    ensures
        j matches Join::BothRunning(_, g) && r == Join::<F, G>::FirstDone(a, g),
{
    match j {
        Join::BothRunning(_, g) => Join::FirstDone(a, g),
        _ => {
            proof {
                assert(false);
            }
            Join::Done
        },
    }
}

/// The state after the second future of a running join is ready with `b`.
fn second_completed<F: Future, G: Future>(j: Join<F, G>, b: G::Item) -> (r: Join<F, G>)
    requires
        j is BothRunning,
    ensures
        j matches Join::BothRunning(f, _) && r == Join::<F, G>::SecondDone(f, b),
{
    match j {
        Join::BothRunning(f, _) => Join::SecondDone(f, b),
        _ => {
            proof {
                assert(false);
            }
            Join::Done
        },
    }
}

impl<F: Future, G: Future> Join<F, G> {
    /// The step from `s`, in which both futures run, to `after`, answering
    /// `r`, when the first future answered `r1` and the second `r2`.
    pub open spec fn both_step(
        s: Join<F, G>,
        r1: Poll<F::Item>,
        r2: Poll<G::Item>,
        after: Join<F, G>,
        r: Poll<(F::Item, G::Item)>,
    ) -> bool {
        match (r1, r2) {
            (Poll::NotReady, Poll::NotReady) => r is NotReady && after == s,
            (Poll::Ready(a), Poll::NotReady) => {
                &&& r is NotReady
                &&& s matches Join::BothRunning(_, g) && after == Join::<F, G>::FirstDone(a, g)
            },
            (Poll::NotReady, Poll::Ready(b)) => {
                &&& r is NotReady
                &&& s matches Join::BothRunning(f, _) && after == Join::<F, G>::SecondDone(f, b)
            },
            (Poll::Ready(a), Poll::Ready(b)) => r == Poll::Ready((a, b)) && after is Done,
        }
    }

    /// The step from `s`, whose first future is done, to `after`, answering
    /// `r`, when the second future answered `r2`.
    pub open spec fn second_step(
        s: Join<F, G>,
        r2: Poll<G::Item>,
        after: Join<F, G>,
        r: Poll<(F::Item, G::Item)>,
    ) -> bool {
        match r2 {
            Poll::NotReady => r is NotReady && after == s,
            Poll::Ready(b) => s matches Join::FirstDone(a, _) && r == Poll::Ready((a, b)) && after is Done,
        }
    }

    /// The step from `s`, whose second future is done, to `after`, answering
    /// `r`, when the first future answered `r1`.
    pub open spec fn first_step(
        s: Join<F, G>,
        r1: Poll<F::Item>,
        after: Join<F, G>,
        r: Poll<(F::Item, G::Item)>,
    ) -> bool {
        match r1 {
            Poll::NotReady => r is NotReady && after == s,
            Poll::Ready(a) => s matches Join::SecondDone(_, b) && r == Poll::Ready((a, b)) && after is Done,
        }
    }

    /// The step of a join in which both futures run, given what the first
    /// (`r1`) and the second (`r2`) answered.
    pub fn on_both(&mut self, r1: Poll<F::Item>, r2: Poll<G::Item>) -> (r: Poll<(F::Item, G::Item)>)
        requires
            *old(self) is BothRunning,
        ensures
            Self::both_step(*old(self), r1, r2, *final(self), r),
    {
        match (r1, r2) {
            (Poll::NotReady, Poll::NotReady) => Poll::NotReady,
            (Poll::Ready(a), Poll::NotReady) => {
                let advance = |j: Join<F, G>| -> (r: Join<F, G>)
                    requires
                        j is BothRunning,
                    ensures
                        j matches Join::BothRunning(_, g) && r == Join::<F, G>::FirstDone(a, g),
                    { first_completed(j, a) };
                take_mut::take(self, advance);
                Poll::NotReady
            },
            (Poll::NotReady, Poll::Ready(b)) => {
                let advance = |j: Join<F, G>| -> (r: Join<F, G>)
                    requires
                        j is BothRunning,
                    ensures
                        j matches Join::BothRunning(f, _) && r == Join::<F, G>::SecondDone(f, b),
                    { second_completed(j, b) };
                take_mut::take(self, advance);
                Poll::NotReady
            },
            (Poll::Ready(a), Poll::Ready(b)) => {
                *self = Join::Done;
                Poll::Ready((a, b))
            },
        }
    }

    /// The step of a join whose first future is done, given what the second
    /// future answered.
    pub fn on_second(&mut self, r2: Poll<G::Item>) -> (r: Poll<(F::Item, G::Item)>)
        requires
            *old(self) is FirstDone,
        ensures
            Self::second_step(*old(self), r2, *final(self), r),
    {
        match r2 {
            Poll::NotReady => Poll::NotReady,
            Poll::Ready(second_completed) => {
                let mut old_join = Join::Done;
                std::mem::swap(&mut old_join, self);
                match old_join {
                    Join::FirstDone(first_completed, _) => Poll::Ready((first_completed, second_completed)),
                    _ => {
                        proof {
                            assert(false);
                        }
                        Poll::NotReady
                    },
                }
            },
        }
    }

    /// The step of a join whose second future is done, given what the first
    /// future answered.
    pub fn on_first(&mut self, r1: Poll<F::Item>) -> (r: Poll<(F::Item, G::Item)>)
        requires
            *old(self) is SecondDone,
        ensures
            Self::first_step(*old(self), r1, *final(self), r),
    {
        match r1 {
            Poll::NotReady => Poll::NotReady,
            Poll::Ready(first_completed) => {
                let mut old_join = Join::Done;
                std::mem::swap(&mut old_join, self);
                match old_join {
                    Join::SecondDone(_, second_completed) => Poll::Ready((first_completed, second_completed)),
                    _ => {
                        proof {
                            assert(false);
                        }
                        Poll::NotReady
                    },
                }
            },
        }
    }
}

impl<F: Future, G: Future> Future for Join<F, G> {
    type Item = (F::Item, G::Item);

    open spec fn pollable(&self) -> bool {
        match self {
            Join::BothRunning(f, g) => f.pollable() && g.pollable(),
            Join::FirstDone(_, g) => g.pollable(),
            Join::SecondDone(f, _) => f.pollable(),
            Join::Done => false,
        }
    }

    open spec fn polls_to(&self, after: &Self, r: Poll<Self::Item>) -> bool {
        match *self {
            Join::BothRunning(f, g) => exists|f2: F, g2: G, r1: Poll<F::Item>, r2: Poll<G::Item>|
                #![trigger f.polls_to(&f2, r1), g.polls_to(&g2, r2)]
                f.polls_to(&f2, r1) && g.polls_to(&g2, r2) && Self::both_step(
                    Join::BothRunning(f2, g2),
                    r1,
                    r2,
                    *after,
                    r,
                ),
            Join::FirstDone(a, g) => exists|g2: G, r2: Poll<G::Item>| #[trigger]
                g.polls_to(&g2, r2) && Self::second_step(Join::FirstDone(a, g2), r2, *after, r),
            Join::SecondDone(f, b) => exists|f2: F, r1: Poll<F::Item>| #[trigger]
                f.polls_to(&f2, r1) && Self::first_step(Join::SecondDone(f2, b), r1, *after, r),
            Join::Done => false,
        }
    }

    fn poll(&mut self) -> (r: Poll<Self::Item>)
        ensures
            match *old(self) {
                Join::BothRunning(_, _) => match r {
                    Poll::NotReady => !(*final(self) is Done),
                    Poll::Ready(_) => *final(self) is Done,
                },
                Join::FirstDone(a, _) => match r {
                    Poll::NotReady => *final(self) matches Join::FirstDone(a2, _) && a2 == a,
                    Poll::Ready(pair) => pair.0 == a && *final(self) is Done,
                },
                Join::SecondDone(_, b) => match r {
                    Poll::NotReady => *final(self) matches Join::SecondDone(_, b2) && b2 == b,
                    Poll::Ready(pair) => pair.1 == b && *final(self) is Done,
                },
                Join::Done => false,
            },
    {
        match self {
            Join::BothRunning(future1, future2) => {
                let r1 = future1.poll();
                let r2 = future2.poll();
                let ghost mid = *self;
                let r = self.on_both(r1, r2);
                proof {
                    let (f, g) = match *old(self) {
                        Join::BothRunning(f, g) => (f, g),
                        _ => arbitrary(),
                    };
                    let (f2, g2) = match mid {
                        Join::BothRunning(f2, g2) => (f2, g2),
                        _ => arbitrary(),
                    };
                    assert(f.polls_to(&f2, r1) && g.polls_to(&g2, r2));
                }
                r
            },
            Join::FirstDone(_, future) => {
                let r2 = future.poll();
                let ghost mid = *self;
                let r = self.on_second(r2);
                proof {
                    let g = match *old(self) {
                        Join::FirstDone(_, g) => g,
                        _ => arbitrary(),
                    };
                    let g2 = match mid {
                        Join::FirstDone(_, g2) => g2,
                        _ => arbitrary(),
                    };
                    assert(g.polls_to(&g2, r2));
                }
                r
            },
            Join::SecondDone(future, _) => {
                let r1 = future.poll();
                let ghost mid = *self;
                let r = self.on_first(r1);
                proof {
                    let f = match *old(self) {
                        Join::SecondDone(f, _) => f,
                        _ => arbitrary(),
                    };
                    let f2 = match mid {
                        Join::SecondDone(f2, _) => f2,
                        _ => arbitrary(),
                    };
                    assert(f.polls_to(&f2, r1));
                }
                r
            },
            Join::Done => {
                proof {
                    assert(false);
                }
                Poll::NotReady
            },
        }
    }
}

// ---------------------------------------------------------------------------
// AndThen
// ---------------------------------------------------------------------------

/// The `and_then` state machine depends on which future is currently running.
pub enum AndThen<Fut1, Fut2, Fun> {
    First(Fut1, Fun),
    Second(Fut2),
    Done,
}

/// Builds the future that runs `fut`, then the future that `fun` makes of
/// its value, and is ready with that future's value.
pub fn and_then<Fut1, Fut2, Fun>(fut: Fut1, fun: Fun) -> (r: AndThen<Fut1, Fut2, Fun>) where
    Fut1: Future,
    Fut2: Future,
    Fun: FnOnce(Fut1::Item) -> Fut2 + Send,

    ensures
        r == AndThen::<Fut1, Fut2, Fun>::First(fut, fun),
{
    AndThen::First(fut, fun)
}

/// The state after the first future of an `and_then` is ready with `x`: the
/// second future is made of `x`.
fn start_second<Fut1, Fut2, Fun>(s: AndThen<Fut1, Fut2, Fun>, x: Fut1::Item) -> (r: AndThen<Fut1, Fut2, Fun>) where
    Fut1: Future,
    Fut2: Future,
    Fun: FnOnce(Fut1::Item) -> Fut2 + Send,

    requires
        s matches AndThen::First(_, f) && f.requires((x,)),
    ensures
        s matches AndThen::First(_, f) && r matches AndThen::Second(g) && f.ensures((x,), g),
{
    match s {
        AndThen::First(_, f) => AndThen::Second(f(x)),
        _ => {
            proof {
                assert(false);
            }
            AndThen::Done
        },
    }
}

impl<Fut1, Fut2, Fun> AndThen<Fut1, Fut2, Fun> where
    Fut1: Future,
    Fut2: Future,
    Fun: FnOnce(Fut1::Item) -> Fut2 + Send,
 {
    /// The step from `s`, whose first future runs, to `after`, answering `r`,
    /// when that future answered `r1`: on `Ready(x)` the second future is
    /// made of `x` (it is polled on the next call).
    pub open spec fn first_step(
        s: AndThen<Fut1, Fut2, Fun>,
        r1: Poll<Fut1::Item>,
        after: AndThen<Fut1, Fut2, Fun>,
        r: Poll<Fut2::Item>,
    ) -> bool {
        &&& r is NotReady
        &&& match r1 {
            Poll::NotReady => after == s,
            Poll::Ready(x) => s matches AndThen::First(_, f) && after matches AndThen::Second(g) && f.ensures(
                (x,),
                g,
            ),
        }
    }

    /// The step of an `and_then` whose first future runs, given what that
    /// future answered: on `Ready(x)` the second future is made of `x` (it is
    /// polled on the next call).
    pub fn on_first(&mut self, r1: Poll<Fut1::Item>) -> (r: Poll<Fut2::Item>)
        requires
            *old(self) is First,
            r1 matches Poll::Ready(x) ==> (*old(self) matches AndThen::First(_, f) && f.requires((x,))),
        ensures
            Self::first_step(*old(self), r1, *final(self), r),
    {
        match r1 {
            Poll::NotReady => Poll::NotReady,
            Poll::Ready(ready_value) => {
                let advance = |value: AndThen<Fut1, Fut2, Fun>| -> (r: AndThen<Fut1, Fut2, Fun>)
                    requires
                        value matches AndThen::First(_, f) && f.requires((ready_value,)),
                    ensures
                        value matches AndThen::First(_, f) && r matches AndThen::Second(g)
                            && f.ensures((ready_value,), g),
                    { start_second(value, ready_value) };
                take_mut::take(self, advance);
                Poll::NotReady
            },
        }
    }
}

impl<Fut1, Fut2, Fun> Future for AndThen<Fut1, Fut2, Fun> where
    Fut1: Future,
    Fut2: Future,
    Fun: FnOnce(Fut1::Item) -> Fut2 + Send,
 {
    type Item = Fut2::Item;

    open spec fn pollable(&self) -> bool {
        match self {
            AndThen::First(fut, f) => {
                &&& fut.pollable()
                &&& forall|x: Fut1::Item| #[trigger] f.requires((x,))
                &&& forall|x: Fut1::Item, g: Fut2| #[trigger] f.ensures((x,), g) ==> g.pollable()
            },
            AndThen::Second(g) => g.pollable(),
            AndThen::Done => false,
        }
    }

    open spec fn polls_to(&self, after: &Self, r: Poll<Self::Item>) -> bool {
        match *self {
            AndThen::First(fut, f) => exists|fut2: Fut1, r1: Poll<Fut1::Item>| #[trigger]
                fut.polls_to(&fut2, r1) && Self::first_step(AndThen::First(fut2, f), r1, *after, r),
            AndThen::Second(g) => exists|g2: Fut2| #[trigger]
                g.polls_to(&g2, r) && *after == AndThen::<Fut1, Fut2, Fun>::Second(g2),
            AndThen::Done => false,
        }
    }

    fn poll(&mut self) -> (r: Poll<Self::Item>)
        ensures
            match *old(self) {
                AndThen::First(_, f) => {
                    &&& r is NotReady
                    &&& {
                        ||| *final(self) matches AndThen::First(_, f2) && f2 == f
                        ||| *final(self) matches AndThen::Second(g) && exists|x: Fut1::Item| #[trigger] f.ensures((x,), g)
                    }
                },
                AndThen::Second(_) => *final(self) is Second,
                AndThen::Done => false,
            },
    {
        match self {
            AndThen::Second(completed_future) => {
                let r = completed_future.poll();
                let ghost now = *self;
                proof {
                    let g = match *old(self) {
                        AndThen::Second(g) => g,
                        _ => arbitrary(),
                    };
                    let g2 = match now {
                        AndThen::Second(g2) => g2,
                        _ => arbitrary(),
                    };
                    assert(g.polls_to(&g2, r));
                }
                r
            },
            AndThen::First(future, _) => {
                let r1 = future.poll();
                let ghost mid = *self;
                let r = self.on_first(r1);
                proof {
                    let fut = match *old(self) {
                        AndThen::First(fut, _) => fut,
                        _ => arbitrary(),
                    };
                    let fut2 = match mid {
                        AndThen::First(fut2, _) => fut2,
                        _ => arbitrary(),
                    };
                    assert(fut.polls_to(&fut2, r1));
                }
                r
            },
            AndThen::Done => {
                proof {
                    assert(false);
                }
                Poll::NotReady
            },
        }
    }
}

// ---------------------------------------------------------------------------
// Runs
// ---------------------------------------------------------------------------

/// `states` and `answers` are a run of a future: polling `states[k]` answered
/// `answers[k]` and left `states[k + 1]`, for each poll of the run.
pub open spec fn is_run<F: Future>(states: Seq<F>, answers: Seq<Poll<F::Item>>) -> bool {
    &&& states.len() == answers.len() + 1
    &&& forall|k: int| 0 <= k < answers.len() ==> #[trigger] states[k].polls_to(&states[k + 1], answers[k])
}

/// Over any run of a join: it answers `Ready` at most once, on the last
/// poll of the run, and is `Done` after it; a child that has finished is
/// not polled again (it is no longer held) and its value is kept unchanged
/// until the join answers with it.
pub proof fn lemma_join_run<F: Future, G: Future>(
    states: Seq<Join<F, G>>,
    answers: Seq<Poll<(F::Item, G::Item)>>,
)
    requires
        is_run(states, answers),
    ensures
        forall|k: int|
            0 <= k < answers.len() && #[trigger] answers[k] is Ready ==> k == answers.len() - 1
                && states[k + 1] is Done,
        forall|k: int, l: int|
            0 <= k <= l < states.len() && #[trigger] states[k] is FirstDone && !(#[trigger] states[l] is Done)
                ==> states[l] is FirstDone && states[l]->FirstDone_0 == states[k]->FirstDone_0,
        forall|k: int, l: int|
            0 <= k <= l < states.len() && #[trigger] states[k] is SecondDone && !(#[trigger] states[l] is Done)
                ==> states[l] is SecondDone && states[l]->SecondDone_1 == states[k]->SecondDone_1,
        forall|k: int|
            0 <= k < answers.len() && #[trigger] states[k] is FirstDone && answers[k] is Ready
                ==> answers[k]->Ready_0.0 == states[k]->FirstDone_0,
        forall|k: int|
            0 <= k < answers.len() && #[trigger] states[k] is SecondDone && answers[k] is Ready
                ==> answers[k]->Ready_0.1 == states[k]->SecondDone_1,
{
    assert forall|k: int| 0 <= k < answers.len() && #[trigger] answers[k] is Ready implies k == answers.len() - 1
        && states[k + 1] is Done by {
        lemma_join_poll_ready(states[k], states[k + 1], answers[k]);
        if k + 1 < answers.len() {
            let m = k + 1;
            assert(states[m].polls_to(&states[m + 1], answers[m]));
        }
    }
    assert forall|k: int, l: int|
        0 <= k <= l < states.len() && #[trigger] states[k] is FirstDone && !(#[trigger] states[l] is Done)
            implies states[l] is FirstDone && states[l]->FirstDone_0 == states[k]->FirstDone_0 by {
        lemma_join_run_keeps_first(states, answers, k, l);
    }
    assert forall|k: int, l: int|
        0 <= k <= l < states.len() && #[trigger] states[k] is SecondDone && !(#[trigger] states[l] is Done)
            implies states[l] is SecondDone && states[l]->SecondDone_1 == states[k]->SecondDone_1 by {
        lemma_join_run_keeps_second(states, answers, k, l);
    }
    assert forall|k: int|
        0 <= k < answers.len() && #[trigger] states[k] is FirstDone && answers[k] is Ready
            implies answers[k]->Ready_0.0 == states[k]->FirstDone_0 by {
        assert(states[k].polls_to(&states[k + 1], answers[k]));
    }
    assert forall|k: int|
        0 <= k < answers.len() && #[trigger] states[k] is SecondDone && answers[k] is Ready
            implies answers[k]->Ready_0.1 == states[k]->SecondDone_1 by {
        assert(states[k].polls_to(&states[k + 1], answers[k]));
    }
}

/// A poll of a join that answers `Ready` leaves it `Done`, and a poll that
/// answers `NotReady` does not.
proof fn lemma_join_poll_ready<F: Future, G: Future>(
    s: Join<F, G>,
    after: Join<F, G>,
    r: Poll<(F::Item, G::Item)>,
)
    requires
        s.polls_to(&after, r),
    ensures
        r is Ready <==> after is Done,
{
}

proof fn lemma_join_run_keeps_first<F: Future, G: Future>(
    states: Seq<Join<F, G>>,
    answers: Seq<Poll<(F::Item, G::Item)>>,
    k: int,
    l: int,
)
    requires
        is_run(states, answers),
        0 <= k <= l < states.len(),
        states[k] is FirstDone,
        !(states[l] is Done),
    ensures
        states[l] is FirstDone && states[l]->FirstDone_0 == states[k]->FirstDone_0,
    decreases l - k,
{
    if k < l {
        assert(states[k].polls_to(&states[k + 1], answers[k]));
        if states[k + 1] is Done {
            if k + 1 < answers.len() {
                let m = k + 1;
                assert(states[m].polls_to(&states[m + 1], answers[m]));
            }
        } else {
            lemma_join_run_keeps_first(states, answers, k + 1, l);
        }
    }
}

proof fn lemma_join_run_keeps_second<F: Future, G: Future>(
    states: Seq<Join<F, G>>,
    answers: Seq<Poll<(F::Item, G::Item)>>,
    k: int,
    l: int,
)
    requires
        is_run(states, answers),
        0 <= k <= l < states.len(),
        states[k] is SecondDone,
        !(states[l] is Done),
    ensures
        states[l] is SecondDone && states[l]->SecondDone_1 == states[k]->SecondDone_1,
    decreases l - k,
{
    if k < l {
        assert(states[k].polls_to(&states[k + 1], answers[k]));
        if states[k + 1] is Done {
            if k + 1 < answers.len() {
                let m = k + 1;
                assert(states[m].polls_to(&states[m + 1], answers[m]));
            }
        } else {
            lemma_join_run_keeps_second(states, answers, k + 1, l);
        }
    }
}

/// Over any run of an `and_then`: while the first future runs the answers
/// are `NotReady` and the function is kept unused; it is called once, on the
/// value the first future was ready with, to make the second future; from
/// then on the second future runs, and the first never again.
pub proof fn lemma_and_then_run<Fut1, Fut2, Fun>(
    states: Seq<AndThen<Fut1, Fut2, Fun>>,
    answers: Seq<Poll<Fut2::Item>>,
)
    where
        Fut1: Future,
        Fut2: Future,
        Fun: FnOnce(Fut1::Item) -> Fut2 + Send,
    requires
        is_run(states, answers),
    ensures
        forall|k: int| 0 <= k < answers.len() && #[trigger] states[k] is First ==> answers[k] is NotReady,
        forall|k: int|
            0 <= k < answers.len() && #[trigger] states[k] is First && states[k + 1] is First
                ==> states[k + 1]->First_1 == states[k]->First_1,
        forall|k: int|
            0 <= k < answers.len() && #[trigger] states[k] is First && states[k + 1] is Second
                ==> exists|x: Fut1::Item| #[trigger] states[k]->First_1.ensures((x,), states[k + 1]->Second_0),
        forall|k: int, l: int|
            0 <= k <= l < states.len() && #[trigger] states[k] is Second ==> #[trigger] states[l] is Second,
{
    assert forall|k: int| 0 <= k < answers.len() && #[trigger] states[k] is First implies answers[k] is NotReady by {
        assert(states[k].polls_to(&states[k + 1], answers[k]));
    }
    assert forall|k: int|
        0 <= k < answers.len() && #[trigger] states[k] is First && states[k + 1] is First
            implies states[k + 1]->First_1 == states[k]->First_1 by {
        assert(states[k].polls_to(&states[k + 1], answers[k]));
    }
    assert forall|k: int|
        0 <= k < answers.len() && #[trigger] states[k] is First && states[k + 1] is Second
            implies exists|x: Fut1::Item| #[trigger] states[k]->First_1.ensures((x,), states[k + 1]->Second_0) by {
        assert(states[k].polls_to(&states[k + 1], answers[k]));
    }
    assert forall|k: int, l: int|
        0 <= k <= l < states.len() && #[trigger] states[k] is Second implies #[trigger] states[l] is Second by {
        lemma_and_then_run_stays_second(states, answers, k, l);
    }
}

proof fn lemma_and_then_run_stays_second<Fut1, Fut2, Fun>(
    states: Seq<AndThen<Fut1, Fut2, Fun>>,
    answers: Seq<Poll<Fut2::Item>>,
    k: int,
    l: int,
)
    where
        Fut1: Future,
        Fut2: Future,
        Fun: FnOnce(Fut1::Item) -> Fut2 + Send,
    requires
        is_run(states, answers),
        0 <= k <= l < states.len(),
        states[k] is Second,
    ensures
        states[l] is Second,
    decreases l - k,
{
    if k < l {
        assert(states[k].polls_to(&states[k + 1], answers[k]));
        lemma_and_then_run_stays_second(states, answers, k + 1, l);
    }
}

/// Along every run of `f0`, the answers of the first `n` polls are
/// `NotReady` but for the `n`-th, which is `Ready`: `f0` is ready on its
/// `n`-th poll.
pub open spec fn ready_on<F: Future>(f0: F, n: nat) -> bool {
    forall|st: Seq<F>, an: Seq<Poll<F::Item>>|
        #![trigger is_run(st, an), st[0]]
        is_run(st, an) && st[0] == f0 ==> forall|k: int|
            0 <= k < an.len() && k < n ==> (#[trigger] an[k] is Ready <==> k == n - 1)
}

/// One poll of a future that is ready on its `n`-th poll answers `Ready`
/// exactly when `n` is 1, and otherwise leaves a future ready on its
/// `(n - 1)`-th poll.
pub proof fn lemma_ready_on_step<F: Future>(f: F, n: nat, f2: F, r: Poll<F::Item>)
    requires
        ready_on(f, n),
        n >= 1,
        f.polls_to(&f2, r),
    ensures
        r is Ready <==> n == 1,
        n > 1 ==> ready_on(f2, (n - 1) as nat),
{
    let st = seq![f, f2];
    let an = seq![r];
    assert(st[0].polls_to(&st[1], an[0]));
    assert(is_run(st, an));
    assert(an[0] is Ready <==> 0 == n - 1);
    if n > 1 {
        assert forall|st2: Seq<F>, an2: Seq<Poll<F::Item>>|
            #![trigger is_run(st2, an2), st2[0]]
            is_run(st2, an2) && st2[0] == f2 implies forall|k: int|
                0 <= k < an2.len() && k < (n - 1) as nat ==> (#[trigger] an2[k] is Ready <==> k == (n - 1) as nat - 1) by {
            let st3 = seq![f] + st2;
            let an3 = seq![r] + an2;
            assert forall|k: int| 0 <= k < an3.len() implies #[trigger] st3[k].polls_to(&st3[k + 1], an3[k]) by {
                if k > 0 {
                    assert(st3[k] == st2[k - 1] && st3[k + 1] == st2[k] && an3[k] == an2[k - 1]);
                    assert(st2[k - 1].polls_to(&st2[k - 1 + 1], an2[k - 1]));
                }
            }
            assert(is_run(st3, an3));
            assert(st3[0] == f);
            assert forall|k: int| 0 <= k < an2.len() && k < (n - 1) as nat implies (#[trigger] an2[k] is Ready
                <==> k == (n - 1) as nat - 1) by {
                assert(an3[k + 1] == an2[k]);
                assert(an3[k + 1] is Ready <==> k + 1 == n - 1);
            }
        }
    }
}

/// Where a join has made `k` polls of a join of futures ready on their
/// `nf`-th and `ng`-th polls: the futures still running are ready on their
/// `(nf - k)`-th and `(ng - k)`-th polls.
pub open spec fn join_progress<F: Future, G: Future>(j: Join<F, G>, k: int, nf: int, ng: int) -> bool {
    match j {
        Join::BothRunning(f, g) => k < nf && k < ng && ready_on(f, (nf - k) as nat) && ready_on(
            g,
            (ng - k) as nat,
        ),
        Join::FirstDone(_, g) => nf <= k < ng && ready_on(g, (ng - k) as nat),
        Join::SecondDone(f, _) => ng <= k < nf && ready_on(f, (nf - k) as nat),
        Join::Done => false,
    }
}

/// The join of a future ready on its `nf`-th poll and one ready on its
/// `ng`-th poll answers `NotReady` until its poll number `max(nf, ng)`, which
/// answers `Ready`; no run of the join goes on past that poll.
pub proof fn lemma_join_ready_on<F: Future, G: Future>(
    states: Seq<Join<F, G>>,
    answers: Seq<Poll<(F::Item, G::Item)>>,
    nf: nat,
    ng: nat,
)
    requires
        is_run(states, answers),
        states[0] is BothRunning,
        nf >= 1,
        ng >= 1,
        ready_on(states[0]->BothRunning_0, nf),
        ready_on(states[0]->BothRunning_1, ng),
    ensures
        answers.len() <= if nf >= ng { nf } else { ng },
        forall|k: int|
            0 <= k < answers.len() ==> (#[trigger] answers[k] is Ready <==> k == (if nf >= ng {
                nf
            } else {
                ng
            }) - 1),
{
    lemma_join_progress(states, answers, nf as int, ng as int, 0);
}

proof fn lemma_join_progress<F: Future, G: Future>(
    states: Seq<Join<F, G>>,
    answers: Seq<Poll<(F::Item, G::Item)>>,
    nf: int,
    ng: int,
    k: int,
)
    requires
        is_run(states, answers),
        0 <= k <= answers.len(),
        join_progress(states[k], k, nf, ng),
    ensures
        answers.len() <= if nf >= ng { nf } else { ng },
        forall|m: int|
            k <= m < answers.len() ==> (#[trigger] answers[m] is Ready <==> m == (if nf >= ng {
                nf
            } else {
                ng
            }) - 1),
    decreases answers.len() - k,
{
    let top = if nf >= ng { nf } else { ng };
    if k < answers.len() {
        let j = states[k];
        let next = states[k + 1];
        let r = answers[k];
        assert(j.polls_to(&next, r));
        match j {
            Join::BothRunning(f, g) => {
                let (f2, g2, r1, r2) = choose|f2: F, g2: G, r1: Poll<F::Item>, r2: Poll<G::Item>|
                    #![trigger f.polls_to(&f2, r1), g.polls_to(&g2, r2)]
                    f.polls_to(&f2, r1) && g.polls_to(&g2, r2) && Join::<F, G>::both_step(
                        Join::BothRunning(f2, g2),
                        r1,
                        r2,
                        next,
                        r,
                    );
                lemma_ready_on_step(f, (nf - k) as nat, f2, r1);
                lemma_ready_on_step(g, (ng - k) as nat, g2, r2);
            },
            Join::FirstDone(a, g) => {
                let (g2, r2) = choose|g2: G, r2: Poll<G::Item>| #[trigger]
                    g.polls_to(&g2, r2) && Join::<F, G>::second_step(Join::FirstDone(a, g2), r2, next, r);
                lemma_ready_on_step(g, (ng - k) as nat, g2, r2);
            },
            Join::SecondDone(f, b) => {
                let (f2, r1) = choose|f2: F, r1: Poll<F::Item>| #[trigger]
                    f.polls_to(&f2, r1) && Join::<F, G>::first_step(Join::SecondDone(f2, b), r1, next, r);
                lemma_ready_on_step(f, (nf - k) as nat, f2, r1);
            },
            Join::Done => {},
        }
        if r is Ready {
            assert(next is Done);
            if k + 1 < answers.len() {
                let m = k + 1;
                assert(states[m].polls_to(&states[m + 1], answers[m]));
            }
            assert(k == top - 1);
        } else {
            assert(join_progress(next, k + 1, nf, ng));
            lemma_join_progress(states, answers, nf, ng, k + 1);
        }
    }
}


/// Some run of `f` answers `Ready(x)`: `f` may be ready with `x`.
pub open spec fn may_answer<F: Future>(f: F, x: F::Item) -> bool {
    exists|st: Seq<F>, an: Seq<Poll<F::Item>>|
        #![trigger is_run(st, an), st[0]]
        is_run(st, an) && st[0] == f && an.contains(Poll::Ready(x))
}

/// A future whose poll answers `Ready(x)` may be ready with `x`.
pub proof fn lemma_may_answer_now<F: Future>(f: F, f2: F, x: F::Item)
    requires
        f.polls_to(&f2, Poll::Ready(x)),
    ensures
        may_answer(f, x),
{
    let st = seq![f, f2];
    let an = seq![Poll::Ready(x)];
    assert(st[0].polls_to(&st[1], an[0]));
    assert(is_run(st, an));
    assert(an[0] == Poll::<F::Item>::Ready(x));
}

/// What a future may be ready with after one poll, it may be ready with
/// before it.
pub proof fn lemma_may_answer_step<F: Future>(f: F, f2: F, r: Poll<F::Item>, x: F::Item)
    requires
        f.polls_to(&f2, r),
        may_answer(f2, x),
    ensures
        may_answer(f, x),
{
    let (st, an) = choose|st: Seq<F>, an: Seq<Poll<F::Item>>|
        #![trigger is_run(st, an), st[0]]
        is_run(st, an) && st[0] == f2 && an.contains(Poll::Ready(x));
    let st3 = seq![f] + st;
    let an3 = seq![r] + an;
    assert forall|k: int| 0 <= k < an3.len() implies #[trigger] st3[k].polls_to(&st3[k + 1], an3[k]) by {
        if k > 0 {
            assert(st3[k] == st[k - 1] && st3[k + 1] == st[k] && an3[k] == an[k - 1]);
            assert(st[k - 1].polls_to(&st[k - 1 + 1], an[k - 1]));
        }
    }
    assert(is_run(st3, an3));
    let i = choose|i: int| 0 <= i < an.len() && an[i] == Poll::<F::Item>::Ready(x);
    assert(an3[i + 1] == an[i]);
    assert(st3[0] == f);
}

/// Where an `and_then` has made `k` polls, its first future being ready on
/// its `n`-th poll and every second future that the function makes ready on
/// its `m`-th: the future that runs now is ready on its `(n - k)`-th or
/// `(n + m - k)`-th poll.
pub open spec fn and_then_progress<Fut1, Fut2, Fun>(s: AndThen<Fut1, Fut2, Fun>, k: int, n: int, m: int) -> bool where
    Fut1: Future,
    Fut2: Future,
    Fun: FnOnce(Fut1::Item) -> Fut2 + Send,
 {
    match s {
        AndThen::First(fut, f) => {
            &&& k < n
            &&& ready_on(fut, (n - k) as nat)
            &&& forall|x: Fut1::Item, g: Fut2|
                #[trigger] f.ensures((x,), g) && may_answer(fut, x) ==> ready_on(g, m as nat)
        },
        AndThen::Second(g) => n <= k < n + m && ready_on(g, (n + m - k) as nat),
        AndThen::Done => false,
    }
}

/// An `and_then` of a future ready on its `n`-th poll, with a function that
/// makes, of each value the future may be ready with, a future ready on its
/// `m`-th poll, is ready on its `(n + m)`-th poll: it answers `NotReady` to
/// the polls before.
pub proof fn lemma_and_then_ready_on<Fut1, Fut2, Fun>(fut: Fut1, f: Fun, n: nat, m: nat)
    where
        Fut1: Future,
        Fut2: Future,
        Fun: FnOnce(Fut1::Item) -> Fut2 + Send,
    requires
        n >= 1,
        m >= 1,
        ready_on(fut, n),
        forall|x: Fut1::Item, g: Fut2| #[trigger] f.ensures((x,), g) && may_answer(fut, x) ==> ready_on(g, m),
    ensures
        ready_on(AndThen::<Fut1, Fut2, Fun>::First(fut, f), n + m),
{
    let a = AndThen::<Fut1, Fut2, Fun>::First(fut, f);
    assert forall|st: Seq<AndThen<Fut1, Fut2, Fun>>, an: Seq<Poll<Fut2::Item>>|
        #![trigger is_run(st, an), st[0]]
        is_run(st, an) && st[0] == a implies forall|k: int|
            0 <= k < an.len() && k < n + m ==> (#[trigger] an[k] is Ready <==> k == n + m - 1) by {
        lemma_and_then_progress(st, an, n as int, m as int, 0);
    }
}

proof fn lemma_and_then_progress<Fut1, Fut2, Fun>(
    states: Seq<AndThen<Fut1, Fut2, Fun>>,
    answers: Seq<Poll<Fut2::Item>>,
    n: int,
    m: int,
    k: int,
)
    where
        Fut1: Future,
        Fut2: Future,
        Fun: FnOnce(Fut1::Item) -> Fut2 + Send,
    requires
        is_run(states, answers),
        0 <= k <= answers.len(),
        m >= 1,
        and_then_progress(states[k], k, n, m),
    ensures
        forall|j: int| k <= j < answers.len() && j < n + m ==> (#[trigger] answers[j] is Ready <==> j == n + m - 1),
    decreases answers.len() - k,
{
    if k < answers.len() {
        let s = states[k];
        let next = states[k + 1];
        let r = answers[k];
        assert(s.polls_to(&next, r));
        match s {
            AndThen::First(fut, f) => {
                let (fut2, r1) = choose|fut2: Fut1, r1: Poll<Fut1::Item>| #[trigger]
                    fut.polls_to(&fut2, r1) && AndThen::<Fut1, Fut2, Fun>::first_step(
                        AndThen::First(fut2, f),
                        r1,
                        next,
                        r,
                    );
                lemma_ready_on_step(fut, (n - k) as nat, fut2, r1);
                match r1 {
                    Poll::Ready(x) => {
                        let g = next->Second_0;
                        assert(f.ensures((x,), g));
                        lemma_may_answer_now(fut, fut2, x);
                        assert(and_then_progress(next, k + 1, n, m));
                    },
                    Poll::NotReady => {
                        assert forall|x: Fut1::Item, g: Fut2|
                            #[trigger] f.ensures((x,), g) && may_answer(fut2, x) implies ready_on(g, m as nat) by {
                            lemma_may_answer_step(fut, fut2, r1, x);
                        }
                        assert(and_then_progress(next, k + 1, n, m));
                    },
                }
                lemma_and_then_progress(states, answers, n, m, k + 1);
            },
            AndThen::Second(g) => {
                let g2 = choose|g2: Fut2| #[trigger]
                    g.polls_to(&g2, r) && next == AndThen::<Fut1, Fut2, Fun>::Second(g2);
                lemma_ready_on_step(g, (n + m - k) as nat, g2, r);
                if r is NotReady {
                    assert(and_then_progress(next, k + 1, n, m));
                    lemma_and_then_progress(states, answers, n, m, k + 1);
                }
            },
            AndThen::Done => {},
        }
    }
}

} // verus!
