//! A small futures interface: values that are polled until they are ready,
//! and combinators that build larger ones from smaller ones.
use std::marker::PhantomData;
use vstd::prelude::*;

verus! {

/// The outcome of one poll.
#[derive(Debug)]
pub enum Poll<T> {
    Ready(T),
    NotReady,
}

/// A computation that produces an `Item` once polled to completion.
pub trait Future {
    type Item;

    fn poll(&mut self) -> Poll<Self::Item>;
}

/// A future that is ready at its first poll.
pub struct Immediate<T> {
    pub t: Option<T>,
}

/// A future whose first poll hands out `t`.
pub fn immediate<T>(t: T) -> (r: Immediate<T>)
    ensures
        r.t == Some(t),
{
    Immediate { t: Some(t) }
}

impl<T> Immediate<T> {
    /// The value, the first time; later polls find nothing left to hand out.
    pub fn take(&mut self) -> (r: Poll<T>)
        ensures
            final(self).t is None,
            match old(self).t {
                Some(t) => r == Poll::Ready(t),
                None => r is NotReady,
            },
    {
        match self.t.take() {
            Some(t) => Poll::Ready(t),
            None => Poll::NotReady,
        }
    }
}

impl<T> Future for Immediate<T> {
    type Item = T;

    fn poll(&mut self) -> Poll<T> {
        self.take()
    }
}

/// The state of a join of two futures: which of them have completed.
pub enum Join<F: Future, G: Future> {
    BothRunning(F, G),
    FirstDone(F::Item, G),
    SecondDone(F, G::Item),
    Done,
}

/// A future that completes with both results once both futures have.
pub fn join<F: Future, G: Future>(f: F, g: G) -> (r: Join<F, G>)
    ensures
        r == Join::<F, G>::BothRunning(f, g),
{
    Join::BothRunning(f, g)
}

impl<F: Future, G: Future> Join<F, G> {
    /// Polls the futures that are still running. The join is ready only
    /// when both have completed, and then moves to `Done`; once done it
    /// stays done and reports `NotReady`.
    pub fn poll_join(&mut self) -> (r: Poll<(F::Item, G::Item)>)
        ensures
            *old(self) is Done ==> *final(self) is Done && r is NotReady,
            r is Ready ==> *final(self) is Done,
            *final(self) is Done ==> r is Ready || *old(self) is Done,
    {
        let mut state = Join::Done;
        std::mem::swap(self, &mut state);
        let (next, out) = match state {
            Join::BothRunning(mut f, mut g) => match f.poll() {
                Poll::Ready(a) => match g.poll() {
                    Poll::Ready(b) => (Join::Done, Poll::Ready((a, b))),
                    Poll::NotReady => (Join::FirstDone(a, g), Poll::NotReady),
                },
                Poll::NotReady => match g.poll() {
                    Poll::Ready(b) => (Join::SecondDone(f, b), Poll::NotReady),
                    Poll::NotReady => (Join::BothRunning(f, g), Poll::NotReady),
                },
            },
            Join::FirstDone(a, mut g) => match g.poll() {
                Poll::Ready(b) => (Join::Done, Poll::Ready((a, b))),
                Poll::NotReady => (Join::FirstDone(a, g), Poll::NotReady),
            },
            Join::SecondDone(mut f, b) => match f.poll() {
                Poll::Ready(a) => (Join::Done, Poll::Ready((a, b))),
                Poll::NotReady => (Join::SecondDone(f, b), Poll::NotReady),
            },
            Join::Done => (Join::Done, Poll::NotReady),
        };
        *self = next;
        out
    }
}

impl<F: Future, G: Future> Future for Join<F, G> {
    type Item = (F::Item, G::Item);

    fn poll(&mut self) -> Poll<(F::Item, G::Item)> {
        self.poll_join()
    }
}

/// A future that applies a function to the result of another.
#[verifier::reject_recursive_types(T)]
pub struct Mapped<Fut: Future, Fun: FnOnce(Fut::Item) -> T, T> {
    fut: Option<Fut>,
    fun: Option<Fun>,
    out: PhantomData<T>,
}

impl<Fut: Future, Fun: FnOnce(Fut::Item) -> T, T> Mapped<Fut, Fun, T> {
    /// The function, while it has not been used, accepts every result.
    #[verifier::type_invariant]
    spec fn callable(self) -> bool {
        match self.fun {
            Some(f) => forall|a: Fut::Item| call_requires(f, (a,)),
            None => true,
        }
    }
}

/// A future that completes with `fun` applied to the result of `fut`;
/// `fun` accepts every result.
pub fn map<T, Fut: Future, Fun: FnOnce(Fut::Item) -> T>(fut: Fut, fun: Fun) -> (r: Mapped<Fut, Fun, T>)
    requires
        forall|a: Fut::Item| call_requires(fun, (a,)),
{
    Mapped { fut: Some(fut), fun: Some(fun), out: PhantomData }
}

impl<Fut: Future, Fun: FnOnce(Fut::Item) -> T, T> Future for Mapped<Fut, Fun, T> {
    type Item = T;

    fn poll(&mut self) -> Poll<T> {
        proof {
            use_type_invariant(&*self);
        }
        let mut slot: Option<Fut> = None;
        std::mem::swap(&mut slot, &mut self.fut);
        let polled = match slot {
            Some(mut fut) => {
                let p = fut.poll();
                let mut back = Some(fut);
                std::mem::swap(&mut back, &mut self.fut);
                p
            },
            None => Poll::NotReady,
        };
        match polled {
            Poll::NotReady => Poll::NotReady,
            Poll::Ready(a) => {
                let mut fun: Option<Fun> = None;
                std::mem::swap(&mut fun, &mut self.fun);
                match fun {
                    Some(f) => Poll::Ready(f(a)),
                    None => Poll::NotReady,
                }
            },
        }
    }
}

/// Which part of an `AndThen` is running.
#[verifier::reject_recursive_types(Fut2)]
enum Stage<Fut1: Future, Fut2: Future, Fun: FnOnce(Fut1::Item) -> Fut2> {
    First(Fut1, Fun),
    Second(Fut2),
    Done,
}

/// A future that runs a second future made from the result of a first one.
#[verifier::reject_recursive_types(Fut2)]
pub struct AndThen<Fut1: Future, Fut2: Future, Fun: FnOnce(Fut1::Item) -> Fut2> {
    stage: Stage<Fut1, Fut2, Fun>,
}

impl<Fut1: Future, Fut2: Future, Fun: FnOnce(Fut1::Item) -> Fut2> AndThen<Fut1, Fut2, Fun> {
    /// While the first future runs, the function accepts every result of it.
    #[verifier::type_invariant]
    spec fn callable(self) -> bool {
        match self.stage {
            Stage::First(_, f) => forall|a: Fut1::Item| call_requires(f, (a,)),
            _ => true,
        }
    }
}

/// A future that, once `fut` is ready, runs the future that `fun` makes of
/// its result; `fun` accepts every result.
pub fn and_then<Fut1: Future, Fut2: Future, Fun: FnOnce(Fut1::Item) -> Fut2>(fut: Fut1, fun: Fun) -> (r:
    AndThen<Fut1, Fut2, Fun>)
    requires
        forall|a: Fut1::Item| call_requires(fun, (a,)),
{
    AndThen { stage: Stage::First(fut, fun) }
}

impl<Fut1: Future, Fut2: Future, Fun: FnOnce(Fut1::Item) -> Fut2> Future for AndThen<Fut1, Fut2, Fun> {
    type Item = Fut2::Item;

    fn poll(&mut self) -> Poll<Fut2::Item> {
        proof {
            use_type_invariant(&*self);
        }
        let mut stage = Stage::Done;
        std::mem::swap(&mut stage, &mut self.stage);
        let (next, out) = match stage {
            Stage::First(mut first, fun) => match first.poll() {
                Poll::Ready(a) => {
                    let mut second = fun(a);
                    match second.poll() {
                        Poll::Ready(b) => (Stage::Done, Poll::Ready(b)),
                        Poll::NotReady => (Stage::Second(second), Poll::NotReady),
                    }
                },
                Poll::NotReady => (Stage::First(first, fun), Poll::NotReady),
            },
            Stage::Second(mut second) => match second.poll() {
                Poll::Ready(b) => (Stage::Done, Poll::Ready(b)),
                Poll::NotReady => (Stage::Second(second), Poll::NotReady),
            },
            Stage::Done => (Stage::Done, Poll::NotReady),
        };
        self.stage = next;
        out
    }
}

/// A future that counts how often it has been polled.
pub struct Counter<Fut> {
    pub fut: Fut,
    pub value: i32,
}

impl<Fut: Future> Counter<Fut> {
    /// Counts one poll (the count stops at `i32::MAX`) and polls the inner
    /// future.
    pub fn poll_counted(&mut self) -> (r: Poll<Fut::Item>)
        ensures
            final(self).value == if old(self).value < i32::MAX {
                old(self).value + 1
            } else {
                old(self).value as int
            },
    {
        if self.value < i32::MAX {
            self.value = self.value + 1;
        }
        self.fut.poll()
    }
}

impl<Fut: Future> Future for Counter<Fut> {
    type Item = Fut::Item;

    fn poll(&mut self) -> Poll<Fut::Item> {
        self.poll_counted()
    }
}

} // verus!
