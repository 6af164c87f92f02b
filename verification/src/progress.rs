//! Reports of how far a transfer has come.

use vstd::prelude::*;

verus! {

/// Someone who is told how far a transfer has come.
pub trait Progress: Sized {
    /// All reports so far. Every implementation that is verified has to say what
    /// they are: with the default, which says nothing, no report can meet its
    /// contract.
    open spec fn reported(&self) -> Seq<usize> {
        arbitrary()
    }

    /// The count can be reported. The default is for someone who takes any.
    open spec fn accepts(&self, done: usize) -> bool {
        true
    }

    /// What holds once the count was reported. The default is for someone who
    /// promises nothing of it.
    open spec fn takes(&self, done: usize) -> bool {
        true
    }

    /// Tells how many bytes are transferred.
    fn report(&mut self, done: usize)
        requires
            old(self).accepts(done),
        ensures
            final(self).reported() == old(self).reported().push(done),
            old(self).takes(done),
            forall|count: usize| #[trigger]
                final(self).accepts(count) == old(self).accepts(count),
            forall|count: usize| #[trigger]
                final(self).takes(count) == old(self).takes(count),
    ;
}

/// Keeps all reports.
#[derive(Debug)]
pub struct Reports {
    counts: Vec<usize>,
}

impl Reports {
    /// No reports yet.
    pub fn new() -> (reports: Self)
        ensures
            reports.reported() == Seq::<usize>::empty(),
    {
        Reports { counts: Vec::new() }
    }

    /// All reports so far.
    pub fn counts(&self) -> (counts: &Vec<usize>)
        ensures
            counts@ == self.reported(),
    {
        &self.counts
    }
}

impl Progress for Reports {
    closed spec fn reported(&self) -> Seq<usize> {
        self.counts@
    }

    fn report(&mut self, done: usize) {
        self.counts.push(done);
    }
}

/// Hands every report on to a function.
pub struct Callback<F: FnMut(usize)> {
    function: F,
    calls: Ghost<Seq<usize>>,
}

impl<F: FnMut(usize)> Callback<F> {
    /// Nothing was reported to this function yet.
    pub fn new(function: F) -> (callback: Self)
        ensures
            callback.reported() == Seq::<usize>::empty(),
            forall|done: usize| #[trigger]
                callback.accepts(done) == call_requires(function, (done,)),
            forall|done: usize| #[trigger]
                callback.takes(done) == call_ensures(function, (done,), ()),
    {
        Callback { function, calls: Ghost(Seq::empty()) }
    }
}

impl<F: FnMut(usize)> Progress for Callback<F> {
    closed spec fn reported(&self) -> Seq<usize> {
        self.calls@
    }

    closed spec fn accepts(&self, done: usize) -> bool {
        call_requires(self.function, (done,))
    }

    closed spec fn takes(&self, done: usize) -> bool {
        call_ensures(self.function, (done,), ())
    }

    fn report(&mut self, done: usize) {
        (self.function)(done);
        proof {
            self.calls@ = self.calls@.push(done);
        }
    }
}

} // verus!
