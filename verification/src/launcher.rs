//! The start of single tests, one after the other.

use vstd::prelude::*;

verus! {

/// What starts the tests of a suite, and the tests that it has started so far.
///
/// The function that starts a test is held here alone, so a test is started by
/// [`Launcher::launch`] or not at all.
pub struct Launcher<T, F> {
    start: F,
    started: Ghost<Seq<T>>,
}

impl<T, F> Launcher<T, F> {
    /// The function that starts a test.
    pub closed spec fn start(self) -> F {
        self.start
    }

    /// The tests that have been started, in the order in which they were.
    pub closed spec fn started(self) -> Seq<T> {
        self.started@
    }

    /// A launcher that has started nothing yet.
    pub fn new(start: F) -> (launcher: Self)
        ensures
            launcher.start() == start,
            launcher.started() == Seq::<T>::empty(),
    {
        Launcher { start, started: Ghost(Seq::empty()) }
    }

    /// Starts a test on the executor.
    pub fn launch<U, E>(&mut self, executor: Option<&E>, test: T) -> (running: U) where
        F: Fn(Option<&E>, T) -> U,

        requires
            call_requires(old(self).start(), (executor, test)),
        ensures
            final(self).start() == old(self).start(),
            final(self).started() == old(self).started().push(test),
            call_ensures(old(self).start(), (executor, test), running),
    {
        self.started = Ghost(self.started@.push(test));
        (self.start)(executor, test)
    }
}

} // verus!
