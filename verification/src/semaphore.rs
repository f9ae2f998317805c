//! The counting decision behind a semaphore.
use vstd::prelude::*;

verus! {

/// How many slots of a semaphore are taken, and how many may be taken at once.
///
/// This is the state that a blocking semaphore keeps behind its mutex: `wait`
/// takes a slot when one is free, `post` gives one back.
pub struct Semaphore {
    count: isize,
    max: isize,
}

impl Semaphore {
    /// Number of slots in use.
    pub closed spec fn count(&self) -> int {
        self.count as int
    }

    /// Number of slots that may be in use at the same time.
    pub closed spec fn max(&self) -> int {
        self.max as int
    }

    /// Between none and all of the slots are in use.
    pub open spec fn within_bounds(&self) -> bool {
        0 <= self.count() <= self.max()
    }

    /// The count and the limit are `isize` values.
    pub proof fn lemma_range(&self)
        ensures
            isize::MIN <= self.count() <= isize::MAX,
            isize::MIN <= self.max() <= isize::MAX,
    {
    }

    /// Number of slots in use.
    pub fn in_use(&self) -> (n: isize)
        ensures
            n == self.count(),
    {
        self.count
    }

    /// A semaphore that lets `max` holders in at once, with no slot taken.
    pub fn new(max: isize) -> (s: Self)
        ensures
            s.count() == 0,
            s.max() == max,
            max >= 0 ==> s.within_bounds(),
    {
        Semaphore { count: 0, max }
    }

    /// Takes a slot if one is free.
    ///
    /// Returns `false`, and changes nothing, while `max` slots or more are in use:
    /// the caller then has to wait for a `post` and ask again.
    pub fn wait(&mut self) -> (taken: bool)
        ensures
            taken == (old(self).count() < old(self).max()),
            final(self).max() == old(self).max(),
            taken ==> final(self).count() == old(self).count() + 1,
            !taken ==> final(self).count() == old(self).count(),
            old(self).count() <= old(self).max() ==> final(self).count() <= final(self).max(),
            old(self).within_bounds() ==> final(self).within_bounds(),
    {
        if self.count >= self.max {
            false
        } else {
            self.count = self.count + 1;
            true
        }
    }

    /// Gives a slot back.
    pub fn post(&mut self)
        requires
            old(self).count() > isize::MIN,
        ensures
            final(self).count() == old(self).count() - 1,
            final(self).max() == old(self).max(),
            old(self).within_bounds() && old(self).count() > 0 ==> final(self).within_bounds(),
    {
        self.count = self.count - 1;
    }
}

} // verus!
