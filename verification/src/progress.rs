//! Counting state of a progress bar wrapped around an iterator.

use vstd::prelude::*;

verus! {

/// An iterator together with the number of items taken from it so far and, where known,
/// the total number of items.
pub struct Progress<I> {
    pub iter: I,
    pub current: usize,
    pub total: Option<usize>,
}

impl<I> Progress<I> {
    /// Wraps `iter`; nothing has been taken yet.
    pub fn new(iter: I, total: Option<usize>) -> (p: Self)
        ensures
            p.iter == iter,
            p.current == 0,
            p.total == total,
    {
        Progress { iter, current: 0, total }
    }

    /// Records that one more item was taken.
    pub fn count_item(&mut self)
        requires
            old(self).current < usize::MAX,
        ensures
            final(self).current == old(self).current + 1,
            final(self).iter == old(self).iter,
            final(self).total == old(self).total,
    {
        self.current = self.current + 1;
    }
}

} // verus!
