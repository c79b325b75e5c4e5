//! A tally of the bytes that an allocator has handed out and not taken back.
use vstd::prelude::*;

verus! {

/// Counts bytes in use. The count wraps around at the limits of `usize`, as
/// an atomic counter does.
pub struct CountingAlloc {
    used: usize,
}

impl View for CountingAlloc {
    type V = usize;

    closed spec fn view(&self) -> usize {
        self.used
    }
}

/// The count after `size` more bytes are in use.
pub open spec fn after_alloc(used: usize, size: usize) -> usize {
    if used + size > usize::MAX {
        (used + size - usize::MAX - 1) as usize
    } else {
        (used + size) as usize
    }
}

/// The count after `size` bytes are given back.
pub open spec fn after_dealloc(used: usize, size: usize) -> usize {
    if used < size {
        (used + usize::MAX + 1 - size) as usize
    } else {
        (used - size) as usize
    }
}

impl CountingAlloc {
    /// A tally with nothing in use.
    pub fn new() -> (res: Self)
        ensures
            res@ == 0,
    {
        CountingAlloc { used: 0 }
    }

    /// The number of bytes in use.
    pub fn bytes_used(&self) -> (n: usize)
        ensures
            n == self@,
    {
        self.used
    }

    /// Records that `size` bytes were handed out.
    pub fn record_alloc(&mut self, size: usize)
        ensures
            final(self)@ == after_alloc(old(self)@, size),
    {
        self.used = self.used.wrapping_add(size);
    }

    /// Records that `size` bytes were given back.
    pub fn record_dealloc(&mut self, size: usize)
        ensures
            final(self)@ == after_dealloc(old(self)@, size),
    {
        self.used = self.used.wrapping_sub(size);
    }
}

/// Giving back what was just handed out restores the count, whatever the
/// count was and even where it wrapped in between.
pub proof fn law_dealloc_undoes_alloc(used: usize, size: usize)
    ensures
        after_dealloc(after_alloc(used, size), size) == used,
{
}

} // verus!
