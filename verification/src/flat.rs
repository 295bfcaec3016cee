//! Cursors over flat buffers, from which the data of a graph is loaded and
//! to which it is stored, one node after the other.

use vstd::prelude::*;
use vstd::slice::slice_subrange;

verus! {

/// A cursor into a flat buffer that data is loaded from.
pub struct FlatReader<A> {
    pub buffer: A,
    pub offset: usize,
}

/// A cursor into a flat buffer that data is stored to.
pub struct FlatWriter<A> {
    pub buffer: A,
    pub offset: usize,
}

impl<T> FlatReader<Vec<T>> {
    /// How many elements are left to read.
    pub fn remaining(&self) -> (n: usize)
        ensures
            n == if self.offset <= self.buffer@.len() {
                self.buffer@.len() - self.offset
            } else {
                0
            },
    {
        if self.offset <= self.buffer.len() {
            self.buffer.len() - self.offset
        } else {
            0
        }
    }

    /// The next `length` elements of the buffer; the cursor moves past
    /// them.
    pub fn read_buf(&mut self, length: usize) -> (window: &[T])
        requires
            old(self).offset + length <= old(self).buffer@.len(),
        ensures
            window@ == old(self).buffer@.subrange(old(self).offset as int, old(self).offset + length),
            final(self).buffer@ == old(self).buffer@,
            final(self).offset == old(self).offset + length,
    {
        let _total = self.buffer.len();
        let start = self.offset;
        let end = self.offset + length;
        self.offset = end;
        slice_subrange(self.buffer.as_slice(), start, end)
    }
}

impl<T> FlatWriter<Vec<T>> {
    /// How many elements are left to write.
    pub fn remaining(&self) -> (n: usize)
        ensures
            n == if self.offset <= self.buffer@.len() {
                self.buffer@.len() - self.offset
            } else {
                0
            },
    {
        if self.offset <= self.buffer.len() {
            self.buffer.len() - self.offset
        } else {
            0
        }
    }

    /// The next `length` elements of the buffer, to be written; the cursor
    /// moves past them. The buffer then holds what the caller leaves in
    /// the window, between what it held before and after it.
    pub fn write_buf(&mut self, length: usize) -> (window: &mut [T])
        requires
            old(self).offset + length <= old(self).buffer@.len(),
        ensures
            window@ == old(self).buffer@.subrange(old(self).offset as int, old(self).offset + length),
            final(self).buffer@ == old(self).buffer@.subrange(0, old(self).offset as int) + final(window)@ + old(
                self,
            ).buffer@.subrange(old(self).offset + length, old(self).buffer@.len() as int),
            final(self).offset == old(self).offset + length,
    {
        let _total = self.buffer.len();
        let start = self.offset;
        self.offset = start + length;
        let (_, rest) = self.buffer.as_mut_slice().split_at_mut(start);
        let (window, _) = rest.split_at_mut(length);
        window
    }
}

} // verus!
