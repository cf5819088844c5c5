//! A vector of at most 65535 items.

use vstd::prelude::*;

use super::buffer::{Buffer, BufferReader, BufferWriter, Parts};

verus! {

/// A vector that keeps its length and its capacity in 16 bits each.
pub struct U16Vec<T> {
    buf: Buffer<T>,
    length: u16,
    capacity: u16,
}

impl<T> View for U16Vec<T> {
    type V = Seq<T>;

    /// The items in order.
    open spec fn view(&self) -> Seq<T> {
        self.parts().items()
    }
}

impl<T> U16Vec<T> {
    /// The invariant of the vector.
    pub open spec fn wf(&self) -> bool {
        self.parts().wf()
    }

    /// The number of items, in 16 bits.
    pub fn u16_len(&self) -> (len: u16)
        ensures
            len == self.parts().len,
    {
        self.length
    }

    /// An empty vector without capacity.
    pub fn new() -> (vector: Self)
        ensures
            vector.wf(),
            vector@ == Seq::<T>::empty(),
            vector.parts() == (Parts::<T> {
                slots: Seq::empty(),
                len: 0,
                cap: 0,
                limit: u16::MAX as usize,
            }),
    {
        let vector = U16Vec::<T> { buf: Buffer::new(0), capacity: 0, length: 0 };
        assert(vector.buf@ =~= Seq::<Option<T>>::empty());
        assert(vector@ =~= Seq::<T>::empty());
        vector
    }
}

impl<T> BufferReader<T> for U16Vec<T> {
    closed spec fn parts(&self) -> Parts<T> {
        Parts {
            slots: self.buf@,
            len: self.length as usize,
            cap: self.capacity as usize,
            limit: u16::MAX as usize,
        }
    }

    fn buf(&self) -> &Buffer<T> {
        &self.buf
    }

    fn len(&self) -> usize {
        self.length as usize
    }
}

impl<T> BufferWriter<T> for U16Vec<T> {
    fn cap(&self) -> usize {
        self.capacity as usize
    }

    fn set_cap(&mut self, size: usize) {
        self.capacity = size as u16
    }

    fn set_len(&mut self, size: usize) {
        self.length = size as u16
    }

    fn mut_buf(&mut self) -> &mut Buffer<T> {
        &mut self.buf
    }
}

} // verus!
