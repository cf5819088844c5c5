//! Containers and small helpers.

use vstd::prelude::*;

use buffer::{fitted, Buffer};

pub mod array_page_buffer;
pub mod bit_array;
pub mod buffer;
pub mod u16vec;

verus! {

/// A vector of at most 65535 slots that grows by whole runs of empty slots,
/// which are filled afterwards, in any order.
pub struct SmallVec<T> {
    buf: Buffer<T>,
    len: u16,
}

impl<T> View for SmallVec<T> {
    type V = Seq<Option<T>>;

    /// The slots in order, each empty or filled.
    closed spec fn view(&self) -> Seq<Option<T>> {
        self.buf@
    }
}

impl<T> SmallVec<T> {
    /// The invariant of the vector: it knows the number of its slots.
    pub closed spec fn wf(&self) -> bool {
        self.buf@.len() == self.len
    }

    /// A vector without slots.
    pub fn new() -> (vector: SmallVec<T>)
        ensures
            vector.wf(),
            vector@ == Seq::<Option<T>>::empty(),
    {
        let vector = SmallVec { buf: Buffer::new(0), len: 0 };
        assert(vector.buf@ =~= Seq::<Option<T>>::empty());
        vector
    }

    /// The number of slots.
    pub fn len(&self) -> (len: usize)
        requires
            self.wf(),
        ensures
            len == self@.len(),
            len <= u16::MAX,
    {
        self.len as usize
    }

    /// The item in the slot at `index`, where there is such a slot and it is
    /// filled.
    pub fn at(&self, index: usize) -> (item: Option<&T>)
        requires
            self.wf(),
        ensures
            item == if index < self@.len() {
                match self@[index as int] {
                    Some(t) => Some(&t),
                    None => None,
                }
            } else {
                None
            },
    {
        if index >= self.len() {
            return None;
        }
        self.buf.at(index)
    }

    /// Adds `amount` empty slots at the end.
    pub fn grow(&mut self, amount: usize)
        requires
            old(self).wf(),
            old(self)@.len() + amount <= u16::MAX,
        ensures
            final(self).wf(),
            final(self)@ == fitted(old(self)@, (old(self)@.len() + amount) as nat),
    {
        let from: usize = self.len();
        let to: usize = amount + from;

        self.len = to as u16;
        self.buf.resize(to);
    }

    /// Fills the slot at `index` with `elem`; what the slot held is given up.
    pub fn insert(&mut self, index: usize, elem: T)
        requires
            old(self).wf(),
            index < old(self)@.len(),
        ensures
            final(self).wf(),
            final(self)@ == old(self)@.update(index as int, Some(elem)),
    {
        self.buf.insert(index, elem);
    }
}

} // verus!
