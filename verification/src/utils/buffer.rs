//! Storage for vectors that keep their own length and capacity, and what
//! such a vector can do with it.

use vstd::prelude::*;

verus! {

/// A run of slots, each empty or filled with an item.
pub struct Buffer<T> {
    slots: Vec<Option<T>>,
}

impl<T> View for Buffer<T> {
    type V = Seq<Option<T>>;

    /// The slots in order.
    closed spec fn view(&self) -> Seq<Option<T>> {
        self.slots@
    }
}

/// `size` empty slots.
pub open spec fn blank<T>(size: nat) -> Seq<Option<T>> {
    Seq::new(size, |i: int| None::<T>)
}

/// The slots `slots` cut or filled up with empty slots to the number `to`.
pub open spec fn fitted<T>(slots: Seq<Option<T>>, to: nat) -> Seq<Option<T>> {
    Seq::new(
        to,
        |i: int|
            if i < slots.len() {
                slots[i]
            } else {
                None
            },
    )
}

/// The slots from the first up to place `len` are filled.
pub open spec fn filled<T>(slots: Seq<Option<T>>, len: int) -> bool {
    &&& 0 <= len <= slots.len()
    &&& forall|i: int| 0 <= i < len ==> (#[trigger] slots[i]) is Some
}

/// The items in the first `len` slots.
pub open spec fn items<T>(slots: Seq<Option<T>>, len: int) -> Seq<T> {
    Seq::new(len as nat, |i: int| slots[i]->0)
}

impl<T> Buffer<T> {
    /// A buffer of `size` empty slots.
    pub fn new(size: usize) -> (buffer: Self)
        ensures
            buffer@ == blank::<T>(size as nat),
    {
        let mut slots: Vec<Option<T>> = Vec::new();
        let mut made: usize = 0;
        while made < size
            invariant
                made <= size,
                slots@ == blank::<T>(made as nat),
            decreases size - made,
        {
            slots.push(None);
            made += 1;
            assert(slots@ =~= blank::<T>(made as nat));
        }
        Buffer { slots }
    }

    /// A buffer whose slots hold the items of `value`.
    pub fn from_vec(value: &Vec<T>) -> (buffer: Self) where T: Copy
        ensures
            buffer@.len() == value@.len(),
            filled(buffer@, value@.len() as int),
            items(buffer@, value@.len() as int) == value@,
    {
        let mut slots: Vec<Option<T>> = Vec::new();
        let mut copied: usize = 0;
        while copied < value.len()
            invariant
                copied <= value@.len(),
                slots@.len() == copied,
                forall|i: int| 0 <= i < copied ==> #[trigger] slots@[i] == Some(value@[i]),
            decreases value@.len() - copied,
        {
            slots.push(Some(value[copied]));
            copied += 1;
        }
        let buffer = Buffer { slots };
        assert(items(buffer@, value@.len() as int) =~= value@);
        buffer
    }

    /// The number of slots.
    pub fn size(&self) -> (size: usize)
        ensures
            size == self@.len(),
    {
        self.slots.len()
    }

    /// Cuts the buffer, or fills it up with empty slots, to `to` slots. The
    /// items in the slots that are cut are given up.
    pub fn resize(&mut self, to: usize)
        ensures
            final(self)@ == fitted(old(self)@, to as nat),
    {
        assert(self.slots@ =~= old(self)@.take(self.slots@.len() as int));
        while self.slots.len() > to
            invariant
                self.slots@.len() <= old(self)@.len(),
                self.slots@.len() == old(self)@.len() || self.slots@.len() >= to,
                self.slots@ == old(self)@.take(self.slots@.len() as int),
            decreases self.slots@.len(),
        {
            self.slots.pop();
            assert(self.slots@ =~= old(self)@.take(self.slots@.len() as int));
        }
        assert(self.slots@ =~= fitted(old(self)@, self.slots@.len()));
        while self.slots.len() < to
            invariant
                self.slots@.len() <= to,
                old(self)@.len() <= self.slots@.len() || self.slots@.len() == to,
                self.slots@ == fitted(old(self)@, self.slots@.len()),
            decreases to - self.slots@.len(),
        {
            self.slots.push(None);
            assert(self.slots@ =~= fitted(old(self)@, self.slots@.len()));
        }
    }

    /// Fills the slot at `index` with `elem`; what the slot held is given up.
    pub fn insert(&mut self, index: usize, elem: T)
        requires
            index < old(self)@.len(),
        ensures
            final(self)@ == old(self)@.update(index as int, Some(elem)),
    {
        self.slots[index] = Some(elem);
    }

    /// The item in the slot at `index`, if the slot is filled.
    pub fn at(&self, index: usize) -> (item: Option<&T>)
        requires
            index < self@.len(),
        ensures
            item == match self@[index as int] {
                Some(t) => Some(&t),
                None => None,
            },
    {
        self.slots[index].as_ref()
    }
}

/// What a vector is made of: the slots of its buffer, its length, its
/// capacity, and the greatest length and capacity that it can keep.
pub struct Parts<T> {
    pub slots: Seq<Option<T>>,
    pub len: usize,
    pub cap: usize,
    pub limit: usize,
}

impl<T> Parts<T> {
    /// The invariant of a vector: the buffer has as many slots as the
    /// capacity says, the items fill the first of them, and the capacity is
    /// within the limit.
    pub open spec fn wf(self) -> bool {
        &&& self.slots.len() == self.cap
        &&& self.cap <= self.limit
        &&& filled(self.slots, self.len as int)
    }

    /// The items of the vector.
    pub open spec fn items(self) -> Seq<T> {
        items(self.slots, self.len as int)
    }
}

/// A vector that can be read: it knows its length and its buffer.
pub trait BufferReader<T> {
    /// What the vector is made of.
    spec fn parts(&self) -> Parts<T>;

    /// The number of items.
    fn len(&self) -> (len: usize)
        ensures
            len == self.parts().len,
    ;

    /// The buffer that holds the items in its first slots.
    fn buf(&self) -> (buffer: &Buffer<T>)
        ensures
            buffer@ == self.parts().slots,
    ;

    /// The item at `index`, where there is one.
    fn at(&self, index: usize) -> (item: Option<&T>)
        requires
            self.parts().wf(),
        ensures
            item == if index < self.parts().len {
                Some(&self.parts().items()[index as int])
            } else {
                None
            },
    {
        if index >= self.len() {
            return None;
        }
        self.buf().at(index)
    }
}

/// A vector that can be written: it keeps its capacity in step with its
/// buffer, and its length within its capacity.
pub trait BufferWriter<T>: BufferReader<T> {
    /// The number of slots that the vector counts on.
    fn cap(&self) -> (cap: usize)
        ensures
            cap == self.parts().cap,
    ;

    /// Sets the capacity and nothing else.
    fn set_cap(&mut self, size: usize)
        requires
            size <= old(self).parts().limit,
        ensures
            final(self).parts() == (Parts { cap: size, ..old(self).parts() }),
    ;

    /// Sets the length and nothing else.
    fn set_len(&mut self, size: usize)
        requires
            size <= old(self).parts().limit,
        ensures
            final(self).parts() == (Parts { len: size, ..old(self).parts() }),
    ;

    /// The buffer, to be changed; length and capacity stay.
    fn mut_buf(&mut self) -> (buffer: &mut Buffer<T>)
        ensures
            buffer@ == old(self).parts().slots,
            final(self).parts() == (Parts { slots: final(buffer)@, ..old(self).parts() }),
    ;

    /// Takes the buffer out of the vector, with the items in it, and leaves
    /// the vector empty and without capacity.
    fn extract(&mut self) -> (buffer: Buffer<T>)
        requires
            old(self).parts().wf(),
        ensures
            buffer@ == old(self).parts().slots,
            final(self).parts() == (Parts::<T> {
                slots: Seq::empty(),
                len: 0,
                cap: 0,
                limit: old(self).parts().limit,
            }),
    {
        let mut buffer = Buffer::new(0);
        assert(buffer@ =~= Seq::<Option<T>>::empty());
        core::mem::swap(self.mut_buf(), &mut buffer);
        self.set_cap(0);
        self.set_len(0);
        buffer
    }

    /// Changes the capacity to `to`. Items that find no place any more are
    /// given up; the others stay.
    fn resize(&mut self, to: usize)
        requires
            old(self).parts().wf(),
            to != 0,
            to <= old(self).parts().limit,
        ensures
            final(self).parts().wf(),
            final(self).parts().limit == old(self).parts().limit,
            final(self).parts().cap == to,
            final(self).parts().len == if to < old(self).parts().len {
                to
            } else {
                old(self).parts().len
            },
            final(self).parts().items() == old(self).parts().items().take(
                final(self).parts().len as int,
            ),
    {
        let cap = self.cap();
        let len = self.len();

        if cap == to {
            assert(self.parts().items().take(len as int) =~= self.parts().items());
            return ;
        }
        self.mut_buf().resize(to);

        self.set_cap(to);

        if to < len {
            self.set_len(to);
        }
        assert(self.parts().items() =~= old(self).parts().items().take(self.parts().len as int));
    }

    /// Adds `elem` behind the items. Where the capacity is used up, it grows
    /// by the one slot that is needed.
    fn append(&mut self, elem: T)
        requires
            old(self).parts().wf(),
            old(self).parts().len < old(self).parts().limit,
        ensures
            final(self).parts().wf(),
            final(self).parts().limit == old(self).parts().limit,
            final(self).parts().items() == old(self).parts().items().push(elem),
            final(self).parts().len == old(self).parts().len + 1,
            final(self).parts().cap == if old(self).parts().len < old(self).parts().cap {
                old(self).parts().cap as int
            } else {
                old(self).parts().len + 1
            },
    {
        let index = self.len();
        let length = index + 1;

        if length > self.cap() {
            self.resize(length);
            assert(self.parts().items() =~= old(self).parts().items());
        }
        let ghost kept = self.parts().items();
        self.mut_buf().insert(index, elem);
        self.set_len(length);
        assert(self.parts().items() =~= kept.push(elem));
    }

    /// Adds the items of `source` behind the items. Where the capacity does
    /// not do, it grows to what is needed.
    fn concat<R: BufferReader<T>>(&mut self, source: &R) where T: Copy
        requires
            old(self).parts().wf(),
            source.parts().wf(),
            old(self).parts().len + source.parts().len <= old(self).parts().limit,
        ensures
            final(self).parts().wf(),
            final(self).parts().limit == old(self).parts().limit,
            final(self).parts().items() == old(self).parts().items() + source.parts().items(),
            final(self).parts().len == old(self).parts().len + source.parts().len,
            final(self).parts().cap == if old(self).parts().len + source.parts().len <= old(
                self,
            ).parts().cap {
                old(self).parts().cap as int
            } else {
                old(self).parts().len + source.parts().len
            },
    {
        let old_length = self.len();
        let count = source.len();
        let new_length = old_length + count;

        if new_length > self.cap() {
            self.resize(new_length);
            assert(self.parts().items() =~= old(self).parts().items());
        }
        let ghost given = source.parts().items();
        let ghost grown = self.parts();
        let mut copied: usize = 0;
        while copied < count
            invariant
                copied <= count,
                count == source.parts().len,
                old_length + count == new_length,
                source.parts().wf(),
                given == source.parts().items(),
                self.parts() == (Parts { slots: self.parts().slots, ..grown }),
                grown.len == old_length,
                new_length <= grown.cap <= grown.limit,
                self.parts().slots.len() == grown.cap,
                filled(self.parts().slots, old_length + copied),
                items(self.parts().slots, old_length + copied) == old(self).parts().items()
                    + given.take(copied as int),
            decreases count - copied,
        {
            let ghost before = self.parts().slots;
            match source.at(copied) {
                Some(item) => {
                    self.mut_buf().insert(old_length + copied, *item);
                },
                None => {},
            }
            copied += 1;
            assert(items(self.parts().slots, old_length + copied) =~= items(
                before,
                old_length + copied - 1,
            ).push(given[copied - 1]));
            assert(given.take(copied as int) =~= given.take(copied - 1).push(given[copied - 1]));
        }
        self.set_len(new_length);
        assert(given.take(count as int) =~= given);
    }
}

} // verus!
