//! A buffer that grows at both ends, kept in pages of a fixed size.

use vstd::prelude::*;

verus! {

/// Calls `page_size::get`, the size in bytes of a memory page on this machine.
///
/// Trusted: nothing is claimed of the number.
#[verifier::external_body]
fn system_page_size() -> usize {
    page_size::get()
}

/// The most bytes that a page of the buffer takes.
pub const PAGE_BYTES: usize = 1024;

/// The number of items in a page of the buffer, for memory pages of
/// `page_bytes` bytes and items of `item_bytes` bytes: as many items as fit
/// into `PAGE_BYTES` bytes or into a memory page, whichever is less, and at
/// least one.
pub open spec fn spec_page_capacity(page_bytes: nat, item_bytes: nat) -> nat {
    let bytes = if page_bytes < PAGE_BYTES { page_bytes } else { PAGE_BYTES as nat };
    let size = if item_bytes == 0 { 1 } else { item_bytes };
    if bytes / size == 0 { 1 } else { bytes / size }
}

/// The number of items in a page of the buffer.
pub fn page_capacity(page_bytes: usize, item_bytes: usize) -> (items: usize)
    ensures
        items == spec_page_capacity(page_bytes as nat, item_bytes as nat),
        1 <= items <= PAGE_BYTES,
{
    let bytes = if page_bytes < PAGE_BYTES { page_bytes } else { PAGE_BYTES };
    let size = if item_bytes == 0 { 1 } else { item_bytes };
    let items = bytes / size;
    assert(items <= bytes) by (nonlinear_arith)
        requires
            items == bytes as int / size as int,
            size >= 1,
            bytes >= 0,
    ;
    if items == 0 { 1 } else { items }
}

/// One side of the buffer: its pages, oldest first.
type Pages<T> = Vec<Vec<Option<T>>>;

/// The slot at `offset` of a side whose pages hold `limit` slots each.
spec fn cell<T>(pages: Seq<Vec<Option<T>>>, limit: int, offset: int) -> Option<T> {
    pages[offset / limit]@[offset % limit]
}

/// Every page of the side holds `limit` slots.
spec fn paged<T>(pages: Seq<Vec<Option<T>>>, limit: int) -> bool {
    forall|p: int| 0 <= p < pages.len() ==> (#[trigger] pages[p])@.len() == limit
}

/// An offset below the capacity of a side lies in one of its pages, and two
/// offsets that share page and place are the same.
proof fn lemma_locate(offset: int, limit: int, pages: int)
    requires
        0 <= offset < pages * limit,
        1 <= limit,
    ensures
        0 <= offset / limit < pages,
        0 <= offset % limit < limit,
        offset == (offset / limit) * limit + offset % limit,
{
    vstd::arithmetic::div_mod::lemma_fundamental_div_mod(offset, limit);
    vstd::arithmetic::div_mod::lemma_mod_bound(offset, limit);
    let q = offset / limit;
    assert(q * limit == limit * q) by (nonlinear_arith);
    assert(0 <= q < pages) by (nonlinear_arith)
        requires
            0 <= offset < pages * limit,
            1 <= limit,
            offset == q * limit + offset % limit,
            0 <= offset % limit < limit,
    ;
}

/// A fresh page: `limit` empty slots.
fn new_page<T>(limit: usize) -> (page: Vec<Option<T>>)
    ensures
        page@.len() == limit,
        forall|o: int| 0 <= o < limit ==> (#[trigger] page@[o]) is None,
{
    let mut page: Vec<Option<T>> = Vec::with_capacity(limit);
    let mut filled: usize = 0;
    while filled < limit
        invariant
            filled <= limit,
            page@.len() == filled,
            forall|o: int| 0 <= o < filled ==> (#[trigger] page@[o]) is None,
        decreases limit - filled,
    {
        page.push(None);
        filled += 1;
    }
    page
}

/// Reads the slot at `offset`.
fn read<T>(pages: &Pages<T>, limit: usize, offset: usize) -> (item: Option<&T>)
    requires
        1 <= limit,
        paged(pages@, limit as int),
        offset < pages@.len() * limit,
    ensures
        item == match cell(pages@, limit as int, offset as int) {
            Some(t) => Some(&t),
            None => None,
        },
{
    proof {
        lemma_locate(offset as int, limit as int, pages@.len() as int);
    }
    pages[offset / limit][offset % limit].as_ref()
}

/// Fills the slot at `offset` with `item`; the other slots stay.
fn write<T>(pages: &mut Pages<T>, limit: usize, offset: usize, item: T)
    requires
        1 <= limit,
        paged(old(pages)@, limit as int),
        offset < old(pages)@.len() * limit,
    ensures
        paged(final(pages)@, limit as int),
        final(pages)@.len() == old(pages)@.len(),
        cell(final(pages)@, limit as int, offset as int) == Some(item),
        forall|other: int|
            0 <= other < old(pages)@.len() * limit && other != offset ==> cell(
                final(pages)@,
                limit as int,
                other,
            ) == cell(old(pages)@, limit as int, other),
{
    proof {
        lemma_locate(offset as int, limit as int, pages@.len() as int);
    }
    let p = offset / limit;
    let o = offset % limit;
    pages[p][o] = Some(item);
    proof {
        assert forall|other: int|
            0 <= other < old(pages)@.len() * limit && other != offset implies cell(
            pages@,
            limit as int,
            other,
        ) == cell(old(pages)@, limit as int, other) by {
            lemma_locate(other, limit as int, pages@.len() as int);
        }
    }
}

/// Empties the slot at `offset` and returns what it held; the other slots stay.
fn take<T>(pages: &mut Pages<T>, limit: usize, offset: usize) -> (item: Option<T>)
    requires
        1 <= limit,
        paged(old(pages)@, limit as int),
        offset < old(pages)@.len() * limit,
    ensures
        paged(final(pages)@, limit as int),
        final(pages)@.len() == old(pages)@.len(),
        item == cell(old(pages)@, limit as int, offset as int),
        forall|other: int|
            0 <= other < old(pages)@.len() * limit && other != offset ==> cell(
                final(pages)@,
                limit as int,
                other,
            ) == cell(old(pages)@, limit as int, other),
{
    proof {
        lemma_locate(offset as int, limit as int, pages@.len() as int);
    }
    let p = offset / limit;
    let o = offset % limit;
    let item = pages[p][o].take();
    proof {
        assert forall|other: int|
            0 <= other < old(pages)@.len() * limit && other != offset implies cell(
            pages@,
            limit as int,
            other,
        ) == cell(old(pages)@, limit as int, other) by {
            lemma_locate(other, limit as int, pages@.len() as int);
        }
    }
    item
}

/// A sequence of items that grows at both ends in constant amortized time.
///
/// The items sit at consecutive indices from `start_index()` up to, but not
/// including, `end_index()`. An index from zero up lies in the pages of the
/// positive side; a negative index `i` lies at offset `-i - 1` of the negative
/// side. A page is added only when an end crosses into it.
pub struct ArrayPageBuffer<T> {
    positive: Pages<T>,
    negative: Pages<T>,
    start: isize,
    end: isize,
    limit: usize,
}

impl<T> View for ArrayPageBuffer<T> {
    type V = Seq<T>;

    /// The items from left to right.
    closed spec fn view(&self) -> Seq<T> {
        Seq::new((self.end - self.start) as nat, |k: int| self.slot(self.start + k)->0)
    }
}

impl<T> ArrayPageBuffer<T> {
    /// The slot at index `i`.
    spec fn slot(&self, i: int) -> Option<T> {
        if i < 0 {
            cell(self.negative@, self.limit as int, -i - 1)
        } else {
            cell(self.positive@, self.limit as int, i)
        }
    }

    /// The invariant of the buffer: the ends are in order, the left end is not
    /// above zero, every page is whole, the pages cover both ends, and every
    /// slot between the ends is filled.
    pub closed spec fn wf(&self) -> bool {
        &&& 1 <= self.limit
        &&& self.start <= 0
        &&& self.start <= self.end
        &&& paged(self.positive@, self.limit as int)
        &&& paged(self.negative@, self.limit as int)
        &&& self.end <= self.positive@.len() * self.limit
        &&& -self.start <= self.negative@.len() * self.limit
        &&& forall|i: int| self.start <= i < self.end ==> (#[trigger] self.slot(i)) is Some
    }

    /// The index of the first item; never above zero.
    pub closed spec fn spec_start_index(&self) -> isize {
        self.start
    }

    /// The index of the first item; never above zero.
    #[verifier::when_used_as_spec(spec_start_index)]
    pub fn start_index(&self) -> (index: isize)
        ensures
            index == self.spec_start_index(),
    {
        self.start
    }

    /// The index after the last item.
    pub closed spec fn spec_end_index(&self) -> isize {
        self.end
    }

    /// The index after the last item.
    #[verifier::when_used_as_spec(spec_end_index)]
    pub fn end_index(&self) -> (index: isize)
        ensures
            index == self.spec_end_index(),
    {
        self.end
    }

    /// The number of items in a page.
    pub closed spec fn spec_limit(&self) -> usize {
        self.limit
    }

    /// The number of items in a page.
    #[verifier::when_used_as_spec(spec_limit)]
    pub fn limit(&self) -> (limit: usize)
        ensures
            limit == self.spec_limit(),
    {
        self.limit
    }

    /// The number of pages on the positive side.
    pub closed spec fn spec_positive_pages(&self) -> usize {
        self.positive.len()
    }

    /// The number of pages on the positive side.
    #[verifier::when_used_as_spec(spec_positive_pages)]
    pub fn positive_pages(&self) -> (pages: usize)
        ensures
            pages == self.spec_positive_pages(),
    {
        self.positive.len()
    }

    /// The number of pages on the negative side.
    pub closed spec fn spec_negative_pages(&self) -> usize {
        self.negative.len()
    }

    /// The number of pages on the negative side.
    #[verifier::when_used_as_spec(spec_negative_pages)]
    pub fn negative_pages(&self) -> (pages: usize)
        ensures
            pages == self.spec_negative_pages(),
    {
        self.negative.len()
    }

    /// The ends bound the items, the indices fit the machine, and the pages
    /// cover both ends.
    pub proof fn lemma_bounds(&self)
        requires
            self.wf(),
        ensures
            self@.len() == self.end_index() - self.start_index(),
            isize::MIN <= self.start_index() <= 0,
            self.start_index() <= self.end_index() <= isize::MAX,
            1 <= self.limit(),
            self.end_index() <= self.positive_pages() * self.limit(),
            -self.start_index() <= self.negative_pages() * self.limit(),
    {
    }

    /// An empty buffer, without pages, both ends at index zero. Its pages
    /// will hold as many items as `spec_page_capacity` says for the memory
    /// pages of this machine, whatever their size.
    pub fn new() -> (buffer: Self)
        ensures
            buffer.wf(),
            buffer@ == Seq::<T>::empty(),
            buffer.start_index() == 0,
            buffer.end_index() == 0,
            buffer.positive_pages() == 0,
            buffer.negative_pages() == 0,
            exists|page_bytes: nat|
                buffer.limit() == #[trigger] spec_page_capacity(
                    page_bytes,
                    vstd::layout::size_of::<T>(),
                ),
    {
        let limit = Self::page_limit();
        let buffer = ArrayPageBuffer::<T> {
            positive: Vec::new(),
            negative: Vec::new(),
            start: 0,
            end: 0,
            limit,
        };
        assert(buffer@ =~= Seq::<T>::empty());
        buffer
    }

    /// The number of items in a page for this item type on this machine.
    fn page_limit() -> (limit: usize)
        ensures
            1 <= limit <= PAGE_BYTES,
            exists|page_bytes: nat|
                limit == #[trigger] spec_page_capacity(page_bytes, vstd::layout::size_of::<T>()),
    {
        let page_bytes = system_page_size();
        let limit = page_capacity(page_bytes, core::mem::size_of::<T>());
        assert(limit == spec_page_capacity(page_bytes as nat, vstd::layout::size_of::<T>()));
        limit
    }

    /// The offset of index `i` in its side.
    fn offset(index: isize) -> (offset: usize)
        ensures
            offset == if index < 0 { -index - 1 } else { index as int },
    {
        if index < 0 {
            (-(index + 1)) as usize
        } else {
            index as usize
        }
    }

    /// The item at index `index`, where the index is one of an item.
    pub fn at(&self, index: isize) -> (item: Option<&T>)
        requires
            self.wf(),
        ensures
            item == if self.start_index() <= index < self.end_index() {
                Some(&self@[index - self.start_index()])
            } else {
                None
            },
    {
        if index < self.start || index >= self.end {
            return None;
        }
        assert(self.slot(index as int) is Some);
        let offset = Self::offset(index);
        if index < 0 {
            read(&self.negative, self.limit, offset)
        } else {
            read(&self.positive, self.limit, offset)
        }
    }

    /// The `index`-th item from the left, counted from zero.
    pub fn get(&self, index: usize) -> (item: Option<&T>)
        requires
            self.wf(),
        ensures
            item == if index < self@.len() {
                Some(&self@[index as int])
            } else {
                None
            },
    {
        if index >= self.len() {
            return None;
        }
        let index = (index as i128 + self.start as i128) as isize;
        self.at(index)
    }

    /// The number of items: the distance between the two ends.
    pub fn len(&self) -> (len: usize)
        requires
            self.wf(),
        ensures
            len == self@.len(),
            len == self.end_index() - self.start_index(),
    {
        (self.end as i128 - self.start as i128) as usize
    }

    /// Adds `item` at the right end. A page is added exactly when the right
    /// end stands at the capacity of the positive side.
    pub fn push(&mut self, item: T)
        requires
            old(self).wf(),
            old(self).end_index() < isize::MAX,
        ensures
            final(self).wf(),
            final(self)@ == old(self)@.push(item),
            final(self).start_index() == old(self).start_index(),
            final(self).end_index() == old(self).end_index() + 1,
            final(self).limit() == old(self).limit(),
            final(self).negative_pages() == old(self).negative_pages(),
            final(self).positive_pages() == old(self).positive_pages() + if old(self).end_index()
                == old(self).positive_pages() * old(self).limit() {
                1int
            } else {
                0int
            },
    {
        let limit = self.limit;
        let end = self.end;
        let ghost before = *self;

        if end >= 0 {
            proof {
                lemma_full(end as int, limit as int, self.positive@.len() as int);
            }
            if end as usize / limit >= self.positive.len() {
                let page = new_page(limit);
                self.positive.push(page);
                proof {
                    lemma_grown(old(self).positive@, self.positive@, limit as int);
                    assert forall|i: int| self.start <= i < self.end implies (#[trigger] self.slot(
                        i,
                    )) is Some by {
                        assert(before.slot(i) is Some);
                    }
                }
            }
            let ghost middle = *self;
            write(&mut self.positive, limit, end as usize, item);
            proof {
                assert forall|i: int| self.start <= i < self.end implies (#[trigger] self.slot(
                    i,
                )) is Some by {
                    assert(middle.slot(i) is Some);
                }
            }
        } else {
            let offset = Self::offset(end);
            let ghost middle = *self;
            write(&mut self.negative, limit, offset, item);
            proof {
                assert forall|i: int| self.start <= i < self.end implies (#[trigger] self.slot(
                    i,
                )) is Some by {
                    assert(middle.slot(i) is Some);
                }
            }
        }
        let ghost written = *self;
        self.end = end + 1;
        proof {
            assert forall|i: int| self.start <= i < self.end implies (#[trigger] self.slot(
                i,
            )) is Some by {
                assert(written.slot(i) == self.slot(i));
                if i < end {
                    assert(before.slot(i) is Some);
                }
            }
            assert(self@ =~= before@.push(item)) by {
                assert forall|k: int| 0 <= k < before@.len() implies self@[k] == before@[k] by {
                    assert(self.slot(self.start + k) == before.slot(before.start + k));
                }
            }
        }
    }

    /// Adds `item` at the left end. A page is added exactly when the left end
    /// stands at the capacity of the negative side.
    pub fn unshift(&mut self, item: T)
        requires
            old(self).wf(),
            old(self).start_index() > isize::MIN,
        ensures
            final(self).wf(),
            final(self)@ == seq![item] + old(self)@,
            final(self).start_index() == old(self).start_index() - 1,
            final(self).end_index() == old(self).end_index(),
            final(self).limit() == old(self).limit(),
            final(self).positive_pages() == old(self).positive_pages(),
            final(self).negative_pages() == old(self).negative_pages() + if -old(
                self,
            ).start_index() == old(self).negative_pages() * old(self).limit() {
                1int
            } else {
                0int
            },
    {
        let limit = self.limit;
        let start = self.start;
        let ghost before = *self;
        let offset = Self::offset(start - 1);

        proof {
            lemma_full(offset as int, limit as int, self.negative@.len() as int);
        }
        if offset / limit >= self.negative.len() {
            let page = new_page(limit);
            self.negative.push(page);
            proof {
                lemma_grown(old(self).negative@, self.negative@, limit as int);
                assert forall|i: int| self.start <= i < self.end implies (#[trigger] self.slot(
                    i,
                )) is Some by {
                    assert(before.slot(i) is Some);
                }
            }
        }
        let ghost middle = *self;
        write(&mut self.negative, limit, offset, item);
        let ghost written = *self;
        self.start = start - 1;
        proof {
            assert forall|i: int| self.start <= i < self.end implies (#[trigger] self.slot(
                i,
            )) is Some by {
                assert(written.slot(i) == self.slot(i));
                if start <= i {
                    assert(middle.slot(i) is Some);
                    assert(before.slot(i) is Some);
                }
            }
            assert(self@ =~= seq![item] + before@) by {
                assert forall|k: int| 1 <= k <= before@.len() implies self@[k] == before@[k
                    - 1] by {
                    assert(self.slot(self.start + k) == before.slot(before.start + (k - 1)));
                }
            }
        }
    }

    /// Moves the items of `source` to the front of this buffer, in the order
    /// they had, and leaves `source` empty.
    pub fn prepend(&mut self, source: &mut Self)
        requires
            old(self).wf(),
            old(source).wf(),
            old(self).start_index() - old(source)@.len() >= isize::MIN,
        ensures
            final(self).wf(),
            final(source).wf(),
            final(self)@ == old(source)@ + old(self)@,
            final(source)@ == Seq::<T>::empty(),
            final(self).start_index() == old(self).start_index() - old(source)@.len(),
            final(self).end_index() == old(self).end_index(),
            final(source).start_index() == old(source).start_index(),
            final(source).end_index() == old(source).start_index(),
            final(self).limit() == old(self).limit(),
            final(self).positive_pages() == old(self).positive_pages(),
            final(self).negative_pages() == if old(self).negative_pages() >= pages_for(
                -final(self).start_index(),
                old(self).limit() as int,
            ) {
                old(self).negative_pages() as int
            } else {
                pages_for(-final(self).start_index(), old(self).limit() as int)
            },
            final(source).limit() == old(source).limit(),
            final(source).positive_pages() == old(source).positive_pages(),
            final(source).negative_pages() == old(source).negative_pages(),
    {
        let ghost target = self@;
        let ghost items = source@;
        proof {
            source.lemma_bounds();
            self.lemma_bounds();
            lemma_pages(
                -self.start_index(),
                self.limit() as int,
                self.negative_pages() as int,
            );
        }
        loop
            invariant
                self.wf(),
                source.wf(),
                self.limit() == old(self).limit(),
                self.positive_pages() == old(self).positive_pages(),
                self.negative_pages() == if old(self).negative_pages() >= pages_for(
                    -self.start_index(),
                    old(self).limit() as int,
                ) {
                    old(self).negative_pages() as int
                } else {
                    pages_for(-self.start_index(), old(self).limit() as int)
                },
                source.limit() == old(source).limit(),
                source.positive_pages() == old(source).positive_pages(),
                source.negative_pages() == old(source).negative_pages(),
                source@.len() <= items.len(),
                source@ == items.take(source@.len() as int),
                self@ == items.skip(source@.len() as int) + target,
                self.start_index() == old(self).start_index() - (items.len() - source@.len()),
                self.end_index() == old(self).end_index(),
                source.start_index() == old(source).start_index(),
                old(self).start_index() - items.len() >= isize::MIN,
            ensures
                self.wf(),
                source.wf(),
                self.limit() == old(self).limit(),
                self.positive_pages() == old(self).positive_pages(),
                self.negative_pages() == if old(self).negative_pages() >= pages_for(
                    -self.start_index(),
                    old(self).limit() as int,
                ) {
                    old(self).negative_pages() as int
                } else {
                    pages_for(-self.start_index(), old(self).limit() as int)
                },
                source.limit() == old(source).limit(),
                source.positive_pages() == old(source).positive_pages(),
                source.negative_pages() == old(source).negative_pages(),
                source@.len() == 0,
                self@ == items + target,
                self.start_index() == old(self).start_index() - items.len(),
                self.end_index() == old(self).end_index(),
                source.start_index() == old(source).start_index(),
                source.end_index() == old(source).start_index(),
            decreases source@.len(),
        {
            let ghost moved = source@.len();
            let ghost front = self@;
            proof {
                self.lemma_bounds();
                lemma_pages(
                    -self.start_index(),
                    self.limit() as int,
                    self.negative_pages() as int,
                );
            }
            match source.pop() {
                Some(elem) => {
                    self.unshift(elem);
                    proof {
                        assert(source@ =~= items.take(source@.len() as int));
                        assert(self@ =~= items.skip(source@.len() as int) + target) by {
                            assert(elem == items[moved - 1]);
                            assert(self@ == seq![elem] + front);
                        }
                    }
                },
                None => {
                    proof {
                        source.lemma_bounds();
                        assert(items.skip(0) =~= items);
                    }
                    break ;
                },
            }
        }
    }

    /// Removes the item at the right end and returns it; `None` where the
    /// buffer is empty. No page is given up.
    pub fn pop(&mut self) -> (item: Option<T>)
        requires
            old(self).wf(),
        ensures
            final(self).wf(),
            item == if old(self)@.len() == 0 {
                None
            } else {
                Some(old(self)@.last())
            },
            final(self)@ == if old(self)@.len() == 0 {
                old(self)@
            } else {
                old(self)@.drop_last()
            },
            final(self).start_index() == old(self).start_index(),
            final(self).end_index() == old(self).end_index() - if old(self)@.len() == 0 {
                0int
            } else {
                1int
            },
            final(self).limit() == old(self).limit(),
            final(self).positive_pages() == old(self).positive_pages(),
            final(self).negative_pages() == old(self).negative_pages(),
    {
        if self.len() == 0 {
            return None;
        }
        let limit = self.limit;
        let ghost before = *self;
        let end = self.end - 1;
        self.end = end;
        assert(before.slot(end as int) is Some);
        let offset = Self::offset(end);
        let item = if end < 0 {
            take(&mut self.negative, limit, offset)
        } else {
            take(&mut self.positive, limit, offset)
        };
        proof {
            assert forall|i: int| self.start <= i < self.end implies (#[trigger] self.slot(
                i,
            )) is Some by {
                assert(before.slot(i) is Some);
            }
            assert(self@ =~= before@.drop_last()) by {
                assert forall|k: int| 0 <= k < before@.len() - 1 implies self@[k] == before@[k] by {
                    assert(self.slot(self.start + k) == before.slot(before.start + k));
                }
            }
        }
        item
    }

    /// A cursor over the items, which can be read from both ends.
    pub fn iter<'a>(&'a self) -> (cursor: ArrayPageIterator<'a, T>)
        requires
            self.wf(),
        ensures
            cursor.wf(),
            cursor.remaining() == self@,
    {
        let cursor = ArrayPageIterator { buffer: self, start: self.start, end: self.end };
        assert(cursor.remaining() =~= self@);
        cursor
    }
}

/// A cursor over the items of a buffer: it hands them out from the left with
/// `next` and from the right with `next_back`, each item once.
pub struct ArrayPageIterator<'a, T> {
    buffer: &'a ArrayPageBuffer<T>,
    start: isize,
    end: isize,
}

impl<'a, T> ArrayPageIterator<'a, T> {
    /// The cursor lies within its buffer.
    pub closed spec fn wf(&self) -> bool {
        &&& self.buffer.wf()
        &&& self.buffer.start <= self.start <= self.end <= self.buffer.end
    }

    /// The items not handed out yet, from left to right.
    pub closed spec fn remaining(&self) -> Seq<T> {
        self.buffer@.subrange(self.start - self.buffer.start, self.end - self.buffer.start)
    }

    /// Hands out the leftmost of the remaining items.
    pub fn next(&mut self) -> (item: Option<&'a T>)
        requires
            old(self).wf(),
        ensures
            final(self).wf(),
            item == if old(self).remaining().len() == 0 {
                None
            } else {
                Some(&old(self).remaining().first())
            },
            final(self).remaining() == if old(self).remaining().len() == 0 {
                old(self).remaining()
            } else {
                old(self).remaining().drop_first()
            },
    {
        if self.start >= self.end {
            return None;
        }
        let item = self.buffer.at(self.start);
        self.start += 1;
        assert(self.remaining() =~= old(self).remaining().drop_first());
        item
    }

    /// Hands out the rightmost of the remaining items.
    pub fn next_back(&mut self) -> (item: Option<&'a T>)
        requires
            old(self).wf(),
        ensures
            final(self).wf(),
            item == if old(self).remaining().len() == 0 {
                None
            } else {
                Some(&old(self).remaining().last())
            },
            final(self).remaining() == if old(self).remaining().len() == 0 {
                old(self).remaining()
            } else {
                old(self).remaining().drop_last()
            },
    {
        if self.start >= self.end {
            return None;
        }
        self.end -= 1;
        let item = self.buffer.at(self.end);
        assert(self.remaining() =~= old(self).remaining().drop_last());
        item
    }
}

/// The number of pages that `count` slots take, `limit` slots to a page.
pub open spec fn pages_for(count: int, limit: int) -> int {
    if count <= 0 {
        0
    } else {
        (count - 1) / limit + 1
    }
}

/// Pages that cover `count` slots are as many as the slots take, or more;
/// one slot more takes one page more exactly where the pages are full.
proof fn lemma_pages(count: int, limit: int, pages: int)
    requires
        0 <= count <= pages * limit,
        1 <= limit,
        0 <= pages,
    ensures
        pages_for(count, limit) <= pages,
        pages_for(count, limit) <= pages_for(count + 1, limit),
        count == pages * limit ==> pages_for(count + 1, limit) == pages + 1,
        count < pages * limit ==> pages_for(count + 1, limit) <= pages,
{
    if count > 0 {
        lemma_locate(count - 1, limit, pages);
        vstd::arithmetic::div_mod::lemma_div_is_ordered(count - 1, count, limit);
    }
    if count < pages * limit {
        lemma_locate(count, limit, pages);
    } else {
        vstd::arithmetic::div_mod::lemma_div_multiples_vanish(pages, limit);
        assert(pages * limit == limit * pages) by (nonlinear_arith);
    }
}

/// Where an end stands below the capacity of a side, its page exists; where
/// it stands at the capacity, the next page is the one that is missing.
proof fn lemma_full(end: int, limit: int, pages: int)
    requires
        0 <= end <= pages * limit,
        1 <= limit,
        0 <= pages,
    ensures
        end / limit >= pages <==> end == pages * limit,
        end < (pages + 1) * limit,
{
    assert((pages + 1) * limit == pages * limit + limit) by (nonlinear_arith);
    if end < pages * limit {
        lemma_locate(end, limit, pages);
    } else {
        vstd::arithmetic::div_mod::lemma_div_multiples_vanish(pages, limit);
        assert(pages * limit == limit * pages) by (nonlinear_arith);
    }
}

/// A page added at the end of a side leaves the slots of the side as they are.
proof fn lemma_grown<T>(before: Seq<Vec<Option<T>>>, after: Seq<Vec<Option<T>>>, limit: int)
    requires
        1 <= limit,
        paged(before, limit),
        after.len() == before.len() + 1,
        forall|p: int| 0 <= p < before.len() ==> after[p] == before[p],
        after.last()@.len() == limit,
    ensures
        paged(after, limit),
        forall|offset: int|
            0 <= offset < before.len() * limit ==> cell(after, limit, offset) == cell(
                before,
                limit,
                offset,
            ),
{
    assert forall|p: int| 0 <= p < after.len() implies (#[trigger] after[p])@.len() == limit by {
        if p < before.len() {
            assert(before[p]@.len() == limit);
        }
    }
    assert forall|offset: int| 0 <= offset < before.len() * limit implies cell(
        after,
        limit,
        offset,
    ) == cell(before, limit, offset) by {
        lemma_locate(offset, limit, before.len() as int);
        assert(after[offset / limit] == before[offset / limit]);
    }
}

/// One call on a buffer, as far as its items go.
pub enum Step<T> {
    Push(T),
    Unshift(T),
    Pop,
}

/// The items after one call: what `push`, `unshift` and `pop` promise.
pub open spec fn apply<T>(items: Seq<T>, step: Step<T>) -> Seq<T> {
    match step {
        Step::Push(item) => items.push(item),
        Step::Unshift(item) => seq![item] + items,
        Step::Pop => if items.len() == 0 {
            items
        } else {
            items.drop_last()
        },
    }
}

/// The items of a new buffer after the calls `steps`.
pub open spec fn replay<T>(steps: Seq<Step<T>>) -> Seq<T>
    decreases steps.len(),
{
    if steps.len() == 0 {
        Seq::empty()
    } else {
        apply(replay(steps.drop_last()), steps.last())
    }
}

/// The number of items that `steps` put in.
pub open spec fn inserted<T>(steps: Seq<Step<T>>) -> int
    decreases steps.len(),
{
    if steps.len() == 0 {
        0
    } else {
        inserted(steps.drop_last()) + if steps.last() is Pop {
            0int
        } else {
            1int
        }
    }
}

/// The number of items that `steps` took out: the calls of `pop` on a buffer
/// that was not empty.
pub open spec fn removed<T>(steps: Seq<Step<T>>) -> int
    decreases steps.len(),
{
    if steps.len() == 0 {
        0
    } else {
        removed(steps.drop_last()) + if steps.last() is Pop && replay(steps.drop_last()).len()
            > 0 {
            1int
        } else {
            0int
        }
    }
}

/// The items that `steps` pushed, in the order of the calls.
pub open spec fn pushed<T>(steps: Seq<Step<T>>) -> Seq<T>
    decreases steps.len(),
{
    if steps.len() == 0 {
        Seq::empty()
    } else {
        match steps.last() {
            Step::Push(item) => pushed(steps.drop_last()).push(item),
            _ => pushed(steps.drop_last()),
        }
    }
}

/// The items that `steps` unshifted, in the order of the calls.
pub open spec fn unshifted<T>(steps: Seq<Step<T>>) -> Seq<T>
    decreases steps.len(),
{
    if steps.len() == 0 {
        Seq::empty()
    } else {
        match steps.last() {
            Step::Unshift(item) => unshifted(steps.drop_last()).push(item),
            _ => unshifted(steps.drop_last()),
        }
    }
}

/// Whatever the calls, the buffer holds as many items as were put in and not
/// taken out.
pub proof fn lemma_replay_len<T>(steps: Seq<Step<T>>)
    ensures
        replay(steps).len() == inserted(steps) - removed(steps),
    decreases steps.len(),
{
    if steps.len() > 0 {
        lemma_replay_len(steps.drop_last());
    }
}

/// Where nothing is taken out, the items stand from left to right as they
/// went in: first what was unshifted, the latest first, then what was pushed,
/// the earliest first, however the calls were mixed.
pub proof fn lemma_replay_order<T>(steps: Seq<Step<T>>)
    requires
        forall|n: int| 0 <= n < steps.len() ==> !(#[trigger] steps[n] is Pop),
    ensures
        replay(steps).len() == unshifted(steps).len() + pushed(steps).len(),
        forall|k: int|
            0 <= k < replay(steps).len() ==> #[trigger] replay(steps)[k] == if k < unshifted(
                steps,
            ).len() {
                unshifted(steps)[unshifted(steps).len() - 1 - k]
            } else {
                pushed(steps)[k - unshifted(steps).len()]
            },
    decreases steps.len(),
{
    if steps.len() > 0 {
        let before = steps.drop_last();
        assert forall|n: int| 0 <= n < before.len() implies !(#[trigger] before[n] is Pop) by {
            assert(before[n] == steps[n]);
        }
        lemma_replay_order(before);
        assert(!(steps[steps.len() - 1] is Pop));
    }
}

} // verus!
