use vstd::prelude::*;

verus! {

/// The error returned when a ring buffer has no free slot.
#[derive(Debug, PartialEq, Eq, Structural)]
pub enum Error {
    Full,
}

/// The slot that follows slot `i` in a ring of `n` slots.
pub fn next_index(i: usize, n: usize) -> (r: usize)
    requires
        i < n,
    ensures
        r == (i + 1) % (n as int),
        r < n,
        r == (if i + 1 == n { 0 } else { i + 1 }),
{
    proof {
        if i + 1 == n {
            vstd::arithmetic::div_mod::lemma_mod_self_0(n as int);
        } else {
            vstd::arithmetic::div_mod::lemma_small_mod((i + 1) as nat, n as nat);
        }
    }
    (i + 1) % n
}

/// Whether a ring of `n` slots with read position `head` and write position `tail` is full:
/// one slot always stays free, so it is full when the write position is just before the read
/// position.
pub fn is_full(head: usize, tail: usize, n: usize) -> (r: bool)
    requires
        tail < n,
    ensures
        r == ((tail + 1) % (n as int) == head),
        r == ((if tail + 1 == n { 0 } else { tail + 1 }) == head),
{
    next_index(tail, n) == head
}

/// Whether a ring with read position `head` and write position `tail` is empty.
pub fn is_empty(head: usize, tail: usize) -> (r: bool)
    ensures
        r == (head == tail),
{
    head == tail
}

/// The number of items between read position `head` and write position `tail` in a ring of
/// `n` slots.
pub open spec fn ring_count(head: int, tail: int, n: int) -> int {
    if head <= tail {
        tail - head
    } else {
        n - head + tail
    }
}

/// The slot that holds the item `j` places after read position `head` in a ring of `n`
/// slots.
pub open spec fn ring_slot(head: int, j: int, n: int) -> int {
    if head + j < n {
        head + j
    } else {
        head + j - n
    }
}

/// Whether slot `i` holds an item, for read position `head` and write position `tail`.
pub open spec fn ring_occupied(head: int, tail: int, i: int) -> bool {
    if head <= tail {
        head <= i < tail
    } else {
        i >= head || i < tail
    }
}

/// Enqueueing at the back and dequeueing from the front of a non-empty queue commute: the
/// front item comes out first either way, and the same queue is left.
pub proof fn law_fifo<T>(items: Seq<T>, item: T)
    requires
        items.len() > 0,
    ensures
        items.push(item)[0] == items[0],
        items.push(item).drop_first() == items.drop_first().push(item),
{
    assert(items.push(item).drop_first() =~= items.drop_first().push(item));
}

/// A first-in first-out queue in a ring of `N` slots, of which at most `N - 1` hold items.
///
/// Its view (`rb@`) is the sequence of queued items, oldest first. `head` is the slot read
/// next and `tail` the slot written next.
pub struct RingBuffer<T, const N: usize> {
    buffer: std::vec::Vec<Option<T>>,
    head: usize,
    tail: usize,
}

impl<T, const N: usize> View for RingBuffer<T, N> {
    type V = Seq<T>;

    closed spec fn view(&self) -> Seq<T> {
        Seq::new(
            ring_count(self.head as int, self.tail as int, N as int) as nat,
            |j: int| self.buffer@[ring_slot(self.head as int, j, N as int)]->Some_0,
        )
    }
}

impl<T, const N: usize> RingBuffer<T, N> {
    /// The slot read next.
    pub closed spec fn spec_head(&self) -> usize {
        self.head
    }

    /// The slot written next.
    pub closed spec fn spec_tail(&self) -> usize {
        self.tail
    }

    /// Well-formedness: `N` slots, positions inside the ring, and exactly the slots from
    /// `head` up to `tail` hold items.
    pub closed spec fn wf(&self) -> bool {
        &&& self.buffer@.len() == N
        &&& N == 0 ==> self.head == 0 && self.tail == 0
        &&& N > 0 ==> self.head < N && self.tail < N
        &&& forall|i: int|
            0 <= i < N ==> (#[trigger] self.buffer@[i] is Some <==> ring_occupied(
                self.head as int,
                self.tail as int,
                i,
            ))
    }

    /// What a well-formed ring buffer holds: the positions are inside the ring, at most
    /// `N - 1` items are queued, and their number is `ring_count` of the positions.
    pub proof fn lemma_wf(&self)
        requires
            self.wf(),
        ensures
            N > 0 ==> self.spec_head() < N && self.spec_tail() < N,
            N == 0 ==> self.spec_head() == 0 && self.spec_tail() == 0,
            self@.len() == ring_count(self.spec_head() as int, self.spec_tail() as int, N as int),
            N > 0 ==> self@.len() < N,
            N == 0 ==> self@.len() == 0,
    {
    }

    /// While the write position is not behind the read position, `len` is the number of
    /// queued items.
    pub proof fn law_len_counts_items(&self)
        requires
            self.wf(),
            self.spec_head() <= self.spec_tail(),
        ensures
            self.spec_tail() - self.spec_head() == self@.len(),
    {
    }

    /// What `len` measures, in every state: the larger position is the smaller one plus
    /// `len`. While the write position is not behind the read position, `len` is the number
    /// of queued items; once it has wrapped around behind it, `len` and the number of queued
    /// items add up to `N`.
    pub proof fn law_len(&self)
        requires
            self.wf(),
        ensures
            self.spec_head() <= self.spec_tail() ==> self.spec_tail() == self.spec_head()
                + self.spec_len(),
            self.spec_tail() <= self.spec_head() ==> self.spec_head() == self.spec_tail()
                + self.spec_len(),
            self.spec_head() <= self.spec_tail() ==> self.spec_len() == self@.len(),
            self.spec_tail() < self.spec_head() ==> self.spec_len() + self@.len() == N,
    {
    }

    /// An empty ring buffer, with both positions at slot 0.
    pub fn new() -> (rb: Self)
        ensures
            rb.wf(),
            rb@ == Seq::<T>::empty(),
            rb.spec_head() == 0,
            rb.spec_tail() == 0,
    {
        let mut buffer: std::vec::Vec<Option<T>> = std::vec::Vec::new();
        let mut i: usize = 0;
        while i < N
            invariant
                i <= N,
                buffer@.len() == i,
                forall|j: int| 0 <= j < i ==> #[trigger] buffer@[j] is None,
            decreases N - i,
        {
            buffer.push(None);
            i = i + 1;
        }
        let rb = RingBuffer { buffer, head: 0, tail: 0 };
        assert(rb@ =~= Seq::<T>::empty());
        rb
    }

    /// The number of slots `N`.
    pub fn capacity(&self) -> (c: usize)
        ensures
            c == N,
    {
        N
    }

    /// The slot read next.
    #[verifier::when_used_as_spec(spec_head)]
    pub fn head(&self) -> (h: usize)
        ensures
            h == self.spec_head(),
    {
        self.head
    }

    /// The slot written next.
    #[verifier::when_used_as_spec(spec_tail)]
    pub fn tail(&self) -> (t: usize)
        ensures
            t == self.spec_tail(),
    {
        self.tail
    }

    /// Appends `item` at the back, or reports `Full` and leaves the buffer unchanged when
    /// `N - 1` items are queued already.
    pub fn enqueue(&mut self, item: T) -> (r: Result<(), Error>)
        requires
            old(self).wf(),
            N > 0,
        ensures
            final(self).wf(),
            r is Ok <==> old(self)@.len() < N - 1,
            r is Ok ==> final(self)@ == old(self)@.push(item) && final(self).spec_head()
                == old(self).spec_head() && final(self).spec_tail() == (old(self).spec_tail() + 1)
                % (N as int),
            r is Err ==> r == Err::<(), Error>(Error::Full) && final(self)@ == old(self)@
                && final(self).spec_head() == old(self).spec_head() && final(self).spec_tail()
                == old(self).spec_tail(),
    {
        let head = self.head;
        let tail = self.tail;
        if is_full(head, tail, N) {
            return Err(Error::Full);
        }
        let ghost before = self@;
        self.buffer[tail] = Some(item);
        self.tail = next_index(tail, N);
        assert(self@ =~= before.push(item));
        Ok(())
    }

    /// Removes and returns the item at the front, if any.
    pub fn dequeue(&mut self) -> (r: Option<T>)
        requires
            old(self).wf(),
        ensures
            final(self).wf(),
            old(self)@.len() == 0 ==> r is None && final(self)@ == old(self)@
                && final(self).spec_head() == old(self).spec_head() && final(self).spec_tail()
                == old(self).spec_tail(),
            old(self)@.len() > 0 ==> r == Some(old(self)@[0]) && final(self)@ == old(
                self,
            )@.drop_first() && final(self).spec_head() == (old(self).spec_head() + 1) % (
            N as int) && final(self).spec_tail() == old(self).spec_tail(),
    {
        let head = self.head;
        let tail = self.tail;
        if is_empty(head, tail) {
            return None;
        }
        let ghost before = self@;
        let item = self.buffer[head].take();
        self.head = next_index(head, N);
        assert(self@ =~= before.drop_first());
        item
    }

    /// The distance between the two positions: `head - tail` or `tail - head`, whichever is
    /// not negative.
    pub open spec fn spec_len(&self) -> usize {
        if self.spec_head() >= self.spec_tail() {
            (self.spec_head() - self.spec_tail()) as usize
        } else {
            (self.spec_tail() - self.spec_head()) as usize
        }
    }

    /// The distance between the two positions (`spec_len`). While the write position has not
    /// wrapped around past the read position, this is the number of queued items.
    #[verifier::when_used_as_spec(spec_len)]
    pub fn len(&self) -> (l: usize)
        ensures
            l == self.spec_len(),
            self.spec_head() <= self.spec_tail() ==> self.spec_tail() == self.spec_head() + l,
            self.spec_tail() <= self.spec_head() ==> self.spec_head() == self.spec_tail() + l,
    {
        if self.head >= self.tail {
            self.head - self.tail
        } else {
            self.tail - self.head
        }
    }

    /// An iterator over the queued items, front first.
    pub fn iter(&self) -> (it: Iter<'_, T, N>)
        requires
            self.wf(),
        ensures
            it.wf(),
            it.ring() == *self,
            it.index() == 0,
            it.len() == self.spec_len(),
    {
        Iter { rb: self, index: 0, len: self.len() }
    }

    /// A mutable iterator over the queued items, front first.
    pub fn iter_mut(&mut self) -> (it: IterMut<'_, T, N>)
        requires
            old(self).wf(),
        ensures
            it.wf(),
            *it.rb == *old(self),
            it.index == 0,
            it.len == old(self).spec_len(),
            *final(self) == *final(it.rb),
    {
        let len = self.len();
        IterMut { rb: self, index: 0, len }
    }
}

/// An iterator over the items of a `RingBuffer`.
///
/// It hands out the slots `head`, `head + 1`, ... for as many steps as `len` gives, without
/// wrapping around the end of the ring; a step that would pass the last slot is ruled out by
/// `next`'s precondition.
pub struct Iter<'a, T, const N: usize> {
    rb: &'a RingBuffer<T, N>,
    index: usize,
    len: usize,
}

impl<'a, T, const N: usize> Iter<'a, T, N> {
    /// The ring buffer iterated over.
    pub closed spec fn ring(&self) -> RingBuffer<T, N> {
        *self.rb
    }

    /// How many items have been handed out.
    pub closed spec fn index(&self) -> int {
        self.index as int
    }

    /// The count of handed-out items is never negative.
    pub proof fn lemma_index(&self)
        ensures
            0 <= self.index(),
    {
    }

    /// How many items are handed out in all (the ring buffer's `len`).
    pub closed spec fn len(&self) -> int {
        self.len as int
    }

    /// Well-formedness: the ring buffer is well-formed and `len` is its `len`.
    pub closed spec fn wf(&self) -> bool {
        &&& self.rb.wf()
        &&& self.len == self.rb.spec_len()
    }

    /// What a well-formed iterator knows: its ring buffer is well-formed, and it hands out
    /// as many items as the ring buffer's `len`.
    pub proof fn lemma_wf(&self)
        requires
            self.wf(),
        ensures
            self.ring().wf(),
            self.len() == self.ring().spec_len(),
            0 <= self.index(),
    {
    }

    /// While the write position is not behind the read position, the iterator hands out
    /// exactly the queued items, front first: `len` is their number, and the slots
    /// `head .. head + len` lie inside the ring, so `next` may take every step.
    pub proof fn law_iter_yields_items(&self)
        requires
            self.wf(),
            self.ring().spec_head() <= self.ring().spec_tail(),
        ensures
            self.len() == self.ring()@.len(),
            self.ring().spec_head() + self.len() <= N,
    {
    }

    /// The next item.
    pub fn next(&mut self) -> (r: Option<&'a T>)
        requires
            old(self).wf(),
            old(self).index() < old(self).len() ==> old(self).ring().spec_head() + old(self).index()
                < N,
        ensures
            final(self).wf(),
            final(self).ring() == old(self).ring(),
            final(self).len() == old(self).len(),
            old(self).index() < old(self).len() ==> r is Some && *r->0 == old(self).ring()@[old(
                self,
            ).index()] && final(self).index() == (old(self).index() + 1) % (N as int),
            old(self).index() >= old(self).len() ==> r is None && final(self).index() == old(
                self,
            ).index(),
    {
        if self.index < self.len {
            let pos = self.rb.head + self.index;
            self.index = (self.index + 1) % N;
            match self.rb.buffer[pos].as_ref() {
                Some(item) => Some(item),
                None => {
                    assert(false);
                    None
                },
            }
        } else {
            None
        }
    }
}

/// A mutable iterator over the items of a `RingBuffer`: each step hands out a mutable
/// reference to the next item, under the same rule as `Iter`.
///
/// The fields are public because the contracts of `RingBuffer::iter_mut` and `next` speak of
/// the value that `rb` holds when the borrow ends.
pub struct IterMut<'a, T, const N: usize> {
    pub rb: &'a mut RingBuffer<T, N>,
    pub index: usize,
    pub len: usize,
}

impl<'a, T, const N: usize> IterMut<'a, T, N> {
    /// Well-formedness: the ring buffer is well-formed and `len` is its `len`.
    pub open spec fn wf(&self) -> bool {
        &&& self.rb.wf()
        &&& self.len == self.rb.spec_len()
    }

    /// The next item, as a mutable reference.
    pub fn next(&mut self) -> (r: Option<&mut T>)
        requires
            old(self).wf(),
            old(self).index < old(self).len ==> old(self).rb.spec_head() + old(self).index < N,
        ensures
            *final(final(self).rb) == *final(old(self).rb),
            final(self).len == old(self).len,
            final(self).rb.spec_head() == old(self).rb.spec_head(),
            final(self).rb.spec_tail() == old(self).rb.spec_tail(),
            old(self).index < old(self).len ==> r is Some && *r->0 == old(self).rb@[old(
                self,
            ).index as int] && final(self).rb@ == old(self).rb@.update(
                old(self).index as int,
                *final(r->0),
            ) && final(self).index == (old(self).index + 1) % (N as int),
            old(self).index >= old(self).len ==> r is None && *final(self).rb == *old(self).rb
                && final(self).index == old(self).index,
            final(self).wf(),
    {
        if self.index < self.len {
            let pos = self.rb.head + self.index;
            self.index = (self.index + 1) % N;
            match self.rb.buffer[pos].as_mut() {
                Some(item) => Some(item),
                None => {
                    assert(false);
                    None
                },
            }
        } else {
            None
        }
    }
}

} // verus!
