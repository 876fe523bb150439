use vstd::prelude::*;

use crate::Error;

verus! {

/// A vector that holds at most `N` elements.
///
/// Its contents are viewed as a sequence (`v@`); `wf` states the capacity bound.
#[derive(Debug)]
pub struct Vec<T, const N: usize> {
    data: std::vec::Vec<T>,
}

impl<T, const N: usize> View for Vec<T, N> {
    type V = Seq<T>;

    closed spec fn view(&self) -> Seq<T> {
        self.data@
    }
}

impl<T, const N: usize> Vec<T, N> {
    /// Well-formedness: the vector never holds more than `N` elements.
    pub closed spec fn wf(&self) -> bool {
        self.data@.len() <= N
    }

    /// A well-formed vector holds at most `N` elements.
    pub proof fn lemma_wf(&self)
        requires
            self.wf(),
        ensures
            self@.len() <= N,
    {
    }

    /// An empty vector.
    pub fn new() -> (v: Self)
        ensures
            v.wf(),
            v@ == Seq::<T>::empty(),
    {
        Vec { data: std::vec::Vec::new() }
    }

    /// The fixed capacity `N`.
    pub fn capacity(&self) -> (c: usize)
        ensures
            c == N,
    {
        N
    }

    /// The number of elements held.
    pub fn len(&self) -> (l: usize)
        ensures
            l == self@.len(),
    {
        self.data.len()
    }

    /// Whether no element is held.
    pub fn is_empty(&self) -> (b: bool)
        ensures
            b == (self@.len() == 0),
    {
        self.data.len() == 0
    }

    /// Appends `item`, or reports `Full` and leaves the vector unchanged when `N` elements
    /// are already held.
    pub fn push(&mut self, item: T) -> (r: Result<(), Error>)
        requires
            old(self).wf(),
        ensures
            final(self).wf(),
            r is Ok <==> old(self)@.len() < N,
            r is Ok ==> final(self)@ == old(self)@.push(item),
            r is Err ==> r == Err::<(), Error>(Error::Full) && final(self)@ == old(self)@,
    {
        if self.data.len() < N {
            self.data.push(item);
            Ok(())
        } else {
            Err(Error::Full)
        }
    }

    /// Removes and returns the last element, if any.
    pub fn pop(&mut self) -> (r: Option<T>)
        requires
            old(self).wf(),
        ensures
            final(self).wf(),
            old(self)@.len() == 0 ==> r is None && final(self)@ == old(self)@,
            old(self)@.len() > 0 ==> r == Some(old(self)@.last()) && final(self)@
                == old(self)@.drop_last(),
    {
        self.data.pop()
    }

    /// Removes every element.
    pub fn clear(&mut self)
        requires
            old(self).wf(),
        ensures
            final(self).wf(),
            final(self)@ == Seq::<T>::empty(),
    {
        self.data.clear()
    }

    /// Keeps the first `len` elements; does nothing when `len` is not below the length.
    pub fn truncate(&mut self, len: usize)
        requires
            old(self).wf(),
        ensures
            final(self).wf(),
            len < old(self)@.len() ==> final(self)@ == old(self)@.subrange(0, len as int),
            len >= old(self)@.len() ==> final(self)@ == old(self)@,
    {
        self.data.truncate(len)
    }

    /// Removes the element at `index` and returns it; the last element takes its place.
    pub fn swap_remove(&mut self, index: usize) -> (r: T)
        requires
            old(self).wf(),
            index < old(self)@.len(),
        ensures
            final(self).wf(),
            r == old(self)@[index as int],
            final(self)@ == old(self)@.update(index as int, old(self)@.last()).drop_last(),
    {
        self.data.swap_remove(index)
    }

    /// The element at `index`, if there is one.
    pub fn get(&self, index: usize) -> (r: Option<&T>)
        ensures
            index < self@.len() ==> r == Some(&self@[index as int]),
            index >= self@.len() ==> r is None,
    {
        if index < self.data.len() {
            Some(&self.data[index])
        } else {
            None
        }
    }

    /// A mutable reference to the element at `index`, if there is one.
    pub fn get_mut(&mut self, index: usize) -> (r: Option<&mut T>)
        requires
            old(self).wf(),
        ensures
            final(self).wf(),
            index < old(self)@.len() ==> r is Some && *r->0 == old(self)@[index as int]
                && final(self)@ == old(self)@.update(index as int, *final(r->0)),
            index >= old(self)@.len() ==> r is None && final(self)@ == old(self)@,
    {
        if index < self.data.len() {
            Some(&mut self.data[index])
        } else {
            None
        }
    }

    /// The elements as a slice.
    pub fn as_slice(&self) -> (s: &[T])
        ensures
            s@ == self@,
    {
        self.data.as_slice()
    }

    /// The elements as a mutable slice.
    pub fn as_mut_slice(&mut self) -> (s: &mut [T])
        requires
            old(self).wf(),
        ensures
            s@ == old(self)@,
            final(self)@ == final(s)@,
            final(s)@.len() == s@.len() ==> final(self).wf(),
    {
        self.data.as_mut_slice()
    }
}

impl<T: Copy, const N: usize> Vec<T, N> {
    /// Appends every element of `other`, or reports `Full` and leaves the vector unchanged
    /// when they do not all fit.
    pub fn extend_from_slice(&mut self, other: &[T]) -> (r: Result<(), Error>)
        requires
            old(self).wf(),
        ensures
            final(self).wf(),
            r is Ok <==> old(self)@.len() + other@.len() <= N,
            r is Ok ==> final(self)@ == old(self)@ + other@,
            r is Err ==> r == Err::<(), Error>(Error::Full) && final(self)@ == old(self)@,
    {
        if other.len() > N - self.data.len() {
            return Err(Error::Full);
        }
        let ghost start = self.data@;
        let mut i: usize = 0;
        while i < other.len()
            invariant
                i <= other@.len(),
                start.len() + other@.len() <= N,
                self.data@ == start + other@.subrange(0, i as int),
            decreases other@.len() - i,
        {
            self.data.push(other[i]);
            i = i + 1;
            assert(other@.subrange(0, i as int) == other@.subrange(0, i - 1).push(other@[i - 1]));
        }
        assert(other@.subrange(0, i as int) == other@);
        Ok(())
    }
}

/// Popping right after a push gives back the pushed element and the vector as it was.
pub proof fn law_pop_after_push<T>(s: Seq<T>, item: T)
    ensures
        s.push(item).len() > 0,
        s.push(item).last() == item,
        s.push(item).drop_last() == s,
{
    assert(s.push(item).drop_last() =~= s);
}

} // verus!
