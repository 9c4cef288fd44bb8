use vstd::prelude::*;

verus! {

/// A growable array: its elements, and the number of elements it has room
/// for, doubled whenever it is full.
pub struct Array<T> {
    items: Vec<T>,
    cap: usize,
}

impl<T> View for Array<T> {
    type V = Seq<T>;

    closed spec fn view(&self) -> Seq<T> {
        self.items@
    }
}

impl<T> Array<T> {
    /// The number of elements there is room for.
    pub closed spec fn spec_capacity(&self) -> nat {
        self.cap as nat
    }

    /// There is room for every element.
    pub closed spec fn wf(&self) -> bool {
        self.items@.len() <= self.cap
    }

    /// An empty array with no room; the elements may not be of a type
    /// without size.
    pub fn new() -> (res: Array<T>)
        requires
            vstd::layout::size_of::<T>() != 0,
        ensures
            res@ == Seq::<T>::empty(),
            res.spec_capacity() == 0,
            res.wf(),
    {
        Array { items: Vec::new(), cap: 0 }
    }

    /// An empty array with room for `capacity` elements; with no room, as
    /// `new`, the elements may not be of a type without size.
    pub fn with_capacity(capacity: usize) -> (res: Array<T>)
        requires
            capacity == 0 ==> vstd::layout::size_of::<T>() != 0,
        ensures
            res@ == Seq::<T>::empty(),
            res.spec_capacity() == capacity,
            res.wf(),
    {
        if capacity == 0 {
            return Array::new();
        }
        Array { items: Vec::with_capacity(capacity), cap: capacity }
    }

    /// The number of elements.
    pub fn len(&self) -> (res: usize)
        ensures
            res == self@.len(),
    {
        self.items.len()
    }

    /// The elements, in order.
    pub fn as_slice(&self) -> (res: &[T])
        ensures
            res@ == self@,
    {
        self.items.as_slice()
    }

    /// The room after growing a full array: one to start with, then twice
    /// as much (as much as a `usize` counts, where twice does not fit).
    pub open spec fn grown(cap: nat) -> nat {
        if cap == 0 {
            1
        } else if 2 * cap <= usize::MAX {
            2 * cap
        } else {
            usize::MAX as nat
        }
    }

    /// Makes room for at least one more element.
    fn grow(&mut self)
        requires
            old(self).wf(),
        ensures
            final(self)@ == old(self)@,
            final(self).spec_capacity() == Self::grown(old(self).spec_capacity()),
            final(self).wf(),
    {
        if self.cap == 0 {
            self.cap = 1;
        } else if self.cap <= usize::MAX / 2 {
            self.cap = 2 * self.cap;
        } else {
            self.cap = usize::MAX;
        }
    }

    /// Appends `value`, first growing the room when full.
    pub fn push(&mut self, value: T)
        requires
            old(self).wf(),
        ensures
            final(self).wf(),
            final(self)@ == old(self)@.push(value),
            old(self)@.len() < old(self).spec_capacity() ==> final(self).spec_capacity() == old(self).spec_capacity(),
            old(self)@.len() == old(self).spec_capacity()
                ==> final(self).spec_capacity() == Self::grown(old(self).spec_capacity()),
    {
        if self.items.len() == self.cap {
            self.grow();
        }
        self.items.push(value);
        // A vector's length fits a `usize`, so there was room for one more.
        let _ = self.items.len();
    }

    /// Takes the last element off, if any.
    pub fn pop(&mut self) -> (res: Option<T>)
        requires
            old(self).wf(),
        ensures
            final(self).wf(),
            final(self).spec_capacity() == old(self).spec_capacity(),
            old(self)@.len() == 0 ==> res is None && final(self)@ == old(self)@,
            old(self)@.len() > 0 ==> res == Some(old(self)@.last()) && final(self)@ == old(self)@.drop_last(),
    {
        self.items.pop()
    }

    /// Removes element `index`, putting the last element in its place.
    pub fn swap_remove(&mut self, index: usize) -> (res: T)
        requires
            old(self).wf(),
            index < old(self)@.len(),
        ensures
            final(self).wf(),
            final(self).spec_capacity() == old(self).spec_capacity(),
            res == old(self)@[index as int],
            final(self)@ == old(self)@.update(index as int, old(self)@.last()).drop_last(),
    {
        self.items.swap_remove(index)
    }
}

impl<T: Copy> Array<T> {
    /// An array of `size` copies of `elem`, with room for exactly them.
    pub fn with_contents(elem: T, size: usize) -> (res: Array<T>)
        requires
            size == 0 ==> vstd::layout::size_of::<T>() != 0,
        ensures
            res@ == Seq::new(size as nat, |i: int| elem),
            res.wf(),
            res.spec_capacity() == size,
    {
        let mut array = Self::with_capacity(size);
        let mut i: usize = 0;
        while i < size
            invariant
                i <= size,
                array.wf(),
                array.spec_capacity() == size,
                array@ == Seq::new(i as nat, |j: int| elem),
            decreases size - i,
        {
            array.push(elem);
            assert(array@ =~= Seq::new((i + 1) as nat, |j: int| elem));
            assert(array.spec_capacity() == size);
            i = i + 1;
        }
        array
    }

    /// Appends copies of the elements of `other`, in order.
    pub fn extend_from_slice(&mut self, other: &[T])
        requires
            old(self).wf(),
        ensures
            final(self).wf(),
            final(self)@ == old(self)@ + other@,
    {
        let mut i: usize = 0;
        while i < other.len()
            invariant
                i <= other@.len(),
                self.wf(),
                self@ == old(self)@ + other@.subrange(0, i as int),
            decreases other@.len() - i,
        {
            self.push(other[i]);
            assert(other@.subrange(0, i + 1) =~= other@.subrange(0, i as int).push(other@[i as int]));
            i = i + 1;
        }
        assert(other@.subrange(0, other@.len() as int) =~= other@);
    }
}

/// Popping right after pushing gives back the value pushed and the array
/// as it was.
pub proof fn law_push_then_pop<T>(before: Seq<T>, value: T)
    ensures
        before.push(value).len() > 0,
        before.push(value).last() == value,
        before.push(value).drop_last() == before,
{
    assert(before.push(value).drop_last() =~= before);
}

} // verus!
