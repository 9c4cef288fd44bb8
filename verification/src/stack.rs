use vstd::prelude::*;

verus! {

/// A stack of values over a buffer of fixed size: the values up to the top
/// are on the stack; the slots above keep what was last written to them.
pub struct Stack<V> {
    slots: Vec<V>,
    top: usize,
}

impl<V: Copy + Default> Stack<V> {
    /// All slots of the buffer.
    pub closed spec fn spec_slots(&self) -> Seq<V> {
        self.slots@
    }

    /// The values on the stack, bottom first.
    pub closed spec fn spec_items(&self) -> Seq<V> {
        self.slots@.subrange(0, self.top as int)
    }

    /// The top lies within the buffer.
    pub closed spec fn wf(&self) -> bool {
        self.top <= self.slots@.len()
    }

    /// The values on the stack are the bottom slots.
    pub proof fn lemma_items_in_slots(&self)
        requires
            self.wf(),
        ensures
            self.spec_items().len() <= self.spec_slots().len(),
            forall|i: int| 0 <= i < self.spec_items().len() ==> #[trigger] self.spec_items()[i] == self.spec_slots()[i],
    {
    }

    /// An empty stack over `size` slots.
    pub fn new(size: usize) -> (res: Stack<V>)
        ensures
            res.wf(),
            res.spec_slots().len() == size,
            res.spec_items() == Seq::<V>::empty(),
    {
        Self::filled(size, V::default())
    }

    /// An empty stack over `size` slots, each holding `value`.
    pub fn filled(size: usize, value: V) -> (res: Stack<V>)
        ensures
            res.wf(),
            res.spec_slots().len() == size,
            forall|i: int| 0 <= i < size ==> res.spec_slots()[i] == value,
            res.spec_items() == Seq::<V>::empty(),
    {
        let mut slots: Vec<V> = Vec::new();
        let mut i: usize = 0;
        while i < size
            invariant
                i <= size,
                slots@.len() == i,
                forall|j: int| 0 <= j < i ==> slots@[j] == value,
            decreases size - i,
        {
            slots.push(value);
            i = i + 1;
        }
        let res = Stack { slots, top: 0 };
        assert(res.spec_items() =~= Seq::<V>::empty());
        res
    }

    /// Writes `value` into every slot above the top, leaving the stack as
    /// it is.
    pub fn clear_above(&mut self, value: V)
        requires
            old(self).wf(),
        ensures
            final(self).wf(),
            final(self).spec_items() == old(self).spec_items(),
            final(self).spec_slots().len() == old(self).spec_slots().len(),
            forall|i: int| 0 <= i < old(self).spec_items().len() ==> #[trigger] final(self).spec_slots()[i] == old(self).spec_slots()[i],
            forall|i: int| old(self).spec_items().len() <= i < old(self).spec_slots().len() ==> #[trigger] final(self).spec_slots()[i] == value,
    {
        let mut i: usize = self.top;
        while i < self.slots.len()
            invariant
                self.top == old(self).top,
                self.top <= i <= self.slots@.len(),
                self.slots@.len() == old(self).slots@.len(),
                forall|j: int| 0 <= j < self.top ==> #[trigger] self.slots@[j] == old(self).slots@[j],
                forall|j: int| self.top <= j < i ==> #[trigger] self.slots@[j] == value,
            decreases self.slots@.len() - i,
        {
            self.slots.set(i, value);
            i = i + 1;
        }
        assert(self.spec_items() =~= old(self).spec_items());
    }

    /// The number of values on the stack.
    pub fn len(&self) -> (res: usize)
        requires
            self.wf(),
        ensures
            res == self.spec_items().len(),
    {
        self.top
    }

    /// Moves the top to slot `top`: values above it leave the stack, and
    /// slots below it, written before, come back on it.
    pub fn truncate(&mut self, top: usize)
        requires
            old(self).wf(),
            top <= old(self).spec_slots().len(),
        ensures
            final(self).wf(),
            final(self).spec_slots() == old(self).spec_slots(),
            final(self).spec_items() == old(self).spec_slots().subrange(0, top as int),
    {
        self.top = top;
    }

    /// Puts `value` on top.
    pub fn push(&mut self, value: V)
        requires
            old(self).wf(),
            old(self).spec_items().len() < old(self).spec_slots().len(),
        ensures
            final(self).wf(),
            final(self).spec_items() == old(self).spec_items().push(value),
            final(self).spec_slots() == old(self).spec_slots().update(old(self).spec_items().len() as int, value),
    {
        let top = self.top;
        let _ = self.slots.len();
        self.slots.set(top, value);
        self.top = top + 1;
        assert(self.spec_items() =~= old(self).spec_items().push(value));
    }

    /// Takes the top value off.
    pub fn pop(&mut self) -> (res: V)
        requires
            old(self).wf(),
            old(self).spec_items().len() > 0,
        ensures
            final(self).wf(),
            res == old(self).spec_items().last(),
            final(self).spec_items() == old(self).spec_items().drop_last(),
            final(self).spec_slots() == old(self).spec_slots(),
    {
        self.top = self.top - 1;
        assert(self.spec_items() =~= old(self).spec_items().drop_last());
        self.slots[self.top]
    }

    /// Replaces the value `n` below the top.
    pub fn rset(&mut self, n: usize, value: V)
        requires
            old(self).wf(),
            n < old(self).spec_items().len(),
        ensures
            final(self).wf(),
            final(self).spec_items() == old(self).spec_items().update(old(self).spec_items().len() - 1 - n, value),
            final(self).spec_slots() == old(self).spec_slots().update(old(self).spec_items().len() - 1 - n, value),
    {
        let index = self.top - (n + 1);
        self.slots.set(index, value);
        assert(self.spec_items() =~= old(self).spec_items().update(old(self).spec_items().len() - 1 - n, value));
    }

    /// Writes slot `index`, counted from the bottom.
    pub fn set(&mut self, index: usize, value: V)
        requires
            old(self).wf(),
            index < old(self).spec_slots().len(),
        ensures
            final(self).wf(),
            final(self).spec_slots() == old(self).spec_slots().update(index as int, value),
            final(self).spec_items().len() == old(self).spec_items().len(),
    {
        self.slots.set(index, value);
    }

    /// Slot `index`, counted from the bottom.
    pub fn get(&self, index: usize) -> (res: &V)
        requires
            index < self.spec_slots().len(),
        ensures
            *res == self.spec_slots()[index as int],
    {
        &self.slots[index]
    }

    /// The value `n` below the top.
    pub fn peek_n(&self, n: usize) -> (res: &V)
        requires
            self.wf(),
            n < self.spec_items().len(),
        ensures
            *res == self.spec_items()[self.spec_items().len() - 1 - n],
    {
        &self.slots[self.top - (n + 1)]
    }

    /// Takes the top `n` values off, bottom first.
    pub fn pop_n(&mut self, n: usize) -> (res: Vec<V>)
        requires
            old(self).wf(),
            n <= old(self).spec_items().len(),
        ensures
            final(self).wf(),
            res@ == old(self).spec_items().subrange(old(self).spec_items().len() - n, old(self).spec_items().len() as int),
            final(self).spec_items() == old(self).spec_items().subrange(0, old(self).spec_items().len() - n),
            final(self).spec_slots() == old(self).spec_slots(),
    {
        let start = self.top - n;
        let mut res: Vec<V> = Vec::new();
        let mut i: usize = start;
        while i < self.top
            invariant
                self.wf(),
                start <= i <= self.top,
                *self == *old(self),
                start == self.top - n,
                res@ == self.slots@.subrange(start as int, i as int),
            decreases self.top - i,
        {
            res.push(self.slots[i]);
            assert(self.slots@.subrange(start as int, i + 1) =~= self.slots@.subrange(start as int, i as int).push(self.slots@[i as int]));
            i = i + 1;
        }
        self.top = start;
        assert(res@ =~= old(self).spec_items().subrange(old(self).spec_items().len() - n, old(self).spec_items().len() as int));
        assert(self.spec_items() =~= old(self).spec_items().subrange(0, old(self).spec_items().len() - n));
        res
    }
}

/// Pushing then popping gives back the value pushed and the stack as it
/// was.
pub proof fn law_push_then_pop<V>(items: Seq<V>, value: V)
    ensures
        items.push(value).last() == value,
        items.push(value).drop_last() == items,
{
    assert(items.push(value).drop_last() =~= items);
}

} // verus!
