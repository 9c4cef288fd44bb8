use vstd::prelude::*;

verus! {

/// Collects the objects that values refer to, for marking.
pub struct Tracer {
    pending: Vec<usize>,
}

impl Tracer {
    /// The objects reported and not yet marked, in order.
    pub closed spec fn spec_pending(&self) -> Seq<usize> {
        self.pending@
    }

    /// Reports `object` as reachable.
    pub fn mark(&mut self, object: Gc)
        ensures
            final(self).spec_pending() == old(self).spec_pending().push(object.index),
    {
        self.pending.push(object.index);
    }
}

/// A value the collector can trace: it reports the objects it refers to.
pub trait Trace {
    /// The objects the value refers to, in the order it reports them.
    spec fn references(&self) -> Seq<usize>;

    /// Reports each object the value refers to.
    fn trace(&self, tracer: &mut Tracer)
        ensures
            final(tracer).spec_pending() == old(tracer).spec_pending() + self.references(),
    ;

    /// The bytes the value owns besides its own.
    spec fn extra_bytes(&self) -> nat;

    /// The bytes the value owns besides its own, counted for collection.
    fn size_hint(&self) -> (res: usize)
        ensures
            res == self.extra_bytes(),
    ;
}

/// A reference to an object managed by a [`Heap`].
#[derive(Copy, Clone, Debug, PartialEq, Eq, Structural)]
pub struct Gc {
    pub index: usize,
}

impl Gc {
    /// The two references are to the same object.
    pub fn ptr_eq(a: &Gc, b: &Gc) -> (res: bool)
        ensures
            res == (a.index == b.index),
    {
        a.index == b.index
    }

    /// The reference as a number: never zero, and distinct for distinct
    /// objects.  Indices beyond `u64::MAX - 1` are not handed out.
    pub fn to_bits(self) -> (res: u64)
        requires
            self.index < u64::MAX,
        ensures
            res == bits_of(self),
            res != 0,
    {
        self.index as u64 + 1
    }

    /// The reference that `to_bits` turned into `value`.
    pub fn from_bits(value: u64) -> (res: Gc)
        requires
            value != 0,
            value - 1 <= usize::MAX,
        ensures
            res == gc_of_bits(value as int),
    {
        Gc { index: (value - 1) as usize }
    }

    /// The reference with its type forgotten: the same object.
    pub fn erase(self) -> (res: Gc)
        ensures
            res == self,
    {
        self
    }
}


/// The number `to_bits` gives for a reference.
pub open spec fn bits_of(g: Gc) -> int {
    g.index + 1
}

/// The reference `from_bits` gives for a number.
pub open spec fn gc_of_bits(value: int) -> Gc {
    Gc { index: (value - 1) as usize }
}

/// `ptr_eq` is an equivalence, and it agrees with `==`.
pub proof fn law_ptr_eq(a: Gc, b: Gc, c: Gc)
    ensures
        a.index == a.index,
        (a.index == b.index) == (b.index == a.index),
        a.index == b.index && b.index == c.index ==> a.index == c.index,
        (a == b) <==> (a.index == b.index),
{
}

/// `to_bits` is never zero, tells two references apart exactly when
/// `ptr_eq` does, is kept by `erase`, and `from_bits` undoes it.
pub proof fn law_bits(a: Gc, b: Gc)
    requires
        a.index < u64::MAX,
        b.index < u64::MAX,
    ensures
        bits_of(a) != 0,
        (bits_of(a) == bits_of(b)) <==> (a.index == b.index),
        gc_of_bits(bits_of(a)) == a,
{
}

impl Default for Gc {
    fn default() -> (res: Gc)
        ensures
            res.index == 0,
    {
        Gc { index: 0 }
    }
}

impl Trace for Gc {
    open spec fn references(&self) -> Seq<usize> {
        seq![self.index]
    }

    fn trace(&self, tracer: &mut Tracer) {
        tracer.mark(*self);
    }

    open spec fn extra_bytes(&self) -> nat {
        0
    }

    fn size_hint(&self) -> usize {
        0
    }
}

/// The objects referred to by the values of `items`, in order.
pub open spec fn all_references<T: Trace>(items: Seq<T>) -> Seq<usize>
    decreases items.len(),
{
    if items.len() == 0 {
        Seq::empty()
    } else {
        all_references(items.drop_last()) + items.last().references()
    }
}

impl<T: Trace> Trace for Vec<T> {
    open spec fn references(&self) -> Seq<usize> {
        all_references(self@)
    }

    fn trace(&self, tracer: &mut Tracer) {
        let mut i: usize = 0;
        while i < self.len()
            invariant
                i <= self@.len(),
                tracer.spec_pending() == old(tracer).spec_pending() + all_references(self@.subrange(0, i as int)),
            decreases self@.len() - i,
        {
            let ghost before = tracer.spec_pending();
            self[i].trace(tracer);
            proof {
                assert(self@.subrange(0, i + 1).drop_last() =~= self@.subrange(0, i as int));
                assert(tracer.spec_pending() =~= old(tracer).spec_pending() + all_references(self@.subrange(0, i + 1)));
            }
            i = i + 1;
        }
        assert(self@.subrange(0, self@.len() as int) =~= self@);
    }

    open spec fn extra_bytes(&self) -> nat {
        0
    }

    fn size_hint(&self) -> usize {
        0
    }
}

impl<T: Trace> Trace for Option<T> {
    open spec fn references(&self) -> Seq<usize> {
        match self {
            Some(value) => value.references(),
            None => Seq::empty(),
        }
    }

    fn trace(&self, tracer: &mut Tracer) {
        match self {
            Some(value) => value.trace(tracer),
            None => {
                assert(tracer.spec_pending() =~= old(tracer).spec_pending() + Seq::<usize>::empty());
            },
        }
    }

    open spec fn extra_bytes(&self) -> nat {
        0
    }

    fn size_hint(&self) -> usize {
        0
    }
}

impl Trace for crate::string::LoxString {
    open spec fn references(&self) -> Seq<usize> {
        Seq::empty()
    }

    fn trace(&self, tracer: &mut Tracer) {
        assert(tracer.spec_pending() =~= old(tracer).spec_pending() + Seq::<usize>::empty());
    }

    open spec fn extra_bytes(&self) -> nat {
        0
    }

    fn size_hint(&self) -> usize {
        0
    }
}

impl Trace for crate::runtime_error::RuntimeError {
    open spec fn references(&self) -> Seq<usize> {
        Seq::empty()
    }

    fn trace(&self, tracer: &mut Tracer) {
        assert(tracer.spec_pending() =~= old(tracer).spec_pending() + Seq::<usize>::empty());
    }

    open spec fn extra_bytes(&self) -> nat {
        0
    }

    fn size_hint(&self) -> usize {
        0
    }
}

impl<T: Trace> Trace for crate::array::Array<T> {
    open spec fn references(&self) -> Seq<usize> {
        all_references(self@)
    }

    fn trace(&self, tracer: &mut Tracer) {
        let items = self.as_slice();
        let mut i: usize = 0;
        while i < items.len()
            invariant
                items@ == self@,
                i <= items@.len(),
                tracer.spec_pending() == old(tracer).spec_pending() + all_references(self@.subrange(0, i as int)),
            decreases items@.len() - i,
        {
            items[i].trace(tracer);
            proof {
                assert(self@.subrange(0, i + 1).drop_last() =~= self@.subrange(0, i as int));
                assert(tracer.spec_pending() =~= old(tracer).spec_pending() + all_references(self@.subrange(0, i + 1)));
            }
            i = i + 1;
        }
        assert(self@.subrange(0, self@.len() as int) =~= self@);
    }

    open spec fn extra_bytes(&self) -> nat {
        0
    }

    fn size_hint(&self) -> usize {
        0
    }
}

/// A managed object: its data and the bytes counted for it.
struct Allocation<T> {
    size: usize,
    data: T,
}

/// A heap of objects, collected by marking what the roots reach and
/// freeing the rest once the bytes counted pass a threshold.
pub struct Heap<T> {
    slots: Vec<Option<Allocation<T>>>,
    /// Whether the collection under way reached each object.
    marks: Vec<bool>,
    bytes_allocated: usize,
    threshold: usize,
}

/// The sum of the sizes of the objects in `slots`.
spec fn live_bytes<T>(slots: Seq<Option<Allocation<T>>>) -> int
    decreases slots.len(),
{
    if slots.len() == 0 {
        0
    } else {
        live_bytes(slots.drop_last()) + match slots.last() {
            Some(a) => a.size as int,
            None => 0,
        }
    }
}

/// The number of objects in `slots` whose mark in `marks` is clear.
spec fn unmarked_count<T>(slots: Seq<Option<Allocation<T>>>, marks: Seq<bool>) -> nat
    decreases slots.len(),
{
    if slots.len() == 0 || marks.len() == 0 {
        0
    } else {
        unmarked_count(slots.drop_last(), marks.drop_last()) + if slots.last() is Some && !marks.last() { 1nat } else { 0nat }
    }
}

/// Marking one unmarked object leaves one fewer unmarked.
proof fn lemma_mark_one<T>(slots: Seq<Option<Allocation<T>>>, marks: Seq<bool>, i: int)
    requires
        slots.len() == marks.len(),
        0 <= i < slots.len(),
        slots[i] is Some,
        !marks[i],
    ensures
        unmarked_count(slots, marks.update(i, true)) + 1 == unmarked_count(slots, marks),
    decreases slots.len(),
{
    let u = marks.update(i, true);
    if i == slots.len() - 1 {
        assert(u.drop_last() =~= marks.drop_last());
    } else {
        assert(u.drop_last() =~= marks.drop_last().update(i, true));
        lemma_mark_one(slots.drop_last(), marks.drop_last(), i);
    }
}

/// Freeing object `i` takes its size off the sum.
proof fn lemma_free_one<T>(slots: Seq<Option<Allocation<T>>>, i: int)
    requires
        0 <= i < slots.len(),
        slots[i] is Some,
    ensures
        live_bytes(slots.update(i, None)) + slots[i]->0.size == live_bytes(slots),
    decreases slots.len(),
{
    let u = slots.update(i, None);
    if i == slots.len() - 1 {
        assert(u.drop_last() =~= slots.drop_last());
    } else {
        assert(u.drop_last() =~= slots.drop_last().update(i, None));
        lemma_free_one(slots.drop_last(), i);
    }
}

/// Each reference of one of `items` is among the references of all.
proof fn lemma_all_references<T: Trace>(items: Seq<T>, j: int, k: int)
    requires
        0 <= j < items.len(),
        0 <= k < items[j].references().len(),
    ensures
        all_references(items).contains(items[j].references()[k]),
    decreases items.len(),
{
    let all = all_references(items);
    let x = items[j].references()[k];
    if j == items.len() - 1 {
        let pre = all_references(items.drop_last());
        assert(all[pre.len() + k] == x);
    } else {
        lemma_all_references(items.drop_last(), j, k);
        let pre = all_references(items.drop_last());
        let i = choose|i: int| 0 <= i < pre.len() && pre[i] == x;
        assert(all[i] == x);
    }
}

/// Each of the references of all of `items` is a reference of one of them.
proof fn lemma_all_references_of<T: Trace>(items: Seq<T>, x: usize)
    requires
        all_references(items).contains(x),
    ensures
        held_by(items, x),
    decreases items.len(),
{
    let pre = all_references(items.drop_last());
    let all = all_references(items);
    let i = choose|i: int| 0 <= i < all.len() && all[i] == x;
    if i < pre.len() {
        assert(pre[i] == x);
        lemma_all_references_of(items.drop_last(), x);
        let (j, k) = choose|j: int, k: int| 0 <= j < items.drop_last().len() && 0 <= k < items.drop_last()[j].references().len()
            && #[trigger] items.drop_last()[j].references()[k] == x;
        assert(items[j] == items.drop_last()[j]);
        assert(items[j].references()[k] == x);
    } else {
        let j = items.len() - 1;
        let k = i - pre.len();
        assert(items[j].references()[k] == x);
    }
}

/// One of `roots` refers to object `x`.
pub open spec fn held_by<R: Trace>(roots: Seq<R>, x: usize) -> bool {
    exists|j: int, k: int| 0 <= j < roots.len() && 0 <= k < roots[j].references().len()
        && #[trigger] roots[j].references()[k] == x
}

/// Sizes summed over a prefix, plus the rest, give the whole.
proof fn lemma_live_bytes_prefix<T>(slots: Seq<Option<Allocation<T>>>, k: int)
    requires
        0 <= k < slots.len(),
    ensures
        live_bytes(slots.subrange(0, k + 1)) == live_bytes(slots.subrange(0, k)) + match slots[k] {
            Some(a) => a.size as int,
            None => 0,
        },
{
    assert(slots.subrange(0, k + 1).drop_last() =~= slots.subrange(0, k));
}

proof fn lemma_live_bytes_nonneg<T>(slots: Seq<Option<Allocation<T>>>)
    ensures
        live_bytes(slots) >= 0,
    decreases slots.len(),
{
    if slots.len() > 0 {
        lemma_live_bytes_nonneg(slots.drop_last());
    }
}

/// Object `x` is marked, or waits on `pending` to be marked, or is not
/// managed at all.
spec fn covered<T>(slots: Seq<Option<Allocation<T>>>, marks: Seq<bool>, pending: Seq<usize>, x: usize) -> bool {
    !(x < slots.len() && slots[x as int] is Some) || marks[x as int] || pending.contains(x)
}

impl<T: Trace> Heap<T> {
    /// Object `i` is managed (not freed).
    pub closed spec fn live(&self, i: int) -> bool {
        0 <= i < self.slots@.len() && self.slots@[i] is Some
    }

    /// A reference that `manage` handed out while the heap held `before`
    /// objects, and that is still live, is never `ptr_eq` to the one a
    /// later `manage` hands out.
    pub proof fn law_manage_distinct(before: &Self, after: &Self, a: Gc, b: Gc)
        requires
            a.index == before.spec_len(),
            after.live(a.index as int),
            b.index == after.spec_len(),
        ensures
            a.index != b.index,
    {
    }

    /// The data of object `i`.
    pub closed spec fn data(&self, i: int) -> T {
        self.slots@[i]->0.data
    }

    /// The bytes counted for object `i`.
    pub closed spec fn size(&self, i: int) -> usize {
        self.slots@[i]->0.size
    }

    /// The number of objects ever managed.
    pub closed spec fn spec_len(&self) -> nat {
        self.slots@.len()
    }

    /// The bytes counted for the managed objects among the first `n`.
    pub open spec fn live_size(&self, n: nat) -> int
        decreases n,
    {
        if n == 0 {
            0
        } else {
            self.live_size((n - 1) as nat) + if self.live(n - 1) { self.size(n - 1) as int } else { 0 }
        }
    }

    /// The bytes counted are those of the objects managed.
    pub proof fn lemma_bytes_counted(&self)
        requires
            self.wf(),
        ensures
            self.spec_bytes_allocated() == self.live_size(self.spec_len()),
    {
        self.lemma_live_size(self.spec_len());
        assert(self.slots@.subrange(0, self.slots@.len() as int) =~= self.slots@);
    }

    proof fn lemma_live_size(&self, n: nat)
        requires
            n <= self.slots@.len(),
        ensures
            self.live_size(n) == live_bytes(self.slots@.subrange(0, n as int)),
        decreases n,
    {
        if n > 0 {
            self.lemma_live_size((n - 1) as nat);
            lemma_live_bytes_prefix(self.slots@, n - 1);
        } else {
            assert(self.slots@.subrange(0, 0).len() == 0);
        }
    }

    /// `path` leads from an object one of `roots` refers to, through the
    /// references of managed objects, to its last object.
    pub open spec fn reaches<R: Trace>(&self, roots: Seq<R>, path: Seq<usize>) -> bool {
        &&& path.len() >= 1
        &&& held_by(roots, path[0])
        &&& forall|k: int| 0 <= k < path.len() - 1 ==> self.live(#[trigger] path[k] as int)
            && self.data(path[k] as int).references().contains(path[k + 1])
    }

    /// Object `x` can be reached from `roots`.
    pub open spec fn reachable<R: Trace>(&self, roots: Seq<R>, x: usize) -> bool {
        exists|path: Seq<usize>| #[trigger] self.reaches(roots, path) && path.last() == x
    }

    pub closed spec fn spec_bytes_allocated(&self) -> usize {
        self.bytes_allocated
    }

    pub closed spec fn spec_threshold(&self) -> usize {
        self.threshold
    }

    /// The bytes counted are those of the objects managed, and between
    /// collections no object is marked.
    pub closed spec fn wf(&self) -> bool {
        &&& self.bytes_allocated == live_bytes(self.slots@)
        &&& self.marks@.len() == self.slots@.len()
        &&& forall|i: int| 0 <= i < self.marks@.len() ==> !(#[trigger] self.marks@[i])
    }

    /// An empty heap that first collects past one MiB.
    pub fn new() -> (res: Heap<T>)
        ensures
            res.wf(),
            res.spec_len() == 0,
            res.spec_bytes_allocated() == 0,
            res.spec_threshold() == 1024 * 1024,
    {
        Heap { slots: Vec::new(), marks: Vec::new(), bytes_allocated: 0, threshold: 1024 * 1024 }
    }

    /// The number of bytes counted for the objects managed.
    pub fn bytes_allocated(&self) -> (res: usize)
        ensures
            res == self.spec_bytes_allocated(),
    {
        self.bytes_allocated
    }

    /// The object is managed (not freed).
    pub fn contains(&self, object: Gc) -> (res: bool)
        ensures
            res == self.live(object.index as int),
    {
        object.index < self.slots.len() && self.slots[object.index].is_some()
    }

    /// The data of a managed object.
    pub fn get(&self, object: Gc) -> (res: &T)
        requires
            self.live(object.index as int),
        ensures
            *res == self.data(object.index as int),
    {
        match &self.slots[object.index] {
            Some(allocation) => &allocation.data,
            None => {
                assert(false);
                &self.slots[object.index].as_ref().unwrap().data
            },
        }
    }

    /// The bytes counted for a value: its own and those it owns.
    fn size_of_value(data: &T) -> (res: usize)
        requires
            vstd::layout::size_of::<T>() + data.extra_bytes() <= usize::MAX,
        ensures
            res == vstd::layout::size_of::<T>() + data.extra_bytes(),
    {
        core::mem::size_of::<T>() + data.size_hint()
    }

    /// Manages `data` as a new object, counting its bytes.
    pub fn manage(&mut self, data: T) -> (res: Gc)
        requires
            old(self).wf(),
            old(self).spec_bytes_allocated() + vstd::layout::size_of::<T>() + data.extra_bytes() <= usize::MAX,
        ensures
            final(self).wf(),
            res.index == old(self).spec_len(),
            final(self).spec_len() == old(self).spec_len() + 1,
            final(self).live(res.index as int),
            final(self).data(res.index as int) == data,
            forall|i: int| #[trigger] old(self).live(i) ==> final(self).live(i) && final(self).data(i) == old(self).data(i),
            final(self).size(res.index as int) == vstd::layout::size_of::<T>() + data.extra_bytes(),
            final(self).spec_bytes_allocated() == old(self).spec_bytes_allocated() + final(self).size(res.index as int),
            final(self).spec_threshold() == old(self).spec_threshold(),
    {
        let size = Self::size_of_value(&data);
        let index = self.slots.len();
        let ghost before = self.slots@;
        self.slots.push(Some(Allocation { size, data }));
        self.marks.push(false);
        proof {
            assert(self.slots@.drop_last() =~= before);
        }
        self.bytes_allocated = self.bytes_allocated + size;
        Gc { index }
    }

    /// The collection is due: the bytes counted passed the threshold.
    pub fn should_collect(&self) -> (res: bool)
        ensures
            res == (self.spec_bytes_allocated() > self.spec_threshold()),
    {
        self.bytes_allocated > self.threshold
    }

    /// What a reachable managed object refers to is reachable.
    proof fn lemma_step_reachable<R: Trace>(&self, roots: Seq<R>, x: usize, y: usize)
        requires
            self.reachable(roots, x),
            self.live(x as int),
            self.data(x as int).references().contains(y),
        ensures
            self.reachable(roots, y),
    {
        let path = choose|path: Seq<usize>| #[trigger] self.reaches(roots, path) && path.last() == x;
        let longer = path.push(y);
        assert forall|k: int| 0 <= k < longer.len() - 1 implies self.live(#[trigger] longer[k] as int)
            && self.data(longer[k] as int).references().contains(longer[k + 1]) by {
            assert(longer[k] == path[k]);
            if k + 1 < path.len() {
                assert(longer[k + 1] == path[k + 1]);
            }
        }
        assert(longer[0] == path[0]);
        assert(self.reaches(roots, longer));
    }

    /// Marks that cover the objects the roots refer to and, for every
    /// marked object, those it refers to, cover every reachable managed
    /// object.
    proof fn lemma_reachable_marked<R: Trace>(&self, roots: Seq<R>, path: Seq<usize>)
        requires
            self.marks@.len() == self.slots@.len(),
            forall|j: int, k: int| 0 <= j < roots.len() && 0 <= k < roots[j].references().len()
                ==> #[trigger] covered(self.slots@, self.marks@, Seq::empty(), roots[j].references()[k]),
            forall|i: int, k: int| 0 <= i < self.slots@.len() && self.slots@[i] is Some && self.marks@[i]
                && 0 <= k < self.slots@[i]->0.data.references().len()
                ==> #[trigger] covered(self.slots@, self.marks@, Seq::empty(), self.slots@[i]->0.data.references()[k]),
            self.reaches(roots, path),
            self.live(path.last() as int),
        ensures
            self.marks@[path.last() as int],
        decreases path.len(),
    {
        let x = path.last();
        if path.len() == 1 {
            let (j, k) = choose|j: int, k: int| 0 <= j < roots.len() && 0 <= k < roots[j].references().len()
                && #[trigger] roots[j].references()[k] == path[0];
            assert(covered(self.slots@, self.marks@, Seq::empty(), roots[j].references()[k]));
        } else {
            let shorter = path.drop_last();
            assert forall|k: int| 0 <= k < shorter.len() - 1 implies self.live(#[trigger] shorter[k] as int)
                && self.data(shorter[k] as int).references().contains(shorter[k + 1]) by {
                assert(shorter[k] == path[k]);
                assert(shorter[k + 1] == path[k + 1]);
            }
            assert(shorter[0] == path[0]);
            assert(self.reaches(roots, shorter));
            let n = path.len() - 1;
            assert(self.live(path[n - 1] as int));
            assert(self.data(path[n - 1] as int).references().contains(path[n]));
            assert(shorter.last() == path[n - 1]);
            self.lemma_reachable_marked(roots, shorter);
            let i = path[n - 1] as int;
            let refs = self.slots@[i]->0.data.references();
            let k = choose|k: int| 0 <= k < refs.len() && refs[k] == x;
            assert(covered(self.slots@, self.marks@, Seq::empty(), self.slots@[i]->0.data.references()[k]));
        }
    }

    /// A path through the same objects leads the same way.
    proof fn lemma_reaches_same<R: Trace>(&self, before: &Heap<T>, roots: Seq<R>, path: Seq<usize>)
        requires
            self.slots@ == before.slots@,
            before.reaches(roots, path),
        ensures
            self.reaches(roots, path),
    {
        assert forall|k: int| 0 <= k < path.len() - 1 implies self.live(#[trigger] path[k] as int)
            && self.data(path[k] as int).references().contains(path[k + 1]) by {
            assert(before.live(path[k] as int));
        }
    }

    /// After marking from `roots`, the managed objects marked are exactly
    /// the reachable ones.
    proof fn lemma_marked_exactly<R: Trace>(&self, before: &Heap<T>, roots: Seq<R>)
        requires
            self.slots@ == before.slots@,
            self.marks@.len() == self.slots@.len(),
            forall|j: int, k: int| 0 <= j < roots.len() && 0 <= k < roots[j].references().len()
                ==> #[trigger] covered(self.slots@, self.marks@, Seq::empty(), roots[j].references()[k]),
            forall|i: int, k: int| 0 <= i < self.slots@.len() && self.slots@[i] is Some && self.marks@[i]
                && 0 <= k < self.slots@[i]->0.data.references().len()
                ==> #[trigger] covered(self.slots@, self.marks@, Seq::empty(), self.slots@[i]->0.data.references()[k]),
            forall|i: int| 0 <= i < self.marks@.len() && #[trigger] self.marks@[i] ==> before.reachable(roots, i as usize),
        ensures
            forall|x: usize| #[trigger] before.live(x as int) ==> (self.marks@[x as int] <==> before.reachable(roots, x)),
    {
        assert forall|x: usize| #[trigger] before.live(x as int) implies (self.marks@[x as int] <==> before.reachable(roots, x)) by {
            if before.reachable(roots, x) {
                let path = choose|path: Seq<usize>| #[trigger] before.reaches(roots, path) && path.last() == x;
                self.lemma_reaches_same(before, roots, path);
                self.lemma_reachable_marked(roots, path);
            }
        }
    }

    /// The objects the roots refer to, and every object a marked object
    /// refers to, end up marked.
    fn mark<R: Trace>(&mut self, roots: &[R])
        requires
            old(self).wf(),
        ensures
            final(self).slots@ == old(self).slots@,
            final(self).bytes_allocated == old(self).bytes_allocated,
            final(self).threshold == old(self).threshold,
            final(self).marks@.len() == final(self).slots@.len(),
            forall|j: int, k: int| 0 <= j < roots@.len() && 0 <= k < roots@[j].references().len()
                ==> #[trigger] covered(final(self).slots@, final(self).marks@, Seq::empty(), roots@[j].references()[k]),
            forall|i: int, k: int| 0 <= i < final(self).slots@.len() && final(self).slots@[i] is Some && final(self).marks@[i]
                && 0 <= k < final(self).slots@[i]->0.data.references().len()
                ==> #[trigger] covered(final(self).slots@, final(self).marks@, Seq::empty(), final(self).slots@[i]->0.data.references()[k]),
            forall|i: int| 0 <= i < final(self).marks@.len() && #[trigger] final(self).marks@[i]
                ==> old(self).reachable(roots@, i as usize),
    {
        let mut tracer = Tracer { pending: Vec::new() };
        let mut j: usize = 0;
        while j < roots.len()
            invariant
                j <= roots@.len(),
                tracer.spec_pending() == all_references(roots@.subrange(0, j as int)),
            decreases roots@.len() - j,
        {
            roots[j].trace(&mut tracer);
            proof {
                assert(roots@.subrange(0, j + 1).drop_last() =~= roots@.subrange(0, j as int));
            }
            j = j + 1;
        }
        proof {
            assert(roots@.subrange(0, roots@.len() as int) =~= roots@);
            assert forall|q: int| 0 <= q < tracer.spec_pending().len() implies
                old(self).reachable(roots@, #[trigger] tracer.spec_pending()[q]) by {
                let x = tracer.spec_pending()[q];
                assert(all_references(roots@).contains(x));
                lemma_all_references_of(roots@, x);
                assert(old(self).reaches(roots@, seq![x]));
            }
            assert forall|j: int, k: int| 0 <= j < roots@.len() && 0 <= k < roots@[j].references().len()
                implies #[trigger] covered(self.slots@, self.marks@, tracer.spec_pending(), roots@[j].references()[k]) by {
                lemma_all_references(roots@, j, k);
            }
        }
        let ghost slots = self.slots@;
        while tracer.pending.len() > 0
            invariant
                self.slots@ == slots,
                slots == old(self).slots@,
                self.bytes_allocated == old(self).bytes_allocated,
                self.threshold == old(self).threshold,
                self.marks@.len() == slots.len(),
                forall|j: int, k: int| 0 <= j < roots@.len() && 0 <= k < roots@[j].references().len()
                    ==> #[trigger] covered(slots, self.marks@, tracer.spec_pending(), roots@[j].references()[k]),
                forall|i: int, k: int| 0 <= i < slots.len() && slots[i] is Some && self.marks@[i]
                    && 0 <= k < slots[i]->0.data.references().len()
                    ==> #[trigger] covered(slots, self.marks@, tracer.spec_pending(), slots[i]->0.data.references()[k]),
                forall|q: int| 0 <= q < tracer.spec_pending().len() ==> old(self).reachable(roots@, #[trigger] tracer.spec_pending()[q]),
                forall|i: int| 0 <= i < self.marks@.len() && #[trigger] self.marks@[i] ==> old(self).reachable(roots@, i as usize),
            decreases unmarked_count(slots, self.marks@), tracer.spec_pending().len(),
        {
            let ghost before_marks = self.marks@;
            let ghost before_pending = tracer.spec_pending();
            let p = tracer.pending.pop().unwrap();
            let ghost rest = tracer.spec_pending();
            proof { assert(rest =~= before_pending.drop_last()); }
            let mut marked_now = false;
            if p < self.slots.len() && !self.marks[p] {
                match &self.slots[p] {
                    Some(allocation) => {
                        allocation.data.trace(&mut tracer);
                        marked_now = true;
                    },
                    None => {},
                }
                if marked_now {
                    self.marks.set(p, true);
                    proof { lemma_mark_one(slots, before_marks, p as int); }
                }
            }
            proof {
                let pending = tracer.spec_pending();
                let marks = self.marks@;
                assert(old(self).reachable(roots@, before_pending[before_pending.len() - 1]));
                assert forall|q: int| 0 <= q < pending.len() implies old(self).reachable(roots@, #[trigger] pending[q]) by {
                    if q < rest.len() {
                        assert(pending[q] == rest[q]);
                        assert(rest[q] == before_pending[q]);
                    } else {
                        let x = pending[q];
                        assert(marked_now);
                        let data = slots[p as int]->0.data;
                        assert(pending =~= rest + data.references());
                        assert(data.references()[q - rest.len()] == x);
                        assert(data.references().contains(x));
                        assert(old(self).live(p as int));
                        assert(old(self).data(p as int) == data);
                        old(self).lemma_step_reachable(roots@, p, x);
                    }
                }
                assert forall|i: int| 0 <= i < marks.len() && #[trigger] marks[i] implies old(self).reachable(roots@, i as usize) by {
                    if !(marked_now && i == p) {
                        assert(before_marks[i]);
                    }
                }
                assert forall|x: usize| #[trigger] covered(slots, before_marks, before_pending, x)
                    implies covered(slots, marks, pending, x) by {
                    if x < slots.len() && slots[x as int] is Some && !before_marks[x as int] {
                        let q = choose|q: int| 0 <= q < before_pending.len() && before_pending[q] == x;
                        if q < before_pending.len() - 1 {
                            assert(rest[q] == x);
                            assert(pending[q] == x);
                        } else {
                            assert(x == p);
                        }
                    }
                }
                assert forall|j: int, k: int| 0 <= j < roots@.len() && 0 <= k < roots@[j].references().len()
                    implies #[trigger] covered(slots, marks, pending, roots@[j].references()[k]) by {
                    assert(covered(slots, before_marks, before_pending, roots@[j].references()[k]));
                }
                assert forall|i: int, k: int| 0 <= i < slots.len() && slots[i] is Some && marks[i]
                    && 0 <= k < slots[i]->0.data.references().len()
                    implies #[trigger] covered(slots, marks, pending, slots[i]->0.data.references()[k]) by {
                    let x = slots[i]->0.data.references()[k];
                    if marked_now && i == p {
                        assert(pending[rest.len() + k] == x);
                    } else {
                        assert(before_marks[i]);
                        assert(covered(slots, before_marks, before_pending, x));
                    }
                }
            }
        }
        proof {
            assert forall|x: usize| #[trigger] covered(self.slots@, self.marks@, tracer.spec_pending(), x)
                implies covered(self.slots@, self.marks@, Seq::empty(), x) by {
                assert(tracer.spec_pending().len() == 0);
            }
            assert forall|j: int, k: int| 0 <= j < roots@.len() && 0 <= k < roots@[j].references().len()
                implies #[trigger] covered(self.slots@, self.marks@, Seq::empty(), roots@[j].references()[k]) by {
                assert(covered(self.slots@, self.marks@, tracer.spec_pending(), roots@[j].references()[k]));
            }
            assert forall|i: int, k: int| 0 <= i < self.slots@.len() && self.slots@[i] is Some && self.marks@[i]
                && 0 <= k < self.slots@[i]->0.data.references().len()
                implies #[trigger] covered(self.slots@, self.marks@, Seq::empty(), self.slots@[i]->0.data.references()[k]) by {
                assert(covered(self.slots@, self.marks@, tracer.spec_pending(), self.slots@[i]->0.data.references()[k]));
            }
        }
    }

    /// Frees every object not marked and clears the marks of the others,
    /// taking the bytes of the freed objects off the count.
    fn sweep(&mut self)
        requires
            old(self).bytes_allocated == live_bytes(old(self).slots@),
            old(self).marks@.len() == old(self).slots@.len(),
        ensures
            final(self).wf(),
            final(self).threshold == old(self).threshold,
            final(self).slots@.len() == old(self).slots@.len(),
            forall|i: int| 0 <= i < old(self).slots@.len() ==> (#[trigger] final(self).slots@[i]) == if old(self).marks@[i] {
                old(self).slots@[i]
            } else {
                None
            },
    {
        let n = self.slots.len();
        let mut i: usize = 0;
        while i < n
            invariant
                n == self.slots@.len(),
                n == old(self).slots@.len(),
                self.marks@.len() == n,
                i <= n,
                self.threshold == old(self).threshold,
                self.bytes_allocated == live_bytes(self.slots@),
                forall|k: int| 0 <= k < i ==> !(#[trigger] self.marks@[k]),
                forall|k: int| i <= k < n ==> #[trigger] self.marks@[k] == old(self).marks@[k],
                forall|k: int| 0 <= k < i ==> (#[trigger] self.slots@[k]) == if old(self).marks@[k] {
                    old(self).slots@[k]
                } else {
                    None
                },
                forall|k: int| i <= k < n ==> #[trigger] self.slots@[k] == old(self).slots@[k],
            decreases n - i,
        {
            if self.marks[i] {
                self.marks.set(i, false);
            } else {
                let size = match &self.slots[i] {
                    Some(allocation) => allocation.size,
                    None => 0,
                };
                if size > 0 || self.slots[i].is_some() {
                    let ghost before = self.slots@;
                    proof {
                        lemma_free_one(before, i as int);
                        lemma_live_bytes_nonneg(before.update(i as int, None));
                    }
                    self.slots.set(i, None);
                    self.bytes_allocated = self.bytes_allocated - size;
                }
            }
            i = i + 1;
        }
    }

    /// Collects now: marks what the roots reach, frees the rest, and sets
    /// the next threshold from the bytes still counted.  An object stays
    /// managed exactly when the roots reach it.
    pub fn force_collect<R: Trace, F: Fn(usize) -> usize>(&mut self, roots: &[R], next_threshold: F)
        requires
            old(self).wf(),
            forall|bytes: usize| next_threshold.requires((bytes,)),
        ensures
            final(self).wf(),
            final(self).spec_len() == old(self).spec_len(),
            forall|i: int| #[trigger] final(self).live(i) ==> old(self).live(i) && final(self).data(i) == old(self).data(i)
                && final(self).size(i) == old(self).size(i),
            forall|j: int, k: int| 0 <= j < roots@.len() && 0 <= k < roots@[j].references().len()
                && old(self).live(roots@[j].references()[k] as int)
                ==> #[trigger] final(self).live(roots@[j].references()[k] as int),
            forall|i: int, k: int| final(self).live(i) && 0 <= k < final(self).data(i).references().len()
                && old(self).live(final(self).data(i).references()[k] as int)
                ==> #[trigger] final(self).live(final(self).data(i).references()[k] as int),
            next_threshold.ensures((final(self).spec_bytes_allocated(),), final(self).spec_threshold()),
            final(self).spec_bytes_allocated() == final(self).live_size(final(self).spec_len()),
            forall|x: usize| #[trigger] old(self).live(x as int)
                ==> (final(self).live(x as int) <==> old(self).reachable(roots@, x)),
    {
        self.mark(roots);
        let ghost marked = *self;
        self.sweep();
        self.threshold = next_threshold(self.bytes_allocated);
        proof {
            self.lemma_bytes_counted();
            marked.lemma_marked_exactly(&*old(self), roots@);
            assert forall|x: usize| #[trigger] old(self).live(x as int)
                implies (self.live(x as int) <==> old(self).reachable(roots@, x)) by {
                assert(marked.marks@[x as int] <==> old(self).reachable(roots@, x));
            }
            assert forall|j: int, k: int| 0 <= j < roots@.len() && 0 <= k < roots@[j].references().len()
                && old(self).live(roots@[j].references()[k] as int)
                implies #[trigger] self.live(roots@[j].references()[k] as int) by {
                let x = roots@[j].references()[k];
                assert(covered(marked.slots@, marked.marks@, Seq::empty(), x));
            }
            assert forall|i: int, k: int| self.live(i) && 0 <= k < self.data(i).references().len()
                && old(self).live(self.data(i).references()[k] as int)
                implies #[trigger] self.live(self.data(i).references()[k] as int) by {
                assert(self.slots@[i] == marked.slots@[i]);
                assert(marked.marks@[i]);
                let x = self.data(i).references()[k];
                assert(covered(marked.slots@, marked.marks@, Seq::empty(), x));
            }
            assert forall|i: int| #[trigger] self.live(i) implies old(self).live(i) && self.data(i) == old(self).data(i)
                && self.size(i) == old(self).size(i) by {
                assert(self.slots@[i] == marked.slots@[i]);
            }
        }
    }

    /// Collects when due: the bytes counted passed the threshold.
    pub fn collect<R: Trace, F: Fn(usize) -> usize>(&mut self, roots: &[R], next_threshold: F)
        requires
            old(self).wf(),
            forall|bytes: usize| next_threshold.requires((bytes,)),
        ensures
            final(self).wf(),
            final(self).spec_len() == old(self).spec_len(),
            old(self).spec_bytes_allocated() <= old(self).spec_threshold() ==> *final(self) == *old(self),
            forall|i: int| #[trigger] final(self).live(i) ==> old(self).live(i) && final(self).data(i) == old(self).data(i)
                && final(self).size(i) == old(self).size(i),
            forall|j: int, k: int| 0 <= j < roots@.len() && 0 <= k < roots@[j].references().len()
                && old(self).live(roots@[j].references()[k] as int)
                ==> #[trigger] final(self).live(roots@[j].references()[k] as int),
            forall|i: int, k: int| final(self).live(i) && 0 <= k < final(self).data(i).references().len()
                && old(self).live(final(self).data(i).references()[k] as int)
                ==> #[trigger] final(self).live(final(self).data(i).references()[k] as int),
            old(self).spec_bytes_allocated() > old(self).spec_threshold() ==> forall|x: usize| #[trigger] old(self).live(x as int)
                ==> (final(self).live(x as int) <==> old(self).reachable(roots@, x)),
            old(self).spec_bytes_allocated() > old(self).spec_threshold()
                ==> next_threshold.ensures((final(self).spec_bytes_allocated(),), final(self).spec_threshold()),
            final(self).spec_bytes_allocated() == final(self).live_size(final(self).spec_len()),
    {
        if self.should_collect() {
            self.force_collect(roots, next_threshold);
        } else {
            proof { self.lemma_bytes_counted(); }
        }
    }

    /// Counts the object's bytes anew, after its data changed what it owns.
    pub fn adjust_size(&mut self, object: Gc)
        requires
            old(self).wf(),
            old(self).live(object.index as int),
            old(self).spec_bytes_allocated() - old(self).size(object.index as int) + vstd::layout::size_of::<T>()
                + old(self).data(object.index as int).extra_bytes() <= usize::MAX,
        ensures
            final(self).wf(),
            final(self).spec_len() == old(self).spec_len(),
            forall|i: int| #[trigger] final(self).live(i) == old(self).live(i),
            forall|i: int| old(self).live(i) ==> #[trigger] final(self).data(i) == old(self).data(i),
            forall|i: int| old(self).live(i) && i != object.index ==> #[trigger] final(self).size(i) == old(self).size(i),
            final(self).size(object.index as int) == vstd::layout::size_of::<T>() + old(self).data(object.index as int).extra_bytes(),
            final(self).spec_bytes_allocated() == old(self).spec_bytes_allocated() - old(self).size(object.index as int)
                + final(self).size(object.index as int),
            final(self).spec_threshold() == old(self).spec_threshold(),
    {
        let i = object.index;
        let ghost before = self.slots@;
        let taken = self.slots[i].take();
        match taken {
            Some(allocation) => {
                proof {
                    lemma_free_one(before, i as int);
                    lemma_live_bytes_nonneg(before.update(i as int, None));
                }
                self.bytes_allocated = self.bytes_allocated - allocation.size;
                let size = Self::size_of_value(&allocation.data);
                let ghost freed = self.slots@;
                self.slots.set(i, Some(Allocation { size, data: allocation.data }));
                proof {
                    assert(freed =~= before.update(i as int, None));
                    assert(self.slots@.update(i as int, None) =~= freed);
                    lemma_free_one(self.slots@, i as int);
                }
                self.bytes_allocated = self.bytes_allocated + size;
            },
            None => {},
        }
    }
}

} // verus!
