use vstd::prelude::*;
use crate::bettervm::Symbol;

verus! {

/// A slot of a [`Table`]: a key and its value, or no key (symbol 0).
#[derive(Copy, Clone)]
struct Entry<V> {
    key: u32,
    value: V,
}

/// A map from symbols to values: open addressing with linear probing over
/// a power-of-two number of slots, grown to keep them at most three
/// quarters full.
pub struct Table<V> {
    count: usize,
    capacity: usize,
    max_capacity: usize,
    entries: Vec<Entry<V>>,
}

/// `n` is a power of two.
pub open spec fn is_pow2(n: nat) -> bool
    decreases n,
{
    if n == 1 {
        true
    } else if n < 2 || n % 2 != 0 {
        false
    } else {
        is_pow2(n / 2)
    }
}

/// Masking with `cap - 1` takes the remainder by a power of two.
proof fn lemma_mask_mod(x: usize, cap: usize)
    requires
        is_pow2(cap as nat),
    ensures
        x & ((cap - 1) as usize) == x % cap,
    decreases cap,
{
    if cap == 1 {
        assert(x & 0usize == 0usize) by (bit_vector);
    } else {
        let half = (cap / 2) as usize;
        lemma_mask_mod(x / 2, half);
        assert(cap == 2 * half);
        let m = (half - 1) as usize;
        let c = cap;
        assert(x & ((c - 1) as usize) == 2 * ((x / 2) & m) + x % 2) by (bit_vector)
            requires
                m == half - 1,
                half >= 1,
                c == 2 * half;
        vstd::arithmetic::div_mod::lemma_mod_breakdown(x as int, 2, half as int);
    }
}

proof fn lemma_pow2_facts(n: nat)
    requires
        is_pow2(n),
        n >= 4,
    ensures
        n % 4 == 0,
        is_pow2(2 * n),
        (n / 4) * 3 < n,
        (n / 4) * 3 >= 3,
    decreases n,
{
    assert(is_pow2(2 * n)) by {
        assert((2 * n) / 2 == n);
    }
    if n > 4 {
        assert(n / 2 >= 4) by {
            if n / 2 < 4 {
                assert(n == 6 || n / 2 == 2 || n / 2 == 3 || n / 2 == 1 || n < 8);
                assert(is_pow2(n / 2));
            }
        }
        lemma_pow2_facts(n / 2);
    }
}

proof fn lemma_pow2_pos(n: nat)
    requires
        is_pow2(n),
    ensures
        n >= 1,
{
}

proof fn lemma_mod_bounds(a: int, cap: int)
    requires
        cap > 0,
    ensures
        0 <= a % cap < cap,
        a % cap == a ==> 0 <= a < cap,
        0 <= a < cap ==> a % cap == a,
{
    assert(0 <= a % cap < cap) by (nonlinear_arith)
        requires
            cap > 0;
    if 0 <= a < cap {
        vstd::arithmetic::div_mod::lemma_small_mod(a as nat, cap as nat);
    }
}

/// The slot key `key` is looked for first.
pub open spec fn home(key: u32, cap: nat) -> int {
    (key as int) % (cap as int)
}

/// The number of steps from the slot `key` is looked for first to slot `i`.
pub open spec fn distance(key: u32, i: int, cap: nat) -> int {
    (i - home(key, cap) + cap) % (cap as int)
}

/// The number of slots of `entries` that hold a key.
spec fn occupied<V>(entries: Seq<Entry<V>>) -> nat
    decreases entries.len(),
{
    if entries.len() == 0 {
        0
    } else {
        occupied(entries.drop_last()) + if entries.last().key != 0 { 1nat } else { 0nat }
    }
}

proof fn lemma_all_occupied<V>(entries: Seq<Entry<V>>)
    requires
        forall|i: int| 0 <= i < entries.len() ==> (#[trigger] entries[i]).key != 0,
    ensures
        occupied(entries) == entries.len(),
    decreases entries.len(),
{
    if entries.len() > 0 {
        lemma_all_occupied(entries.drop_last());
    }
}

/// Filling an empty slot adds one to the slots occupied; rewriting an
/// occupied one keeps them.
proof fn lemma_occupied_update<V>(entries: Seq<Entry<V>>, i: int, e: Entry<V>)
    requires
        0 <= i < entries.len(),
        e.key != 0,
    ensures
        entries[i].key == 0 ==> occupied(entries.update(i, e)) == occupied(entries) + 1,
        entries[i].key != 0 ==> occupied(entries.update(i, e)) == occupied(entries),
    decreases entries.len(),
{
    let u = entries.update(i, e);
    if i == entries.len() - 1 {
        assert(u.drop_last() =~= entries.drop_last());
    } else {
        assert(u.drop_last() =~= entries.drop_last().update(i, e));
        lemma_occupied_update(entries.drop_last(), i, e);
    }
}

/// Some slot of `entries` holds no key.
proof fn lemma_free_slot<V>(entries: Seq<Entry<V>>)
    requires
        occupied(entries) < entries.len(),
    ensures
        exists|i: int| 0 <= i < entries.len() && (#[trigger] entries[i]).key == 0,
{
    if forall|i: int| 0 <= i < entries.len() ==> (#[trigger] entries[i]).key != 0 {
        lemma_all_occupied(entries);
    }
}

/// The slots of `entries` form a linear-probing table: keys are distinct,
/// and every slot between a key's first slot and its own holds a key.
spec fn probing<V>(entries: Seq<Entry<V>>) -> bool {
    let cap = entries.len();
    &&& forall|i: int, j: int| 0 <= i < cap && 0 <= j < cap && i != j && (#[trigger] entries[i]).key != 0
        ==> entries[i].key != (#[trigger] entries[j]).key
    &&& forall|i: int, t: int| 0 <= i < cap && (#[trigger] entries[i]).key != 0 && 0 <= t < distance(entries[i].key, i, cap)
        ==> (#[trigger] entries[(home(entries[i].key, cap) + t) % (cap as int)]).key != 0
}

/// `v` is the value of some key of `m`.
pub open spec fn is_value_of<V>(m: Map<u32, V>, v: V) -> bool {
    exists|k: u32| #[trigger] m.contains_key(k) && m[k] == v
}

/// The map that the slots of `entries` hold.
spec fn entries_map<V>(entries: Seq<Entry<V>>) -> Map<u32, V> {
    Map::new(
        |k: u32| k != 0 && exists|i: int| 0 <= i < entries.len() && entries[i].key == k,
        |k: u32| entries[choose|i: int| 0 <= i < entries.len() && entries[i].key == k].value,
    )
}

/// The slot where `key` is, or the free slot where it would go.
fn find_entry<V: Copy>(capacity: usize, entries: &Vec<Entry<V>>, key: u32) -> (res: usize)
    requires
        key != 0,
        entries@.len() == capacity,
        is_pow2(capacity as nat),
        probing(entries@),
        exists|i: int| 0 <= i < capacity && (#[trigger] entries@[i]).key == 0,
    ensures
        res < capacity,
        entries@[res as int].key == key || entries@[res as int].key == 0,
        forall|t: int| 0 <= t < distance(key, res as int, capacity as nat)
            ==> (#[trigger] entries@[(home(key, capacity as nat) + t) % (capacity as int)]).key != 0
                && entries@[(home(key, capacity as nat) + t) % (capacity as int)].key != key,
        entries@[res as int].key == 0 ==> forall|i: int| 0 <= i < capacity ==> (#[trigger] entries@[i]).key != key,
{
    let ghost cap = capacity as int;
    proof { lemma_pow2_pos(capacity as nat); }
    let mask = capacity - 1;
    proof { lemma_mask_mod(key as usize, capacity); }
    let mut index = (key as usize) & mask;
    let ghost mut t: int = 0;
    proof {
        let h = home(key, capacity as nat);
        lemma_mod_bounds(key as int, cap);
        lemma_mod_bounds(h, cap);
        assert(h + 0 == h);
    }
    loop
        invariant
            key != 0,
            cap == capacity as int,
            entries@.len() == capacity,
            is_pow2(capacity as nat),
            mask == capacity - 1,
            probing(entries@),
            exists|i: int| 0 <= i < capacity && (#[trigger] entries@[i]).key == 0,
            0 <= t < cap,
            index == (home(key, capacity as nat) + t) % cap,
            forall|s: int| 0 <= s < t ==> (#[trigger] entries@[(home(key, capacity as nat) + s) % cap]).key != 0
                && entries@[(home(key, capacity as nat) + s) % cap].key != key,
        decreases cap - t,
    {
        proof {
            lemma_pow2_pos(capacity as nat);
            lemma_mod_bounds(home(key, capacity as nat) + t, cap);
            lemma_mod_bounds(key as int, cap);
        }
        let entry_key = entries[index].key;
        if entry_key == key || entry_key == 0 {
            proof {
                assert(distance(key, index as int, capacity as nat) == t) by (nonlinear_arith)
                    requires
                        index == (home(key, capacity as nat) + t) % cap,
                        0 <= home(key, capacity as nat) < cap,
                        0 <= t < cap,
                        distance(key, index as int, capacity as nat) == (index - home(key, capacity as nat) + cap) % cap;
                if entry_key == 0 {
                    assert forall|i: int| 0 <= i < capacity implies (#[trigger] entries@[i]).key != key by {
                        if entries@[i].key == key {
                            // `key` would sit past a free slot on its own probe path.
                            let d = distance(key, i, capacity as nat);
                            assert(d == t || d != t);
                            if d < t {
                                assert(entries@[(home(key, capacity as nat) + d) % cap].key != key);
                                assert((home(key, capacity as nat) + d) % cap == i) by (nonlinear_arith)
                                    requires
                                        d == (i - home(key, capacity as nat) + cap) % cap,
                                        0 <= i < cap,
                                        0 <= home(key, capacity as nat) < cap;
                            } else if d == t {
                                assert((home(key, capacity as nat) + d) % cap == i) by (nonlinear_arith)
                                    requires
                                        d == (i - home(key, capacity as nat) + cap) % cap,
                                        0 <= i < cap,
                                        0 <= home(key, capacity as nat) < cap;
                            } else {
                                assert(home(entries@[i].key, capacity as nat) == home(key, capacity as nat));
                                assert(0 <= t < distance(entries@[i].key, i, capacity as nat));
                                assert(entries@[(home(entries@[i].key, capacity as nat) + t) % cap].key != 0);
                                assert(entries@[index as int].key == 0);
                            }
                        }
                    }
                }
            }
            return index;
        }
        proof {
            lemma_mask_mod((index + 1) as usize, capacity);
            assert((index + 1) % cap == (home(key, capacity as nat) + t + 1) % cap) by (nonlinear_arith)
                requires
                    index == (home(key, capacity as nat) + t) % cap,
                    cap > 0;
            if t + 1 == cap {
                // Every slot was visited and holds a key: there is none free.
                let e = choose|i: int| 0 <= i < capacity && entries@[i].key == 0;
                let s = (e - home(key, capacity as nat) + cap) % cap;
                assert((home(key, capacity as nat) + s) % cap == e) by (nonlinear_arith)
                    requires
                        s == (e - home(key, capacity as nat) + cap) % cap,
                        0 <= e < cap,
                        0 <= home(key, capacity as nat) < cap;
                assert(0 <= s < cap) by (nonlinear_arith)
                    requires
                        s == (e - home(key, capacity as nat) + cap) % cap,
                        cap > 0;
                if s < t {
                    assert(entries@[(home(key, capacity as nat) + s) % cap].key != 0);
                }
                assert(false);
            }
        }
        index = (index + 1) & mask;
        proof { t = t + 1; }
    }
}

/// Writing key `e.key` into slot `r`, where that key is or would go, keeps
/// the slots a linear-probing table, and maps the key to the new value.
proof fn lemma_write<V>(entries: Seq<Entry<V>>, r: int, e: Entry<V>)
    requires
        probing(entries),
        0 <= r < entries.len(),
        e.key != 0,
        entries[r].key == e.key || entries[r].key == 0,
        entries[r].key == 0 ==> forall|i: int| 0 <= i < entries.len() ==> (#[trigger] entries[i]).key != e.key,
        forall|t: int| 0 <= t < distance(e.key, r, entries.len())
            ==> (#[trigger] entries[(home(e.key, entries.len()) + t) % (entries.len() as int)]).key != 0,
    ensures
        probing(entries.update(r, e)),
        entries_map(entries.update(r, e)) == entries_map(entries).insert(e.key, e.value),
{
    let u = entries.update(r, e);
    let cap = entries.len();
    assert forall|i: int, j: int| 0 <= i < cap && 0 <= j < cap && i != j && (#[trigger] u[i]).key != 0
        implies u[i].key != (#[trigger] u[j]).key by {
        if i != r && j != r {
            assert(entries[i].key != entries[j].key);
        } else if i == r {
            if entries[r].key != 0 {
                assert(entries[r].key != entries[j].key);
            }
        } else {
            if entries[r].key != 0 {
                assert(entries[i].key != entries[r].key);
            }
        }
    }
    assert forall|i: int, t: int| 0 <= i < cap && (#[trigger] u[i]).key != 0 && 0 <= t < distance(u[i].key, i, cap)
        implies (#[trigger] u[(home(u[i].key, cap) + t) % (cap as int)]).key != 0 by {
        let p = (home(u[i].key, cap) + t) % (cap as int);
        if i == r {
            assert(entries[p].key != 0);
        } else {
            assert(entries[i].key != 0);
            assert(entries[(home(entries[i].key, cap) + t) % (cap as int)].key != 0);
        }
    }
    let old_map = entries_map(entries);
    let new_map = entries_map(u);
    assert forall|k: u32| #[trigger] new_map.contains_key(k) == old_map.insert(e.key, e.value).contains_key(k) by {
        if k != 0 && k != e.key {
            if new_map.contains_key(k) {
                let j = choose|j: int| 0 <= j < u.len() && u[j].key == k;
                assert(entries[j].key == k);
            }
            if old_map.contains_key(k) {
                let j = choose|j: int| 0 <= j < entries.len() && entries[j].key == k;
                assert(u[j].key == k);
            }
        } else if k == e.key {
            assert(u[r].key == k);
        }
    }
    assert forall|k: u32| #[trigger] new_map.contains_key(k) implies new_map[k] == old_map.insert(e.key, e.value)[k] by {
        let j = choose|j: int| 0 <= j < u.len() && u[j].key == k;
        if k == e.key {
            if j != r {
                assert(u[r].key == u[j].key);
            }
        } else {
            assert(entries[j].key == k);
            let j0 = choose|j0: int| 0 <= j0 < entries.len() && entries[j0].key == k;
            if j0 != j {
                assert(entries[j0].key == entries[j].key);
            }
        }
    }
    assert(new_map =~= old_map.insert(e.key, e.value));
}

/// The slots occupied in a prefix are at most those occupied in all.
proof fn lemma_occupied_prefix<V>(entries: Seq<Entry<V>>, i: int)
    requires
        0 <= i <= entries.len(),
    ensures
        occupied(entries.subrange(0, i)) <= occupied(entries),
    decreases entries.len() - i,
{
    if i < entries.len() {
        lemma_occupied_prefix(entries, i + 1);
        assert(entries.subrange(0, i + 1).drop_last() =~= entries.subrange(0, i));
    } else {
        assert(entries.subrange(0, i) =~= entries);
    }
}

/// Slots that hold no key map nothing.
proof fn lemma_empty_map<V>(entries: Seq<Entry<V>>)
    requires
        forall|i: int| 0 <= i < entries.len() ==> (#[trigger] entries[i]).key == 0,
    ensures
        entries_map(entries) == Map::<u32, V>::empty(),
        occupied(entries) == 0,
        probing(entries),
    decreases entries.len(),
{
    assert(entries_map(entries) =~= Map::<u32, V>::empty());
    if entries.len() > 0 {
        lemma_empty_map(entries.drop_last());
    }
}

/// Adding a slot that holds a new key maps it; an empty slot maps nothing.
proof fn lemma_map_push<V>(entries: Seq<Entry<V>>, e: Entry<V>)
    requires
        e.key != 0 ==> forall|j: int| 0 <= j < entries.len() ==> (#[trigger] entries[j]).key != e.key,
        forall|i: int, j: int| 0 <= i < entries.len() && 0 <= j < entries.len() && i != j && (#[trigger] entries[i]).key != 0
            ==> entries[i].key != (#[trigger] entries[j]).key,
    ensures
        e.key != 0 ==> entries_map(entries.push(e)) == entries_map(entries).insert(e.key, e.value),
        e.key == 0 ==> entries_map(entries.push(e)) == entries_map(entries),
{
    let p = entries.push(e);
    let old_map = entries_map(entries);
    let new_map = entries_map(p);
    if e.key != 0 {
        let m = old_map.insert(e.key, e.value);
        assert forall|k: u32| #[trigger] new_map.contains_key(k) == m.contains_key(k) by {
            if k != 0 && k != e.key && new_map.contains_key(k) {
                let j = choose|j: int| 0 <= j < p.len() && p[j].key == k;
                assert(entries[j].key == k);
            }
            if k != 0 && k != e.key && old_map.contains_key(k) {
                let j = choose|j: int| 0 <= j < entries.len() && entries[j].key == k;
                assert(p[j].key == k);
            }
            if k == e.key {
                assert(p[entries.len() as int].key == k);
            }
        }
        assert forall|k: u32| #[trigger] new_map.contains_key(k) implies new_map[k] == m[k] by {
            let j = choose|j: int| 0 <= j < p.len() && p[j].key == k;
            if k == e.key {
                if j < entries.len() {
                    assert(entries[j].key == e.key);
                }
            } else {
                let j0 = choose|j0: int| 0 <= j0 < entries.len() && entries[j0].key == k;
                assert(p[j0].key == k);
                assert(j < entries.len());
                assert(entries[j].key == k);
                if j != j0 {
                    assert(entries[j].key != entries[j0].key);
                }
            }
        }
        assert(new_map =~= m);
    } else {
        assert forall|k: u32| #[trigger] new_map.contains_key(k) == old_map.contains_key(k) by {
            if new_map.contains_key(k) {
                let j = choose|j: int| 0 <= j < p.len() && p[j].key == k;
                assert(entries[j].key == k);
            }
            if old_map.contains_key(k) {
                let j = choose|j: int| 0 <= j < entries.len() && entries[j].key == k;
                assert(p[j].key == k);
            }
        }
        assert forall|k: u32| #[trigger] new_map.contains_key(k) implies new_map[k] == old_map[k] by {
            let j = choose|j: int| 0 <= j < p.len() && p[j].key == k;
            assert(entries[j].key == k);
            let j0 = choose|j0: int| 0 <= j0 < entries.len() && entries[j0].key == k;
            if j != j0 {
                assert(entries[j].key != entries[j0].key);
            }
        }
        assert(new_map =~= old_map);
    }
}

impl<V: Copy + Default> Table<V> {
    /// The map the table holds, by symbol number.
    pub closed spec fn spec_map(&self) -> Map<u32, V> {
        entries_map(self.entries@)
    }

    /// The number of keys held.
    pub closed spec fn spec_count(&self) -> nat {
        self.count as nat
    }

    /// The number of slots.
    pub closed spec fn spec_capacity(&self) -> nat {
        self.capacity as nat
    }

    /// The slots are a power of two, at least 8, and at most three quarters
    /// of them hold keys; the keys form a linear-probing table.
    pub closed spec fn wf(&self) -> bool {
        &&& self.entries@.len() == self.capacity
        &&& is_pow2(self.capacity as nat)
        &&& self.capacity >= 8
        &&& self.max_capacity == (self.capacity / 4) * 3
        &&& self.count == occupied(self.entries@)
        &&& self.count <= self.max_capacity
        &&& probing(self.entries@)
    }

    /// `n` slots holding no key.
    fn empty_entries(n: usize) -> (res: Vec<Entry<V>>)
        ensures
            res@.len() == n,
            forall|i: int| 0 <= i < n ==> (#[trigger] res@[i]).key == 0,
    {
        let mut entries: Vec<Entry<V>> = Vec::new();
        let mut i: usize = 0;
        while i < n
            invariant
                i <= n,
                entries@.len() == i,
                forall|j: int| 0 <= j < i ==> (#[trigger] entries@[j]).key == 0,
            decreases n - i,
        {
            entries.push(Entry { key: 0, value: V::default() });
            i = i + 1;
        }
        entries
    }

    /// An empty table of 8 slots.
    pub fn new() -> (res: Table<V>)
        ensures
            res.wf(),
            res.spec_map() == Map::<u32, V>::empty(),
            res.spec_capacity() == 8,
            res.spec_count() == 0,
    {
        let entries = Self::empty_entries(8);
        proof {
            lemma_empty_map(entries@);
            assert(is_pow2(8)) by {
                assert(is_pow2(1));
                assert(is_pow2(2)) by { assert(2nat / 2 == 1); }
                assert(is_pow2(4)) by { assert(4nat / 2 == 2); }
                assert(8nat / 2 == 4);
            }
        }
        Table { count: 0, capacity: 8, max_capacity: 6, entries }
    }

    /// The number of slots.
    pub fn capacity(&self) -> (res: usize)
        ensures
            res == self.spec_capacity(),
    {
        self.capacity
    }

    /// The key has a value.
    pub fn has(&self, key: Symbol) -> (res: bool)
        requires
            self.wf(),
        ensures
            res == self.spec_map().contains_key(key.id()),
    {
        if self.count == 0 || key.number() == 0 {
            proof {
                if self.count == 0 {
                    assert forall|i: int| 0 <= i < self.entries@.len() implies (#[trigger] self.entries@[i]).key == 0 by {
                        if self.entries@[i].key != 0 {
                            lemma_occupied_update(self.entries@, i, self.entries@[i]);
                            lemma_occupied_nonzero(self.entries@, i);
                        }
                    }
                }
            }
            return false;
        }
        proof {
            lemma_pow2_facts(self.capacity as nat);
            lemma_free_slot(self.entries@);
        }
        let index = find_entry(self.capacity, &self.entries, key.number());
        self.entries[index].key != 0
    }

    /// The value of the key, if it has one.
    pub fn get(&self, key: Symbol) -> (res: Option<V>)
        requires
            self.wf(),
        ensures
            res == if self.spec_map().contains_key(key.id()) { Some(self.spec_map()[key.id()]) } else { None::<V> },
    {
        if self.count == 0 || key.number() == 0 {
            proof {
                if self.count == 0 {
                    assert forall|i: int| 0 <= i < self.entries@.len() implies (#[trigger] self.entries@[i]).key == 0 by {
                        if self.entries@[i].key != 0 {
                            lemma_occupied_nonzero(self.entries@, i);
                        }
                    }
                }
            }
            return None;
        }
        proof {
            lemma_pow2_facts(self.capacity as nat);
            lemma_free_slot(self.entries@);
        }
        let index = find_entry(self.capacity, &self.entries, key.number());
        let entry = self.entries[index];
        if entry.key == 0 {
            return None;
        }
        proof {
            let k = key.id();
            let j = choose|j: int| 0 <= j < self.entries@.len() && self.entries@[j].key == k;
            if j != index {
                assert(self.entries@[j].key == self.entries@[index as int].key);
            }
        }
        Some(entry.value)
    }

    /// Doubles the slots and puts every key back.
    fn adjust_capacity(&mut self)
        requires
            old(self).wf(),
            old(self).spec_capacity() * 2 <= usize::MAX,
        ensures
            final(self).wf(),
            final(self).spec_map() == old(self).spec_map(),
            final(self).spec_capacity() == old(self).spec_capacity() * 2,
            final(self).count == old(self).count,
    {
        let new_capacity = if self.capacity < 8 { 8 } else { self.capacity * 2 };
        let mut new_entries = Self::empty_entries(new_capacity);
        proof {
            lemma_empty_map(new_entries@);
            lemma_pow2_facts(self.capacity as nat);
            lemma_pow2_facts(new_capacity as nat);
            assert(self.entries@.subrange(0, 0) =~= Seq::<Entry<V>>::empty());
            lemma_empty_map(self.entries@.subrange(0, 0));
        }
        let ghost old_entries = self.entries@;
        let mut index: usize = 0;
        while index < self.capacity
            invariant
                *self == *old(self),
                self.wf(),
                old_entries == self.entries@,
                new_capacity == 2 * self.capacity,
                new_entries@.len() == new_capacity,
                is_pow2(new_capacity as nat),
                index <= self.capacity,
                probing(new_entries@),
                occupied(new_entries@) == occupied(old_entries.subrange(0, index as int)),
                entries_map(new_entries@) == entries_map(old_entries.subrange(0, index as int)),
                forall|i: int| 0 <= i < new_entries@.len() && (#[trigger] new_entries@[i]).key != 0
                    ==> exists|j: int| 0 <= j < index && old_entries[j].key == new_entries@[i].key,
            decreases self.capacity - index,
        {
            let entry = self.entries[index];
            let ghost prefix = old_entries.subrange(0, index as int);
            proof {
                assert(old_entries.subrange(0, index + 1) =~= prefix.push(entry));
                assert(prefix.push(entry).drop_last() =~= prefix);
                assert forall|i: int, j: int| 0 <= i < prefix.len() && 0 <= j < prefix.len() && i != j && (#[trigger] prefix[i]).key != 0
                    implies prefix[i].key != (#[trigger] prefix[j]).key by {
                    assert(old_entries[i].key != old_entries[j].key);
                }
            }
            if entry.key != 0 {
                proof {
                    lemma_occupied_prefix(old_entries, index as int);
                    lemma_pow2_facts(self.capacity as nat);
                    lemma_free_slot(new_entries@);
                    assert forall|i: int| 0 <= i < new_entries@.len() implies (#[trigger] new_entries@[i]).key != entry.key by {
                        if new_entries@[i].key == entry.key {
                            let j = choose|j: int| 0 <= j < index && old_entries[j].key == new_entries@[i].key;
                            assert(old_entries[j].key == old_entries[index as int].key);
                        }
                    }
                    assert forall|j: int| 0 <= j < prefix.len() implies (#[trigger] prefix[j]).key != entry.key by {
                        assert(old_entries[j].key != old_entries[index as int].key);
                    }
                    lemma_map_push(prefix, entry);
                }
                let new_index = find_entry(new_capacity, &new_entries, entry.key);
                let ghost before = new_entries@;
                proof {
                    lemma_write(before, new_index as int, entry);
                    lemma_occupied_update(before, new_index as int, entry);
                }
                new_entries.set(new_index, entry);
                proof {
                    assert forall|i: int| 0 <= i < new_entries@.len() && (#[trigger] new_entries@[i]).key != 0
                        implies exists|j: int| 0 <= j < index + 1 && old_entries[j].key == new_entries@[i].key by {
                        if i == new_index {
                            assert(old_entries[index as int].key == new_entries@[i].key);
                        } else {
                            assert(new_entries@[i] == before[i]);
                        }
                    }
                }
            } else {
                proof { lemma_map_push(prefix, entry); }
            }
            index = index + 1;
        }
        proof {
            assert(old_entries.subrange(0, self.capacity as int) =~= old_entries);
        }
        self.max_capacity = new_capacity / 4 * 3;
        self.capacity = new_capacity;
        self.entries = new_entries;
    }

    /// Gives the key a value; `true` when it had none before.  Grows the
    /// slots first when one more key would fill more than three quarters.
    pub fn set(&mut self, key: Symbol, value: V) -> (res: bool)
        requires
            old(self).wf(),
            key.id() != 0,
            old(self).spec_capacity() * 2 <= usize::MAX,
        ensures
            final(self).wf(),
            final(self).spec_map() == old(self).spec_map().insert(key.id(), value),
            res == !old(self).spec_map().contains_key(key.id()),
            final(self).spec_count() == old(self).spec_count() + if res { 1nat } else { 0nat },
            final(self).spec_capacity() == if old(self).spec_count() + 1 > old(self).spec_capacity() / 4 * 3 {
                old(self).spec_capacity() * 2
            } else {
                old(self).spec_capacity()
            },
    {
        if self.count + 1 > self.max_capacity {
            self.adjust_capacity();
        }
        proof {
            lemma_pow2_facts(self.capacity as nat);
            lemma_free_slot(self.entries@);
        }
        let index = find_entry(self.capacity, &self.entries, key.number());
        let is_new = self.entries[index].key == 0;
        let entry = Entry { key: key.number(), value };
        let ghost before = self.entries@;
        proof {
            lemma_write(before, index as int, entry);
            lemma_occupied_update(before, index as int, entry);
            if !is_new {
                assert(entries_map(before).contains_key(key.id())) by {
                    assert(before[index as int].key == key.id());
                }
            } else {
                assert(!entries_map(before).contains_key(key.id()));
            }
        }
        if is_new {
            self.count = self.count + 1;
        }
        self.entries.set(index, entry);
        is_new
    }

    /// The values of the keys, in slot order: every value of the map is
    /// among them, and each of them is the value of a key.
    pub fn values(&self) -> (res: Vec<V>)
        requires
            self.wf(),
        ensures
            forall|k: u32| #[trigger] self.spec_map().contains_key(k) ==> res@.contains(self.spec_map()[k]),
            forall|j: int| 0 <= j < res@.len() ==> is_value_of(self.spec_map(), #[trigger] res@[j]),
    {
        let mut res: Vec<V> = Vec::new();
        let mut i: usize = 0;
        while i < self.entries.len()
            invariant
                self.wf(),
                i <= self.entries@.len(),
                forall|j: int| 0 <= j < i && (#[trigger] self.entries@[j]).key != 0
                    ==> res@.contains(self.entries@[j].value),
                forall|j: int| 0 <= j < res@.len() ==> is_value_of(self.spec_map(), #[trigger] res@[j]),
            decreases self.entries@.len() - i,
        {
            if self.entries[i].key != 0 {
                let ghost before = res@;
                proof {
                    let k = self.entries@[i as int].key;
                    assert(self.spec_map().contains_key(k));
                    let c = choose|c: int| 0 <= c < self.entries@.len() && self.entries@[c].key == k;
                    assert(c == i);
                    assert(self.spec_map()[k] == self.entries@[i as int].value);
                }
                res.push(self.entries[i].value);
                proof {
                    assert forall|j: int| 0 <= j < res@.len() implies is_value_of(self.spec_map(), #[trigger] res@[j]) by {
                        if j < before.len() {
                            assert(res@[j] == before[j]);
                        } else {
                            let k = self.entries@[i as int].key;
                            assert(self.spec_map().contains_key(k) && self.spec_map()[k] == res@[j]);
                        }
                    }
                    assert forall|j: int| 0 <= j < i + 1 && (#[trigger] self.entries@[j]).key != 0
                        implies res@.contains(self.entries@[j].value) by {
                        if j < i {
                            let m = choose|m: int| 0 <= m < before.len() && before[m] == self.entries@[j].value;
                            assert(res@[m] == before[m]);
                        } else {
                            assert(res@[before.len() as int] == self.entries@[j].value);
                        }
                    }
                }
            }
            i = i + 1;
        }
        proof {
            assert forall|k: u32| #[trigger] self.spec_map().contains_key(k) implies res@.contains(self.spec_map()[k]) by {
                let j = choose|j: int| 0 <= j < self.entries@.len() && self.entries@[j].key == k;
                assert(self.entries@[j].key != 0);
            }
        }
        res
    }
}

/// A slot that holds a key counts among those occupied.
proof fn lemma_occupied_nonzero<V>(entries: Seq<Entry<V>>, i: int)
    requires
        0 <= i < entries.len(),
        entries[i].key != 0,
    ensures
        occupied(entries) >= 1,
    decreases entries.len(),
{
    if i < entries.len() - 1 {
        lemma_occupied_nonzero(entries.drop_last(), i);
    }
}

/// After a key is set, reading it gives the value set, and every other key
/// keeps what it had.
pub proof fn law_set_then_get<V>(map: Map<u32, V>, key: u32, value: V, other: u32)
    ensures
        map.insert(key, value).contains_key(key),
        map.insert(key, value)[key] == value,
        other != key ==> map.insert(key, value).contains_key(other) == map.contains_key(other),
        other != key && map.contains_key(other) ==> map.insert(key, value)[other] == map[other],
{
}

} // verus!
