use vstd::prelude::*;

verus! {

/// An interned string: its number in the interner, from 1 on; 0 stands for
/// no string.
#[derive(Hash, Eq, PartialEq, Debug, Copy, Clone, Structural)]
pub struct Symbol(pub u32);

/// The strings interned so far: symbol `n` stands for string `n - 1`.
pub struct Interner {
    next: u32,
    names: Vec<String>,
}

/// Interning `s` into the strings `names`: the strings afterwards, and the
/// symbol of `s` among them.
pub open spec fn spec_intern(names: Seq<Seq<char>>, s: Seq<char>) -> (Seq<Seq<char>>, u32) {
    if names.contains(s) {
        (names, (names.index_of(s) + 1) as u32)
    } else {
        (names.push(s), (names.len() + 1) as u32)
    }
}

/// Interning a string gives a symbol that stands for it, and interning it
/// again gives the same symbol and changes nothing.
pub proof fn law_intern_idempotent(names: Seq<Seq<char>>, s: Seq<char>)
    requires
        names.no_duplicates(),
        names.len() + 1 <= u32::MAX,
    ensures
        ({
            let (after, symbol) = spec_intern(names, s);
            let (again, symbol2) = spec_intern(after, s);
            &&& 1 <= symbol <= after.len()
            &&& after[symbol - 1] == s
            &&& again == after
            &&& symbol2 == symbol
            &&& after.no_duplicates()
        }),
{
    let (after, symbol) = spec_intern(names, s);
    if names.contains(s) {
    } else {
        assert(after.contains(s)) by {
            assert(after[names.len() as int] == s);
        }
        assert forall|i: int, j: int| 0 <= i < after.len() && 0 <= j < after.len() && i != j
            implies after[i] != after[j] by {
            if i < names.len() && j < names.len() {
            } else if i == names.len() {
                assert(names[j] == after[j]);
                if after[i] == after[j] {
                    assert(names.contains(s)) by { assert(names[j] == s); }
                }
            } else {
                assert(names[i] == after[i]);
                if after[i] == after[j] {
                    assert(names.contains(s)) by { assert(names[i] == s); }
                }
            }
        }
        assert(after.index_of(s) == names.len()) by {
            if after.index_of(s) < names.len() {
                assert(names[after.index_of(s)] == s);
            }
        }
    }
}

/// Interning two strings one after the other gives them the same symbol
/// exactly when they are the same string.
pub proof fn law_intern_distinct(names: Seq<Seq<char>>, s: Seq<char>, t: Seq<char>)
    requires
        names.no_duplicates(),
        names.len() + 2 <= u32::MAX,
    ensures
        ({
            let (after, x) = spec_intern(names, s);
            let (_, y) = spec_intern(after, t);
            x == y <==> s == t
        }),
{
    law_intern_idempotent(names, s);
    let (after, x) = spec_intern(names, s);
    law_intern_idempotent(after, t);
    let (again, y) = spec_intern(after, t);
    assert(again[x - 1] == after[x - 1]);
}

impl Symbol {
    /// The symbol that stands for no string.
    pub fn invalid() -> (res: Symbol)
        ensures
            res.0 == 0,
    {
        Symbol(0)
    }

    /// The string the symbol stands for.
    pub fn to_string(self, interner: &Interner) -> (res: String)
        requires
            interner.wf(),
            1 <= self.0 <= interner.spec_names().len(),
        ensures
            res@ == interner.spec_names()[self.0 - 1],
    {
        proof { interner.lemma_index(self.0 as int - 1); }
        interner.names[self.0 as usize - 1].clone()
    }
}

impl Interner {
    /// The strings interned, in the order of their symbols.
    pub closed spec fn spec_names(&self) -> Seq<Seq<char>> {
        self.names@.map_values(|s: String| s@)
    }

    /// Each string is interned once, and the next symbol follows the last.
    pub closed spec fn wf(&self) -> bool {
        &&& self.spec_names().no_duplicates()
        &&& self.next as int == self.names@.len() + 1
    }

    /// A well-formed interner holds each string once.
    pub proof fn lemma_wf(&self)
        requires
            self.wf(),
        ensures
            self.spec_names().no_duplicates(),
    {
    }

    proof fn lemma_index(&self, i: int)
        requires
            0 <= i < self.names@.len(),
        ensures
            self.spec_names()[i] == self.names@[i]@,
            self.spec_names().len() == self.names@.len(),
    {
    }

    /// An interner with no string.
    pub fn new() -> (res: Interner)
        ensures
            res.wf(),
            res.spec_names() == Seq::<Seq<char>>::empty(),
    {
        let res = Interner { next: 1, names: Vec::new() };
        proof { assert(res.spec_names() =~= Seq::<Seq<char>>::empty()); }
        res
    }

    /// The symbol of `string`, interning it if it is new.
    pub fn intern(&mut self, string: &str) -> (res: Symbol)
        requires
            old(self).wf(),
            old(self).spec_names().len() + 1 < u32::MAX,
        ensures
            final(self).wf(),
            (final(self).spec_names(), res.0) == spec_intern(old(self).spec_names(), string@),
    {
        let n = self.names.len();
        let mut i: usize = 0;
        while i < n
            invariant
                n == self.names@.len(),
                i <= n,
                *self == *old(self),
                self.wf(),
                old(self).spec_names().len() + 1 < u32::MAX,
                forall|j: int| 0 <= j < i ==> #[trigger] self.spec_names()[j] != string@,
            decreases n - i,
        {
            if crate::text::str_eq(self.names[i].as_str(), string) {
                proof {
                    self.lemma_index(i as int);
                    assert(self.spec_names().contains(string@));
                    let k = self.spec_names().index_of(string@);
                    if k != i {
                        assert(self.spec_names()[k] == self.spec_names()[i as int]);
                    }
                }
                return Symbol(i as u32 + 1);
            }
            proof { self.lemma_index(i as int); }
            i = i + 1;
        }
        proof {
            assert(!self.spec_names().contains(string@)) by {
                if self.spec_names().contains(string@) {
                    let k = choose|k: int| 0 <= k < self.spec_names().len() && self.spec_names()[k] == string@;
                    assert(self.spec_names()[k] != string@);
                }
            }
        }
        let symbol = Symbol(self.next);
        self.next = self.next + 1;
        self.names.push(string.to_string());
        proof {
            let before = old(self).spec_names();
            assert(self.spec_names() =~= before.push(string@));
            assert(self.spec_names().no_duplicates()) by {
                assert forall|a: int, b: int| 0 <= a < self.spec_names().len() && 0 <= b < self.spec_names().len() && a != b
                    implies self.spec_names()[a] != self.spec_names()[b] by {
                    if a == before.len() {
                        assert(self.spec_names()[b] == before[b]);
                    } else if b == before.len() {
                        assert(self.spec_names()[a] == before[a]);
                    }
                }
            }
        }
        symbol
    }
}

/// Interns `string` in `interner`.
pub fn intern(interner: &mut Interner, string: &str) -> (res: Symbol)
    requires
        old(interner).wf(),
        old(interner).spec_names().len() + 1 < u32::MAX,
    ensures
        final(interner).wf(),
        (final(interner).spec_names(), res.0) == spec_intern(old(interner).spec_names(), string@),
{
    interner.intern(string)
}

} // verus!
