use vstd::prelude::*;

verus! {

/// What the interpreter loop does next.
#[derive(PartialEq, Eq, Copy, Clone, Structural)]
pub enum Signal {
    Done,
    More,
    RuntimeError,
}

/// An error that stops the interpreter.
#[derive(Debug, Copy, Clone, PartialEq, Eq, Structural)]
pub enum VmError {
    StackEmpty,
    FrameEmpty,
    StringConstantExpected,
    GlobalNotDefined,
    InvalidCallee,
    IncorrectArity,
    UnexpectedConstant,
    ClosureConstantExpected,
    UnexpectedValue,
    UndefinedProperty,
    Unimplemented,
    /// The value stack or the call frames are full.
    StackOverflow,
    /// A table or the symbol numbers cannot grow any further.
    OutOfMemory,
    /// The host has no module of the name imported.
    UnknownImport,
    /// A list has no element at the index given.
    IndexOutOfRange,
}

/// An interned string, by its number; 0 stands for no string.
#[derive(Hash, Eq, PartialEq, Debug, Copy, Clone, Structural)]
pub struct Symbol(u32);

impl Symbol {
    /// The number of the symbol.
    pub closed spec fn id(self) -> u32 {
        self.0
    }

    /// The symbol that stands for no string.
    pub fn invalid() -> (res: Symbol)
        ensures
            res.id() == 0,
    {
        Symbol(0)
    }

    /// The number of the symbol.
    pub fn number(self) -> (res: u32)
        ensures
            res == self.id(),
    {
        self.0
    }
}

/// A map from strings to symbol numbers, hashed with `fxhash`.
#[verifier::external_body]
pub struct SymbolMap {
    map: fxhash::FxHashMap<String, Symbol>,
}

/// No entry at all.
pub open spec fn no_symbols() -> Map<Seq<char>, u32> {
    Map::empty()
}

/// The entries of a [`SymbolMap`], by the characters of their keys.
pub uninterp spec fn symbol_map_contents(map: SymbolMap) -> Map<Seq<char>, u32>;

/// `FxHashMap::default`: a map with no entry.
#[verifier::external_body]
fn symbol_map_new() -> (res: SymbolMap)
    ensures
        symbol_map_contents(res) == no_symbols(),
{
    SymbolMap { map: fxhash::FxHashMap::default() }
}

/// `HashMap::get`: the number stored under `key`, if any.
#[verifier::external_body]
fn symbol_map_get(map: &SymbolMap, key: &str) -> (res: Option<u32>)
    ensures
        symbol_map_contents(*map).contains_key(key@) ==> res == Some(symbol_map_contents(*map)[key@]),
        !symbol_map_contents(*map).contains_key(key@) ==> res is None,
{
    match map.map.get(key) {
        Some(symbol) => Some(symbol.0),
        None => None,
    }
}

/// `HashMap::insert`: stores `value` under `key`, replacing what was there.
#[verifier::external_body]
fn symbol_map_insert(map: &mut SymbolMap, key: String, value: u32)
    ensures
        symbol_map_contents(*final(map)) == symbol_map_contents(*old(map)).insert(key@, value),
{
    map.map.insert(key, Symbol(value));
}

/// Interns strings as symbols numbered from 1 on, in the order they come.
pub struct Interner {
    next: u32,
    map: SymbolMap,
}

impl Interner {
    /// The symbol number of each string interned.
    pub closed spec fn spec_symbols(&self) -> Map<Seq<char>, u32> {
        symbol_map_contents(self.map)
    }

    /// The number the next new string gets.
    pub closed spec fn spec_next(&self) -> u32 {
        self.next
    }

    /// The numbers given are distinct and below the next one, which is at
    /// least 1.
    pub closed spec fn wf(&self) -> bool {
        &&& self.next >= 1
        &&& forall|s: Seq<char>| #[trigger] self.spec_symbols().contains_key(s)
            ==> 1 <= self.spec_symbols()[s] < self.next
        &&& forall|s: Seq<char>, t: Seq<char>| #[trigger] self.spec_symbols().contains_key(s)
            && #[trigger] self.spec_symbols().contains_key(t) && s != t
            ==> self.spec_symbols()[s] != self.spec_symbols()[t]
    }

    /// The number the next new string gets.
    pub fn next_number(&self) -> (res: u32)
        ensures
            res == self.spec_next(),
    {
        self.next
    }

    /// An interner with no string; the first symbol will be 1.
    pub fn new() -> (res: Interner)
        ensures
            res.wf(),
            res.spec_symbols() == no_symbols(),
            res.spec_next() == 1,
    {
        Interner { next: 1, map: symbol_map_new() }
    }

    /// The symbol of `string`: the one it already has, or the next number.
    pub fn intern(&mut self, string: &str) -> (res: Symbol)
        requires
            old(self).wf(),
            old(self).spec_next() < u32::MAX,
        ensures
            final(self).wf(),
            old(self).spec_symbols().contains_key(string@) ==> {
                &&& res.id() == old(self).spec_symbols()[string@]
                &&& final(self).spec_symbols() == old(self).spec_symbols()
                &&& final(self).spec_next() == old(self).spec_next()
            },
            !old(self).spec_symbols().contains_key(string@) ==> {
                &&& res.id() == old(self).spec_next()
                &&& final(self).spec_symbols() == old(self).spec_symbols().insert(string@, old(self).spec_next())
                &&& final(self).spec_next() == old(self).spec_next() + 1
            },
    {
        match symbol_map_get(&self.map, string) {
            Some(symbol) => Symbol(symbol),
            None => {
                let symbol = Symbol(self.next);
                self.next = self.next + 1;
                symbol_map_insert(&mut self.map, string.to_string(), symbol.0);
                proof {
                    let before = old(self).spec_symbols();
                    let after = self.spec_symbols();
                    assert forall|s: Seq<char>, t: Seq<char>| #[trigger] after.contains_key(s)
                        && #[trigger] after.contains_key(t) && s != t implies after[s] != after[t] by {
                        if s != string@ && t != string@ {
                            assert(before.contains_key(s) && before.contains_key(t));
                        } else if s == string@ {
                            assert(before.contains_key(t));
                        } else {
                            assert(before.contains_key(s));
                        }
                    }
                    assert forall|s: Seq<char>| #[trigger] after.contains_key(s) implies 1 <= after[s] < self.next by {
                        if s != string@ {
                            assert(before.contains_key(s));
                        }
                    }
                }
                symbol
            },
        }
    }
}

/// Every symbol given is numbered from 1 up to the next number.
pub proof fn lemma_symbol_range(interner: Interner, s: Seq<char>)
    requires
        interner.wf(),
        interner.spec_symbols().contains_key(s),
    ensures
        1 <= interner.spec_symbols()[s] < interner.spec_next(),
{
}

/// Interning a string twice gives the same symbol, and distinct strings get
/// distinct symbols.
pub proof fn law_interned_symbols_distinct(interner: Interner, s: Seq<char>, t: Seq<char>)
    requires
        interner.wf(),
        interner.spec_symbols().contains_key(s),
        interner.spec_symbols().contains_key(t),
    ensures
        (interner.spec_symbols()[s] == interner.spec_symbols()[t]) <==> s == t,
{
}

} // verus!
