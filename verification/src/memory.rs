use vstd::prelude::*;
use crate::bettervm::{Interner, Symbol};
use crate::bytecode::{self, Chunk, Constant, Module};
use crate::gc::Gc;
use crate::table::Table;

verus! {

/// A value of the interpreter.  Numbers are of the type `N` that the host
/// computes with; everything else the interpreter handles itself.
#[derive(Copy, Clone)]
pub enum Value<N> {
    Number(N),
    String(Gc),
    Closure(Gc),
    BoundMethod(Gc),
    NativeFunction(Gc),
    Boolean(bool),
    Class(Gc),
    Instance(Gc),
    Import(Gc),
    List(Gc),
    Nil,
}

impl<N: Copy> Default for Value<N> {
    fn default() -> (res: Value<N>)
        ensures
            res is Nil,
    {
        Value::Nil
    }
}

/// `nil` and `false` are false; every other value is true.
pub open spec fn falsey<N>(v: Value<N>) -> bool {
    v is Nil || v == Value::<N>::Boolean(false)
}

/// The two values are of the same kind.
pub open spec fn same_type<N>(a: Value<N>, b: Value<N>) -> bool {
    ||| a is Number && b is Number
    ||| a is Boolean && b is Boolean
    ||| a is String && b is String
    ||| a is NativeFunction && b is NativeFunction
    ||| a is Closure && b is Closure
    ||| a is BoundMethod && b is BoundMethod
    ||| a is Nil && b is Nil
    ||| a is Class && b is Class
    ||| a is Instance && b is Instance
    ||| a is Import && b is Import
    ||| a is List && b is List
}

impl<N: Copy> Value<N> {
    /// Whether the value counts as false in a condition.
    pub fn is_falsey(&self) -> (res: bool)
        ensures
            res == falsey(*self),
    {
        match self {
            Value::Boolean(true) => false,
            Value::Boolean(false) => true,
            Value::Nil => true,
            _ => false,
        }
    }

    /// Whether the two values are of the same kind.
    pub fn is_same_type(a: &Value<N>, b: &Value<N>) -> (res: bool)
        ensures
            res == same_type(*a, *b),
    {
        match (b, a) {
            (Value::Number(_), Value::Number(_)) => true,
            (Value::Boolean(_), Value::Boolean(_)) => true,
            (Value::String(_), Value::String(_)) => true,
            (Value::NativeFunction(_), Value::NativeFunction(_)) => true,
            (Value::Closure(_), Value::Closure(_)) => true,
            (Value::BoundMethod(_), Value::BoundMethod(_)) => true,
            (Value::Nil, Value::Nil) => true,
            (Value::Class(_), Value::Class(_)) => true,
            (Value::Instance(_), Value::Instance(_)) => true,
            (Value::Import(_), Value::Import(_)) => true,
            (Value::List(_), Value::List(_)) => true,
            _ => false,
        }
    }
}

/// A captured variable: still in its stack slot, or moved out of the stack
/// with its value.
#[derive(Copy, Clone)]
pub enum Upvalue<N> {
    Open(usize),
    Closed(Value<N>),
}

impl<N: Copy> Upvalue<N> {
    /// The slot of an open upvalue at or above `index`.
    pub fn is_open_with_range(&self, index: usize) -> (res: Option<usize>)
        ensures
            res == match *self {
                Upvalue::Open(i) => if i >= index { Some(i) } else { None },
                Upvalue::Closed(_) => None,
            },
    {
        match self {
            Upvalue::Open(i) => {
                if *i >= index {
                    Some(*i)
                } else {
                    None
                }
            },
            Upvalue::Closed(_) => None,
        }
    }

    /// The upvalue is open on slot `index`.
    pub fn is_open_with_index(&self, index: usize) -> (res: bool)
        ensures
            res == (*self == Upvalue::<N>::Open(index)),
    {
        match self {
            Upvalue::Open(i) => *i == index,
            Upvalue::Closed(_) => false,
        }
    }

    /// The upvalue is still in its stack slot.
    pub fn is_open(&self) -> (res: bool)
        ensures
            res == (*self is Open),
    {
        match self {
            Upvalue::Open(_) => true,
            Upvalue::Closed(_) => false,
        }
    }
}

/// An instance of a class, with its fields.
pub struct Instance<N> {
    pub class: Gc,
    pub fields: Table<Value<N>>,
}

impl<N: Copy> Instance<N> {
    /// An instance of `class` with no field.
    pub fn new(class: Gc) -> (res: Instance<N>)
        ensures
            res.class == class,
            res.fields.wf(),
            res.fields.spec_map() == Map::<u32, Value<N>>::empty(),
    {
        Instance { class, fields: Table::new() }
    }

    /// The value of a field, if it has one.
    pub fn field(&self, symbol: &Symbol) -> (res: Option<Value<N>>)
        requires
            self.fields.wf(),
        ensures
            res == if self.fields.spec_map().contains_key(symbol.id()) {
                Some(self.fields.spec_map()[symbol.id()])
            } else {
                None::<Value<N>>
            },
    {
        self.fields.get(*symbol)
    }

    /// Gives a field a value.
    pub fn set_field(&mut self, symbol: Symbol, value: Value<N>)
        requires
            old(self).fields.wf(),
            symbol.id() != 0,
            old(self).fields.spec_capacity() * 2 <= usize::MAX,
        ensures
            final(self).class == old(self).class,
            final(self).fields.wf(),
            final(self).fields.spec_map() == old(self).fields.spec_map().insert(symbol.id(), value),
    {
        self.fields.set(symbol, value);
    }
}

/// A class: its name and its methods, each a closure.
pub struct Class {
    pub name: String,
    pub methods: Table<Gc>,
}

impl Class {
    /// A class with no method.
    pub fn new(name: String) -> (res: Class)
        ensures
            res.name == name,
            res.methods.wf(),
            res.methods.spec_map() == Map::<u32, Gc>::empty(),
    {
        Class { name, methods: Table::new() }
    }

    /// The method of that name, if there is one.
    pub fn method(&self, symbol: Symbol) -> (res: Option<Gc>)
        requires
            self.methods.wf(),
        ensures
            res == if self.methods.spec_map().contains_key(symbol.id()) {
                Some(self.methods.spec_map()[symbol.id()])
            } else {
                None::<Gc>
            },
    {
        self.methods.get(symbol)
    }

    /// Gives the class a method.
    pub fn set_method(&mut self, symbol: Symbol, closure: Gc)
        requires
            old(self).methods.wf(),
            symbol.id() != 0,
            old(self).methods.spec_capacity() * 2 <= usize::MAX,
        ensures
            final(self).name == old(self).name,
            final(self).methods.wf(),
            final(self).methods.spec_map() == old(self).methods.spec_map().insert(symbol.id(), closure),
    {
        self.methods.set(symbol, closure);
    }
}

/// A function of an import: its name, its chunk, its arity.
pub struct Function {
    pub name: String,
    pub chunk_index: usize,
    pub import: Gc,
    pub arity: usize,
}

impl Function {
    /// The compiled function `value` of `import`.
    pub fn new(value: &bytecode::Function, import: Gc) -> (res: Function)
        ensures
            res.name == value.name,
            res.chunk_index == value.chunk_index,
            res.arity == value.arity,
            res.import == import,
    {
        Function { name: value.name.clone(), chunk_index: value.chunk_index, arity: value.arity, import }
    }
}

/// A function with the variables it captured.
pub struct Closure {
    pub function: Function,
    pub upvalues: Vec<Gc>,
}

/// A function of the host, called by name.
pub struct NativeFunction {
    pub name: String,
}

/// A method together with the instance it was read from.
#[derive(Copy, Clone)]
pub struct BoundMethod {
    pub receiver: Gc,
    pub method: Gc,
}

/// A module being run: its name, its code and tables, the host's value of each number
/// constant, the symbol of each identifier, and its global variables.
pub struct Import<N> {
    pub name: String,
    pub module: Module,
    pub numbers: Vec<Option<N>>,
    pub globals: Table<Value<N>>,
    pub symbols: Vec<Symbol>,
}

impl<N: Copy> Import<N> {
    /// The import of `module`, whose number constants the host reads as
    /// `numbers` (`None` for a string constant).  Interns its identifiers;
    /// `None` when the interner has no numbers left for them.
    pub fn new(name: String, module: Module, numbers: Vec<Option<N>>, interner: &mut Interner) -> (res: Option<Import<N>>)
        requires
            old(interner).wf(),
        ensures
            final(interner).wf(),
            final(interner).spec_next() >= old(interner).spec_next(),
            res matches Some(import) ==> {
                &&& import.globals.wf()
                &&& import.globals.spec_map() == Map::<u32, Value<N>>::empty()
                &&& import.symbols@.len() == module.spec_identifiers().len()
                &&& import.numbers@ == numbers@
                &&& import.module == module
                &&& import.name == name
                &&& forall|i: int| 0 <= i < import.symbols@.len() ==> {
                    &&& 1 <= (#[trigger] import.symbols@[i]).id() < final(interner).spec_next()
                    &&& final(interner).spec_symbols().contains_key(module.spec_identifiers()[i])
                    &&& final(interner).spec_symbols()[module.spec_identifiers()[i]] == import.symbols@[i].id()
                }
            },
            res is None <==> old(interner).spec_next() + module.spec_identifiers().len() >= u32::MAX,
    {
        let count = module.identifiers().len();
        if count >= u32::MAX as usize || interner.next_number() >= u32::MAX - count as u32 {
            return None;
        }
        let mut symbols: Vec<Symbol> = Vec::new();
        let mut i: usize = 0;
        while i < count
            invariant
                count == module.spec_identifiers().len(),
                i <= count,
                interner.wf(),
                old(interner).spec_next() + count < u32::MAX,
                old(interner).spec_next() <= interner.spec_next() <= old(interner).spec_next() + i,
                symbols@.len() == i,
                forall|j: int| 0 <= j < i ==> {
                    &&& 1 <= (#[trigger] symbols@[j]).id() < interner.spec_next()
                    &&& interner.spec_symbols().contains_key(module.spec_identifiers()[j])
                    &&& interner.spec_symbols()[module.spec_identifiers()[j]] == symbols@[j].id()
                },
            decreases count - i,
        {
            let ghost before = interner.spec_symbols();
            let ghost bnext = interner.spec_next();
            let name = module.identifier(i);
            let symbol = interner.intern(name);
            let ghost sym_before = symbols@;
            symbols.push(symbol);
            proof {
                let ids = module.spec_identifiers();
                assert(interner.spec_symbols().contains_key(ids[i as int]));
                assert forall|j: int| 0 <= j < i + 1 implies {
                    &&& 1 <= (#[trigger] symbols@[j]).id() < interner.spec_next()
                    &&& interner.spec_symbols().contains_key(ids[j])
                    &&& interner.spec_symbols()[ids[j]] == symbols@[j].id()
                } by {
                    if j < i {
                        assert(symbols@[j] == sym_before[j]);
                        assert(1 <= sym_before[j].id() < bnext);
                        assert(before.contains_key(ids[j]));
                    } else {
                        assert(symbols@[j] == symbol);
                        crate::bettervm::lemma_symbol_range(*interner, ids[j]);
                    }
                }
            }
            i = i + 1;
        }
        Some(Import { name, module, numbers, globals: Table::new(), symbols })
    }

    /// The symbol of identifier `index`.
    pub fn symbol(&self, index: usize) -> (res: Symbol)
        requires
            index < self.symbols@.len(),
        ensures
            res == self.symbols@[index as int],
    {
        self.symbols[index]
    }

    /// The chunk at `index`.
    pub fn chunk(&self, index: usize) -> (res: &Chunk)
        requires
            index < self.module.spec_chunks().len(),
        ensures
            *res == self.module.spec_chunks()[index as int],
    {
        self.module.chunk(index)
    }

    /// The constant at `index`.
    pub fn constant(&self, index: usize) -> (res: &Constant)
        requires
            index < self.module.spec_constants().len(),
        ensures
            *res == self.module.spec_constants()[index as int],
    {
        self.module.constant(index)
    }

    /// The class declared at `index`.
    pub fn class(&self, index: usize) -> (res: &bytecode::Class)
        requires
            index < self.module.spec_classes().len(),
        ensures
            *res == self.module.spec_classes()[index as int],
    {
        self.module.class(index)
    }

    /// The closure declared at `index`.
    pub fn closure(&self, index: usize) -> (res: &bytecode::Closure)
        requires
            index < self.module.spec_closures().len(),
        ensures
            *res == self.module.spec_closures()[index as int],
    {
        self.module.closure(index)
    }

    /// Gives a global variable a value.
    pub fn set_global(&mut self, key: Symbol, value: Value<N>)
        requires
            old(self).globals.wf(),
            key.id() != 0,
            old(self).globals.spec_capacity() * 2 <= usize::MAX,
        ensures
            final(self).name == old(self).name,
            final(self).module == old(self).module,
            final(self).numbers == old(self).numbers,
            final(self).symbols == old(self).symbols,
            final(self).globals.wf(),
            final(self).globals.spec_map() == old(self).globals.spec_map().insert(key.id(), value),
    {
        self.globals.set(key, value);
    }

    /// The global variable is defined.
    pub fn has_global(&self, key: Symbol) -> (res: bool)
        requires
            self.globals.wf(),
        ensures
            res == self.globals.spec_map().contains_key(key.id()),
    {
        self.globals.has(key)
    }

    /// The value of a global variable, if it is defined.
    pub fn global(&self, key: Symbol) -> (res: Option<Value<N>>)
        requires
            self.globals.wf(),
        ensures
            res == if self.globals.spec_map().contains_key(key.id()) {
                Some(self.globals.spec_map()[key.id()])
            } else {
                None::<Value<N>>
            },
    {
        self.globals.get(key)
    }
}

/// A list of values.
pub struct List<N> {
    pub items: Vec<Value<N>>,
}

/// An object of the interpreter's heap.
pub enum Object<N> {
    String(String),
    Closure(Closure),
    BoundMethod(BoundMethod),
    NativeFunction(NativeFunction),
    Class(Class),
    Instance(Instance<N>),
    Import(Import<N>),
    Upvalue(Upvalue<N>),
    List(List<N>),
    /// A slot the collector freed, to be used again.
    Free,
}

} // verus!
