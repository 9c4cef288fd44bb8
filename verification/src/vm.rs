use vstd::prelude::*;
use crate::bettervm::{Interner, Symbol, VmError};
use crate::gc::Gc;
use crate::memory::{Object, Upvalue, Value};
use crate::stack::Stack;

verus! {

/// The number of value slots of the stack.
pub const STACK_SIZE: usize = 2048;

/// The most call frames at once.
pub const MAX_FRAMES: usize = 256;

/// The objects made between two collections.
pub const COLLECT_AFTER: usize = 4096;

/// The kind of an object.
#[derive(PartialEq, Eq, Copy, Clone, Structural)]
pub enum Kind {
    String,
    Closure,
    BoundMethod,
    NativeFunction,
    Class,
    Instance,
    Import,
    Upvalue,
    List,
    Free,
}

pub open spec fn kind<N: Copy>(o: Object<N>) -> Kind {
    match o {
        Object::String(_) => Kind::String,
        Object::Closure(_) => Kind::Closure,
        Object::BoundMethod(_) => Kind::BoundMethod,
        Object::NativeFunction(_) => Kind::NativeFunction,
        Object::Class(_) => Kind::Class,
        Object::Instance(_) => Kind::Instance,
        Object::Import(_) => Kind::Import,
        Object::Upvalue(_) => Kind::Upvalue,
        Object::List(_) => Kind::List,
        Object::Free => Kind::Free,
    }
}

/// `g` refers to an object of kind `k`.
pub open spec fn at<N: Copy>(objects: Seq<Object<N>>, g: Gc, k: Kind) -> bool {
    g.index < objects.len() && kind(objects[g.index as int]) == k
}

/// Every object that `v` refers to exists and is of the kind `v` says.
pub open spec fn valid_value<N: Copy>(objects: Seq<Object<N>>, v: Value<N>) -> bool {
    match v {
        Value::String(g) => at(objects, g, Kind::String),
        Value::Closure(g) => at(objects, g, Kind::Closure),
        Value::BoundMethod(g) => at(objects, g, Kind::BoundMethod),
        Value::NativeFunction(g) => at(objects, g, Kind::NativeFunction),
        Value::Class(g) => at(objects, g, Kind::Class),
        Value::Instance(g) => at(objects, g, Kind::Instance),
        Value::Import(g) => at(objects, g, Kind::Import),
        Value::List(g) => at(objects, g, Kind::List),
        _ => true,
    }
}

/// The references inside object `o` are to objects of the right kinds, and
/// its tables are well formed.
pub open spec fn object_ok<N: Copy>(objects: Seq<Object<N>>, o: Object<N>) -> bool {
    match o {
        Object::String(_) => true,
        Object::Closure(c) => {
            &&& at(objects, c.function.import, Kind::Import)
            &&& forall|j: int| 0 <= j < c.upvalues@.len() ==> at(objects, #[trigger] c.upvalues@[j], Kind::Upvalue)
        },
        Object::BoundMethod(b) => at(objects, b.receiver, Kind::Instance) && at(objects, b.method, Kind::Closure),
        Object::NativeFunction(_) => true,
        Object::Class(c) => {
            &&& c.methods.wf()
            &&& forall|k: u32| #[trigger] c.methods.spec_map().contains_key(k)
                ==> at(objects, c.methods.spec_map()[k], Kind::Closure)
        },
        Object::Instance(i) => {
            &&& at(objects, i.class, Kind::Class)
            &&& i.fields.wf()
            &&& forall|k: u32| #[trigger] i.fields.spec_map().contains_key(k)
                ==> valid_value(objects, i.fields.spec_map()[k])
        },
        Object::Import(m) => {
            &&& m.globals.wf()
            &&& forall|k: u32| #[trigger] m.globals.spec_map().contains_key(k)
                ==> valid_value(objects, m.globals.spec_map()[k])
            &&& forall|j: int| 0 <= j < m.symbols@.len() ==> (#[trigger] m.symbols@[j]).id() >= 1
        },
        Object::Upvalue(u) => match u {
            Upvalue::Open(slot) => slot < STACK_SIZE,
            Upvalue::Closed(v) => valid_value(objects, v),
        },
        Object::List(l) => forall|j: int| 0 <= j < l.items@.len() ==> valid_value(objects, #[trigger] l.items@[j]),
        Object::Free => true,
    }
}

/// Every object of the heap is well formed.
pub open spec fn heap_ok<N: Copy>(objects: Seq<Object<N>>) -> bool {
    forall|i: int| 0 <= i < objects.len() ==> object_ok(objects, #[trigger] objects[i])
}

/// `b` keeps every object of `a`, each of the same kind (a free slot may
/// have been used again).
pub open spec fn same_kinds<N: Copy>(a: Seq<Object<N>>, b: Seq<Object<N>>) -> bool {
    &&& a.len() <= b.len()
    &&& forall|i: int| 0 <= i < a.len() && kind(a[i]) != Kind::Free ==> kind(#[trigger] b[i]) == kind(a[i])
}

pub proof fn lemma_at_kept<N: Copy>(a: Seq<Object<N>>, b: Seq<Object<N>>, g: Gc, k: Kind)
    requires
        same_kinds(a, b),
        at(a, g, k),
        k != Kind::Free,
    ensures
        at(b, g, k),
{
    assert(kind(b[g.index as int]) == kind(a[g.index as int]));
}

pub proof fn lemma_value_kept<N: Copy>(a: Seq<Object<N>>, b: Seq<Object<N>>, v: Value<N>)
    requires
        same_kinds(a, b),
        valid_value(a, v),
    ensures
        valid_value(b, v),
{
    match v {
        Value::String(g) => lemma_at_kept(a, b, g, Kind::String),
        Value::Closure(g) => lemma_at_kept(a, b, g, Kind::Closure),
        Value::BoundMethod(g) => lemma_at_kept(a, b, g, Kind::BoundMethod),
        Value::NativeFunction(g) => lemma_at_kept(a, b, g, Kind::NativeFunction),
        Value::Class(g) => lemma_at_kept(a, b, g, Kind::Class),
        Value::Instance(g) => lemma_at_kept(a, b, g, Kind::Instance),
        Value::Import(g) => lemma_at_kept(a, b, g, Kind::Import),
        Value::List(g) => lemma_at_kept(a, b, g, Kind::List),
        _ => {},
    }
}

pub proof fn lemma_object_kept<N: Copy>(a: Seq<Object<N>>, b: Seq<Object<N>>, o: Object<N>)
    requires
        same_kinds(a, b),
        object_ok(a, o),
    ensures
        object_ok(b, o),
{
    match o {
        Object::Closure(c) => {
            lemma_at_kept(a, b, c.function.import, Kind::Import);
            assert forall|j: int| 0 <= j < c.upvalues@.len() implies at(b, #[trigger] c.upvalues@[j], Kind::Upvalue) by {
                lemma_at_kept(a, b, c.upvalues@[j], Kind::Upvalue);
            }
        },
        Object::BoundMethod(m) => {
            lemma_at_kept(a, b, m.receiver, Kind::Instance);
            lemma_at_kept(a, b, m.method, Kind::Closure);
        },
        Object::Class(c) => {
            assert forall|k: u32| #[trigger] c.methods.spec_map().contains_key(k)
                implies at(b, c.methods.spec_map()[k], Kind::Closure) by {
                lemma_at_kept(a, b, c.methods.spec_map()[k], Kind::Closure);
            }
        },
        Object::Instance(i) => {
            lemma_at_kept(a, b, i.class, Kind::Class);
            assert forall|k: u32| #[trigger] i.fields.spec_map().contains_key(k)
                implies valid_value(b, i.fields.spec_map()[k]) by {
                lemma_value_kept(a, b, i.fields.spec_map()[k]);
            }
        },
        Object::Import(m) => {
            assert forall|k: u32| #[trigger] m.globals.spec_map().contains_key(k)
                implies valid_value(b, m.globals.spec_map()[k]) by {
                lemma_value_kept(a, b, m.globals.spec_map()[k]);
            }
        },
        Object::Upvalue(u) => {
            if let Upvalue::Closed(v) = u {
                lemma_value_kept(a, b, v);
            }
        },
        Object::List(l) => {
            assert forall|j: int| 0 <= j < l.items@.len() implies valid_value(b, #[trigger] l.items@[j]) by {
                lemma_value_kept(a, b, l.items@[j]);
            }
        },
        _ => {},
    }
}

/// Adding a well-formed object keeps the heap well formed.
pub proof fn lemma_heap_push<N: Copy>(a: Seq<Object<N>>, o: Object<N>)
    requires
        heap_ok(a),
        object_ok(a, o),
    ensures
        heap_ok(a.push(o)),
        same_kinds(a, a.push(o)),
{
    let b = a.push(o);
    assert(same_kinds(a, b));
    assert forall|i: int| 0 <= i < b.len() implies object_ok(b, #[trigger] b[i]) by {
        if i < a.len() {
            lemma_object_kept(a, b, a[i]);
        } else {
            lemma_object_kept(a, b, o);
        }
    }
}

/// Replacing an object by a well-formed one of the same kind, or filling a
/// freed slot, keeps the heap well formed.
pub proof fn lemma_heap_update<N: Copy>(a: Seq<Object<N>>, i: int, o: Object<N>)
    requires
        heap_ok(a),
        0 <= i < a.len(),
        kind(o) == kind(a[i]) || kind(a[i]) == Kind::Free,
        object_ok(a, o),
    ensures
        heap_ok(a.update(i, o)),
        same_kinds(a, a.update(i, o)),
{
    let b = a.update(i, o);
    assert(same_kinds(a, b));
    assert forall|j: int| 0 <= j < b.len() implies object_ok(b, #[trigger] b[j]) by {
        if j != i {
            lemma_object_kept(a, b, a[j]);
        } else {
            lemma_object_kept(a, b, o);
        }
    }
}

/// `new` is `old` with object `o` put at `g`: in a slot added at the end,
/// or in a freed slot used again.
pub open spec fn allocated<N: Copy>(old: Seq<Object<N>>, new: Seq<Object<N>>, g: Gc, o: Object<N>) -> bool {
    ||| g.index == old.len() && new == old.push(o)
    ||| g.index < old.len() && kind(old[g.index as int]) == Kind::Free && new == old.update(g.index as int, o)
}

/// What an allocation keeps and gives.
pub proof fn lemma_allocated<N: Copy>(old: Seq<Object<N>>, new: Seq<Object<N>>, g: Gc, o: Object<N>)
    requires
        allocated(old, new, g, o),
    ensures
        g.index < new.len(),
        new[g.index as int] == o,
        new.len() >= old.len(),
        same_kinds(old, new),
        forall|j: int| 0 <= j < old.len() && kind(old[j]) != Kind::Free ==> #[trigger] new[j] == old[j],
{
}

/// A call under way: the closure running, where its slots start on the
/// stack, and the offset of its next instruction.
#[derive(Copy, Clone)]
pub struct CallFrame {
    pub closure: Gc,
    pub base_counter: usize,
    pub pc: usize,
    /// The call runs the top level of an import, whose result its
    /// importer does not take.
    pub top_level: bool,
}

/// What the interpreter asks of its host after an instruction.
pub enum Action<N> {
    /// Go on with the next instruction.
    Continue,
    /// The program has finished.
    Done,
    /// The program stopped with an error.
    Error(VmError),
    /// Compute the operation on two numbers and hand the result back with
    /// [`Fiber::resume`]: a number for the arithmetic ones, a boolean for
    /// the comparisons.
    Binary(Arithmetic, N, N),
    /// Hand back the negation of the number.
    Negate(N),
    /// Print the pieces, one after the other, as a line.
    Print(Vec<Piece<N>>),
    /// Call the host function of that name with the arguments and hand
    /// back its result.
    CallNative(String, Vec<Value<N>>),
    /// Load the module of that name and hand it back with
    /// [`Fiber::resume_import`].
    Import(String),
}

/// A piece of printed text: text as it is, or a number for the host to
/// write.
pub enum Piece<N> {
    Text(String),
    Number(N),
}

/// An operation on two numbers that the host computes.
#[derive(PartialEq, Eq, Copy, Clone, Structural)]
pub enum Arithmetic {
    Add,
    Subtract,
    Multiply,
    Divide,
    Greater,
    Less,
    Equal,
}

/// The interpreter: its heap of objects, its stack of values, the calls
/// under way, the upvalues still open, and the symbols of names.
pub struct Fiber<N> {
    pub objects: Vec<Object<N>>,
    pub stack: Stack<Value<N>>,
    pub frames: Vec<CallFrame>,
    pub upvalues: Vec<Gc>,
    /// The imports loaded, each by its name.
    pub imports: Vec<Gc>,
    /// Slots the collector freed, to be used again.
    pub free: Vec<usize>,
    /// The objects made since the last collection.
    pub allocations: usize,
    /// The host functions defined, by symbol, for every import.
    pub natives: Vec<(Symbol, Gc)>,
    pub init_symbol: Symbol,
    pub interner: Interner,
    pub error: Option<VmError>,
}

impl<N: Copy> Fiber<N> {
    pub open spec fn heap(&self) -> Seq<Object<N>> {
        self.objects@
    }

    pub open spec fn items(&self) -> Seq<Value<N>> {
        self.stack.spec_items()
    }

    /// Every value and reference the interpreter holds is to an object of
    /// the right kind, and the heap is well formed.
    pub open spec fn wf(&self) -> bool {
        &&& self.interner.wf()
        &&& self.init_symbol.id() >= 1
        &&& self.stack.wf()
        &&& self.stack.spec_slots().len() == STACK_SIZE
        &&& self.stack.spec_items().len() <= STACK_SIZE
        &&& forall|i: int| 0 <= i < self.stack.spec_slots().len()
            ==> valid_value(self.objects@, #[trigger] self.stack.spec_slots()[i])
        &&& self.frames@.len() <= MAX_FRAMES
        &&& forall|i: int| 0 <= i < self.frames@.len() ==> {
            &&& at(self.objects@, (#[trigger] self.frames@[i]).closure, Kind::Closure)
            &&& self.frames@[i].base_counter <= STACK_SIZE
        }
        &&& forall|i: int| 0 <= i < self.upvalues@.len() ==> at(self.objects@, #[trigger] self.upvalues@[i], Kind::Upvalue)
        &&& forall|i: int| 0 <= i < self.imports@.len() ==> at(self.objects@, #[trigger] self.imports@[i], Kind::Import)
        &&& forall|i: int| 0 <= i < self.natives@.len() ==> {
            &&& (#[trigger] self.natives@[i]).0.id() >= 1
            &&& at(self.objects@, self.natives@[i].1, Kind::NativeFunction)
        }
        &&& heap_ok(self.objects@)
    }

    /// The two interpreters differ at most in their stacks.
    pub open spec fn same_but_stack(&self, other: &Self) -> bool {
        &&& self.objects == other.objects
        &&& self.frames == other.frames
        &&& self.upvalues == other.upvalues
        &&& self.imports == other.imports
        &&& self.natives == other.natives
        &&& self.init_symbol == other.init_symbol
        &&& self.interner == other.interner
        &&& self.error == other.error
    }

    /// Records the error and stops.
    pub fn fail(&mut self, error: VmError) -> (res: Action<N>)
        ensures
            res == Action::<N>::Error(error),
            final(self).error == Some(error),
            final(self).objects == old(self).objects,
            final(self).stack == old(self).stack,
            final(self).frames == old(self).frames,
            final(self).upvalues == old(self).upvalues,
            final(self).imports == old(self).imports,
            final(self).natives == old(self).natives,
            final(self).init_symbol == old(self).init_symbol,
            final(self).interner == old(self).interner,
            final(self).free == old(self).free,
            final(self).allocations == old(self).allocations,
    {
        self.error = Some(error);
        Action::Error(error)
    }

    /// Puts a value on the stack; `StackOverflow` when it is full.
    pub fn push(&mut self, value: Value<N>) -> (res: Result<(), VmError>)
        requires
            old(self).wf(),
            valid_value(old(self).heap(), value),
        ensures
            final(self).wf(),
            final(self).same_but_stack(old(self)),
            res is Ok <==> old(self).items().len() < STACK_SIZE,
            res is Ok ==> final(self).items() == old(self).items().push(value),
            res is Err ==> res == Err::<(), VmError>(VmError::StackOverflow) && *final(self) == *old(self),
    {
        if self.stack.len() >= STACK_SIZE {
            return Err(VmError::StackOverflow);
        }
        let ghost before = self.stack.spec_slots();
        self.stack.push(value);
        proof {
            assert forall|i: int| 0 <= i < self.stack.spec_slots().len()
                implies valid_value(self.objects@, #[trigger] self.stack.spec_slots()[i]) by {
                let top = old(self).items().len() as int;
                if i != top {
                    assert(self.stack.spec_slots()[i] == before[i]);
                }
            }
        }
        Ok(())
    }

    /// Takes the top value off the stack; `StackEmpty` when there is none.
    pub fn pop(&mut self) -> (res: Result<Value<N>, VmError>)
        requires
            old(self).wf(),
        ensures
            final(self).wf(),
            final(self).same_but_stack(old(self)),
            final(self).stack.spec_slots() == old(self).stack.spec_slots(),
            res == if old(self).items().len() > 0 {
                Ok::<Value<N>, VmError>(old(self).items().last())
            } else {
                Err::<Value<N>, VmError>(VmError::StackEmpty)
            },
            res is Ok ==> final(self).items() == old(self).items().drop_last(),
            res is Ok ==> valid_value(final(self).heap(), res->Ok_0),
            res is Err ==> *final(self) == *old(self),
    {
        if self.stack.len() == 0 {
            return Err(VmError::StackEmpty);
        }
        let v = self.stack.pop();
        proof {
            old(self).stack.lemma_items_in_slots();
            let top = (old(self).items().len() - 1) as int;
            assert(old(self).items()[top] == old(self).stack.spec_slots()[top]);
        }
        Ok(v)
    }

    /// The value `n` below the top; `StackEmpty` when the stack holds fewer.
    pub fn peek(&self, n: usize) -> (res: Result<Value<N>, VmError>)
        requires
            self.wf(),
        ensures
            res == if n < self.items().len() {
                Ok::<Value<N>, VmError>(self.items()[self.items().len() - 1 - n])
            } else {
                Err::<Value<N>, VmError>(VmError::StackEmpty)
            },
            res is Ok ==> valid_value(self.heap(), res->Ok_0),
    {
        if n >= self.stack.len() {
            return Err(VmError::StackEmpty);
        }
        let v = *self.stack.peek_n(n);
        proof {
            self.stack.lemma_items_in_slots();
            let k = self.items().len() - 1 - n;
            assert(self.items()[k] == self.stack.spec_slots()[k]);
        }
        Ok(v)
    }

    /// The call running now; `FrameEmpty` when there is none.
    pub fn current_frame(&self) -> (res: Result<CallFrame, VmError>)
        requires
            self.wf(),
        ensures
            res == if self.frames@.len() > 0 {
                Ok::<CallFrame, VmError>(self.frames@.last())
            } else {
                Err::<CallFrame, VmError>(VmError::FrameEmpty)
            },
            res matches Ok(f) ==> at(self.heap(), f.closure, Kind::Closure) && f.base_counter <= STACK_SIZE,
    {
        if self.frames.len() == 0 {
            return Err(VmError::FrameEmpty);
        }
        let f = self.frames[self.frames.len() - 1];
        proof {
            assert(at(self.objects@, self.frames@[self.frames@.len() - 1].closure, Kind::Closure));
        }
        Ok(f)
    }

    /// What the interpreter holds beside its heap stays valid when the heap
    /// keeps its kinds.
    pub proof fn lemma_refs_kept(&self, objects: Seq<Object<N>>)
        requires
            self.wf(),
            same_kinds(self.objects@, objects),
        ensures
            forall|i: int| 0 <= i < self.stack.spec_slots().len()
                ==> valid_value(objects, #[trigger] self.stack.spec_slots()[i]),
            forall|i: int| 0 <= i < self.frames@.len()
                ==> at(objects, (#[trigger] self.frames@[i]).closure, Kind::Closure),
            forall|i: int| 0 <= i < self.upvalues@.len() ==> at(objects, #[trigger] self.upvalues@[i], Kind::Upvalue),
            forall|i: int| 0 <= i < self.imports@.len() ==> at(objects, #[trigger] self.imports@[i], Kind::Import),
            forall|i: int| 0 <= i < self.natives@.len() ==> at(objects, (#[trigger] self.natives@[i]).1, Kind::NativeFunction),
    {
        assert forall|i: int| 0 <= i < self.stack.spec_slots().len()
            implies valid_value(objects, #[trigger] self.stack.spec_slots()[i]) by {
            lemma_value_kept(self.objects@, objects, self.stack.spec_slots()[i]);
        }
        assert forall|i: int| 0 <= i < self.frames@.len()
            implies at(objects, (#[trigger] self.frames@[i]).closure, Kind::Closure) by {
            lemma_at_kept(self.objects@, objects, self.frames@[i].closure, Kind::Closure);
        }
        assert forall|i: int| 0 <= i < self.upvalues@.len() implies at(objects, #[trigger] self.upvalues@[i], Kind::Upvalue) by {
            lemma_at_kept(self.objects@, objects, self.upvalues@[i], Kind::Upvalue);
        }
        assert forall|i: int| 0 <= i < self.imports@.len() implies at(objects, #[trigger] self.imports@[i], Kind::Import) by {
            lemma_at_kept(self.objects@, objects, self.imports@[i], Kind::Import);
        }
        assert forall|i: int| 0 <= i < self.natives@.len() implies at(objects, (#[trigger] self.natives@[i]).1, Kind::NativeFunction) by {
            lemma_at_kept(self.objects@, objects, self.natives@[i].1, Kind::NativeFunction);
        }
    }

    /// Adds an object to the heap: in a slot the collector freed, when
    /// there is one, or at the end.
    pub fn manage(&mut self, object: Object<N>) -> (res: Gc)
        requires
            old(self).wf(),
            object_ok(old(self).heap(), object),
        ensures
            final(self).wf(),
            allocated(old(self).heap(), final(self).heap(), res, object),
            final(self).stack == old(self).stack,
            final(self).frames == old(self).frames,
            final(self).upvalues == old(self).upvalues,
            final(self).imports == old(self).imports,
            final(self).natives == old(self).natives,
            final(self).init_symbol == old(self).init_symbol,
            final(self).interner == old(self).interner,
            final(self).error == old(self).error,
    {
        self.allocations = self.allocations.saturating_add(1);
        match self.free.pop() {
            Some(index) => {
                if index < self.objects.len() {
                    let is_free = match &self.objects[index] {
                        Object::Free => true,
                        _ => false,
                    };
                    if is_free {
                        proof {
                            lemma_heap_update(self.objects@, index as int, object);
                            self.lemma_refs_kept(self.objects@.update(index as int, object));
                        }
                        self.objects.set(index, object);
                        return Gc { index };
                    }
                }
            },
            None => {},
        }
        let index = self.objects.len();
        proof {
            lemma_heap_push(self.objects@, object);
            self.lemma_refs_kept(self.objects@.push(object));
        }
        self.objects.push(object);
        Gc { index }
    }

    /// Replaces object `g` by one of the same kind.
    pub fn replace(&mut self, g: Gc, object: Object<N>)
        requires
            old(self).wf(),
            g.index < old(self).heap().len(),
            kind(object) == kind(old(self).heap()[g.index as int]),
            object_ok(old(self).heap(), object),
        ensures
            final(self).wf(),
            final(self).heap() == old(self).heap().update(g.index as int, object),
            final(self).stack == old(self).stack,
            final(self).frames == old(self).frames,
            final(self).upvalues == old(self).upvalues,
            final(self).imports == old(self).imports,
            final(self).natives == old(self).natives,
            final(self).init_symbol == old(self).init_symbol,
            final(self).interner == old(self).interner,
            final(self).error == old(self).error,
    {
        proof {
            lemma_heap_update(self.objects@, g.index as int, object);
            self.lemma_refs_kept(self.objects@.update(g.index as int, object));
        }
        self.objects.set(g.index, object);
    }

    /// Enough objects were made since the last collection to collect.
    pub fn should_collect(&self) -> (res: bool)
        ensures
            res == (self.allocations >= COLLECT_AFTER),
    {
        self.allocations >= COLLECT_AFTER
    }

    /// A fresh interpreter with nothing to run.
    pub fn new() -> (res: Fiber<N>)
        ensures
            res.wf(),
            res.heap().len() == 0,
            res.items().len() == 0,
            res.frames@.len() == 0,
            res.upvalues@.len() == 0,
            res.error is None,
    {
        let mut interner = Interner::new();
        let init_symbol = interner.intern("init");
        proof {
            reveal_strlit("init");
            crate::bettervm::lemma_symbol_range(interner, "init"@);
        }
        let stack: Stack<Value<N>> = Stack::filled(STACK_SIZE, Value::Nil);
        let res = Fiber {
            objects: Vec::new(),
            stack,
            frames: Vec::new(),
            upvalues: Vec::new(),
            imports: Vec::new(),
            free: Vec::new(),
            allocations: 0,
            natives: Vec::new(),
            init_symbol,
            interner,
            error: None,
        };
        res
    }
}

} // verus!
