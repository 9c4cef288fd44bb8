use vstd::prelude::*;
use crate::bettervm::VmError;
use crate::gc::Gc;
use crate::memory::{Object, Value};
use crate::ops::{closure_at, import_at};
use crate::opcode::{decodable_at, encode, encoded_at, Opcode};
use crate::vm::{at, object_ok, same_kinds, valid_value, Action, CallFrame, Fiber, Kind, MAX_FRAMES, STACK_SIZE};

verus! {


/// What calling `callee` with `arity` arguments does, from a heap, stack
/// and call frames, with `init` the symbol of initializers: the state `fin`
/// after it and the action `res` it gives.
pub open spec fn call_outcome<N: Copy>(heap: Seq<Object<N>>, items: Seq<Value<N>>, frames: Seq<CallFrame>, init: u32,
    arity: usize, callee: Value<N>, fin: Fiber<N>, res: Action<N>) -> bool {
    ({
        let n = items.len();
        let base = (n - arity - 1) as usize;
        match callee {
            Value::Closure(g) => {
                let f = closure_at(heap, g).function;
                &&& f.arity != arity ==> res == Action::<N>::Error(VmError::IncorrectArity)
                &&& f.arity == arity && frames.len() < MAX_FRAMES ==> res is Continue
                    && fin.frames@ == frames.push(CallFrame { closure: g, base_counter: base, pc: 0, top_level: false })
                    && fin.items() == items
            },
            Value::NativeFunction(g) => {
                &&& res matches Action::CallNative(name, args)
                    && name@ == heap[g.index as int]->NativeFunction_0.name@
                    && args@ == items.subrange(n - arity, n as int)
                &&& fin.items() == items.subrange(0, n - arity - 1)
                &&& fin.frames@ == frames
            },
            Value::Class(g) => {
                let class = heap[g.index as int]->Class_0;
                &&& fin.items()[base as int] matches Value::Instance(i) && {
                    &&& fin.items() == items.update(base as int, Value::<N>::Instance(i))
                    &&& fin.heap()[i.index as int] is Instance
                    &&& fin.heap()[i.index as int]->Instance_0.class == g
                    &&& fin.heap()[i.index as int]->Instance_0.fields.spec_map() == Map::<u32, Value<N>>::empty()
                }
                &&& !class.methods.spec_map().contains_key(init) ==> {
                    &&& arity == 0 ==> res is Continue && fin.frames@ == frames
                    &&& arity != 0 ==> res == Action::<N>::Error(VmError::IncorrectArity)
                }
                &&& class.methods.spec_map().contains_key(init) ==> {
                    let method = class.methods.spec_map()[init];
                    &&& closure_at(heap, method).function.arity != arity
                        ==> res == Action::<N>::Error(VmError::IncorrectArity)
                    &&& closure_at(heap, method).function.arity == arity
                        && frames.len() < MAX_FRAMES ==> res is Continue
                        && fin.frames@ == frames.push(CallFrame { closure: method, base_counter: base, pc: 0, top_level: false })
                }
            },
            Value::BoundMethod(g) => {
                let b = heap[g.index as int]->BoundMethod_0;
                let f = closure_at(heap, b.method).function;
                &&& f.arity != arity ==> res == Action::<N>::Error(VmError::IncorrectArity)
                &&& f.arity == arity && frames.len() < MAX_FRAMES ==> res is Continue
                    && fin.frames@ == frames.push(CallFrame { closure: b.method, base_counter: base, pc: 0, top_level: false })
                    && fin.items() == items.update(base as int, Value::<N>::Instance(b.receiver))
            },
            _ => res == Action::<N>::Error(VmError::InvalidCallee),
        }
    })
}

/// What `op_call` does, from state `pre` to state `post` with action `res`.
pub open spec fn op_call_outcome<N: Copy>(pre: Fiber<N>, post: Fiber<N>, res: Action<N>, arity: u8) -> bool {
    &&& same_kinds(pre.heap(), post.heap())
    &&& pre.items().len() <= arity ==> res == Action::<N>::Error(VmError::StackEmpty)
    &&& pre.items().len() > arity ==> call_outcome(pre.heap(), pre.items(), pre.frames@,
            pre.init_symbol.id(), arity as usize,
            pre.items()[pre.items().len() - 1 - arity], post, res)
}

/// What `op_invoke` does, from state `pre` to state `post` with action `res`.
pub open spec fn op_invoke_outcome<N: Copy>(pre: Fiber<N>, post: Fiber<N>, res: Action<N>, arity: u8, index: u32) -> bool {
    &&& same_kinds(pre.heap(), post.heap())
    &&& pre.frames@.len() == 0 ==> res == Action::<N>::Error(VmError::FrameEmpty)
    &&& pre.frames@.len() > 0 ==> {
            let m = import_at(pre.heap(), pre.spec_import());
            let key = m.symbols@[index as int].id();
            let n = pre.items().len();
            let base = (n - arity - 1) as usize;
            &&& index >= m.symbols@.len() ==> res == Action::<N>::Error(VmError::UnexpectedConstant)
            &&& index < m.symbols@.len() && n <= arity ==> res == Action::<N>::Error(VmError::StackEmpty)
            &&& index < m.symbols@.len() && n > arity && !(pre.items()[base as int] is Instance)
                ==> res == Action::<N>::Error(VmError::UnexpectedValue)
            &&& index < m.symbols@.len() && n > arity && pre.items()[base as int] is Instance ==> {
                let g = pre.items()[base as int]->Instance_0;
                let instance = pre.heap()[g.index as int]->Instance_0;
                let class = pre.heap()[instance.class.index as int]->Class_0;
                &&& instance.fields.spec_map().contains_key(key) ==> call_outcome(pre.heap(),
                    pre.items().update(base as int, instance.fields.spec_map()[key]), pre.frames@,
                    pre.init_symbol.id(), arity as usize, instance.fields.spec_map()[key], post, res)
                &&& !instance.fields.spec_map().contains_key(key) && class.methods.spec_map().contains_key(key) ==> {
                    let method = class.methods.spec_map()[key];
                    &&& closure_at(pre.heap(), method).function.arity != arity
                        ==> res == Action::<N>::Error(VmError::IncorrectArity)
                    &&& closure_at(pre.heap(), method).function.arity == arity
                        && pre.frames@.len() < MAX_FRAMES ==> res is Continue
                        && post.frames@ == pre.frames@.push(CallFrame { closure: method, base_counter: base, pc: 0, top_level: false })
                        && post.items() =~= pre.items()
                }
                &&& !instance.fields.spec_map().contains_key(key) && !class.methods.spec_map().contains_key(key)
                    ==> res == Action::<N>::Error(VmError::UndefinedProperty)
            }
        }
}

/// What `op_return` does, from state `pre` to state `post` with action `res`.
pub open spec fn op_return_outcome<N: Copy>(pre: Fiber<N>, post: Fiber<N>, res: Action<N>) -> bool {
    &&& same_kinds(pre.heap(), post.heap())
    &&& pre.items().len() == 0 ==> res == Action::<N>::Error(VmError::StackEmpty)
    &&& pre.items().len() > 0 && pre.frames@.len() == 0 ==> res == Action::<N>::Error(VmError::FrameEmpty)
    &&& pre.items().len() > 0 && pre.frames@.len() > 0 ==> {
            let f = pre.frames@.last();
            &&& post.frames@ == pre.frames@.drop_last()
            &&& pre.frames@.len() == 1 ==> res is Done
            &&& pre.frames@.len() > 1 && !f.top_level && f.base_counter < STACK_SIZE ==> res is Continue
                && post.items() =~= pre.stack.spec_slots().subrange(0, f.base_counter as int)
                    .push(pre.items().last())
            &&& pre.frames@.len() > 1 && f.top_level ==> res is Continue
                && post.items() =~= pre.stack.spec_slots().subrange(0, f.base_counter as int)
        }
}

/// What `op_import` does, from state `pre` to state `post` with action `res`.
pub open spec fn op_import_outcome<N: Copy>(pre: Fiber<N>, post: Fiber<N>, res: Action<N>, index: u32) -> bool {
    &&& post.heap() == pre.heap()
    &&& post.frames == pre.frames
    &&& pre.frames@.len() == 0 ==> res == Action::<N>::Error(VmError::FrameEmpty)
    &&& pre.frames@.len() > 0 ==> {
            let constants = import_at(pre.heap(), pre.spec_import()).module.spec_constants();
            &&& index >= constants.len() ==> res == Action::<N>::Error(VmError::UnexpectedConstant)
            &&& index < constants.len() && !(constants[index as int] is String)
                ==> res == Action::<N>::Error(VmError::StringConstantExpected)
            &&& index < constants.len() && constants[index as int] is String ==> {
                let path = constants[index as int]->String_0@;
                &&& (res matches Action::Import(p) ==> p@ == path && post.items() =~= pre.items())
                &&& (res matches Action::Import(_)) <==> forall|j: int| 0 <= j < pre.imports@.len()
                    ==> import_at(pre.heap(), #[trigger] pre.imports@[j]).name@ != path
                &&& res is Continue ==> post.items().drop_last() =~= pre.items()
                    && post.items().len() == pre.items().len() + 1
                &&& res is Continue ==> (post.items().last() matches Value::Import(g)
                    && pre.imports@.contains(g) && import_at(pre.heap(), g).name@ == path)
                &&& (exists|j: int| 0 <= j < pre.imports@.len() && import_at(pre.heap(), #[trigger] pre.imports@[j]).name@ == path)
                    ==> (res is Continue <==> pre.items().len() < STACK_SIZE)
                    && (!(res is Continue) ==> res == Action::<N>::Error(VmError::StackOverflow))
            }
        }
}

/// What `op_import_global` does, from state `pre` to state `post` with action `res`.
pub open spec fn op_import_global_outcome<N: Copy>(pre: Fiber<N>, post: Fiber<N>, res: Action<N>, index: u32) -> bool {
    &&& post.heap() == pre.heap()
    &&& post.frames == pre.frames
    &&& pre.frames@.len() == 0 ==> res == Action::<N>::Error(VmError::FrameEmpty)
    &&& pre.frames@.len() > 0 ==> {
            let m = import_at(pre.heap(), pre.spec_import());
            let key = m.symbols@[index as int].id();
            &&& index >= m.symbols@.len() ==> res == Action::<N>::Error(VmError::UnexpectedConstant)
            &&& index < m.symbols@.len() && pre.items().len() == 0 ==> res == Action::<N>::Error(VmError::StackEmpty)
            &&& index < m.symbols@.len() && pre.items().len() > 0 && !(pre.items().last() is Import)
                ==> res == Action::<N>::Error(VmError::UnexpectedValue)
            &&& index < m.symbols@.len() && pre.items().len() > 0 && pre.items().last() is Import ==> {
                let globals = import_at(pre.heap(), pre.items().last()->Import_0).globals.spec_map();
                &&& res is Continue <==> pre.items().len() < STACK_SIZE
                &&& res is Continue ==> post.items() =~= pre.items().push(
                    if globals.contains_key(key) { globals[key] } else { Value::<N>::Nil })
            }
        }
}

/// What running the instruction `op` does, from state `pre` (its frame
/// already moved past it) to state `post` with action `res`.
pub open spec fn outcome<N: Copy, F: Fn(N) -> usize>(op: Opcode, pre: Fiber<N>, post: Fiber<N>, res: Action<N>, to_index: &F) -> bool {
    match op {
        Opcode::Constant(i) => crate::ops::op_constant_outcome(pre, post, res, i),
        Opcode::Number(i) => crate::ops::op_typed_constant_outcome(pre, post, res, i as u32, true),
        Opcode::String(i) => crate::ops::op_typed_constant_outcome(pre, post, res, i as u32, false),
        Opcode::True => crate::ops::op_bool_outcome(pre, post, res, true),
        Opcode::False => crate::ops::op_bool_outcome(pre, post, res, false),
        Opcode::Nil => crate::ops::op_nil_outcome(pre, post, res),
        Opcode::Negate => crate::ops::op_negate_outcome(pre, post, res),
        Opcode::Add => crate::ops::op_add_outcome(pre, post, res),
        Opcode::Subtract => crate::ops::op_subtract_outcome(pre, post, res),
        Opcode::Multiply => crate::ops::op_multiply_outcome(pre, post, res),
        Opcode::Divide => crate::ops::op_divide_outcome(pre, post, res),
        Opcode::Not => crate::ops::op_not_outcome(pre, post, res),
        Opcode::Equal => crate::ops::op_equal_outcome(pre, post, res),
        Opcode::Greater => crate::ops::op_greater_outcome(pre, post, res),
        Opcode::Less => crate::ops::op_less_outcome(pre, post, res),
        Opcode::Pop => crate::ops::op_pop_outcome(pre, post, res),
        Opcode::Return => op_return_outcome(pre, post, res),
        Opcode::Print => crate::ops::op_print_outcome(pre, post, res),
        Opcode::DefineGlobal(i) => crate::ops::op_define_global_outcome(pre, post, res, i),
        Opcode::GetGlobal(i) => crate::ops::op_get_global_outcome(pre, post, res, i),
        Opcode::SetGlobal(i) => crate::ops::op_set_global_outcome(pre, post, res, i),
        Opcode::GetLocal(i) => crate::ops::op_get_local_outcome(pre, post, res, i),
        Opcode::SetLocal(i) => crate::ops::op_set_local_outcome(pre, post, res, i),
        Opcode::GetUpvalue(i) => crate::ops::op_get_upvalue_outcome(pre, post, res, i),
        Opcode::SetUpvalue(i) => crate::ops::op_set_upvalue_outcome(pre, post, res, i),
        Opcode::GetProperty(i) => crate::ops::op_get_property_outcome(pre, post, res, i),
        Opcode::SetProperty(i) => crate::ops::op_set_property_outcome(pre, post, res, i),
        Opcode::Jump(offset) => crate::ops::op_jump_outcome(pre, post, res, offset),
        Opcode::JumpIfFalse(offset) => crate::ops::op_jump_if_false_outcome(pre, post, res, offset),
        Opcode::Call(arity) => op_call_outcome(pre, post, res, arity),
        Opcode::Invoke(arity, i) => op_invoke_outcome(pre, post, res, arity, i),
        Opcode::CloseUpvalue => crate::ops::op_close_upvalue_outcome(pre, post, res),
        Opcode::Class(i) => crate::ops::op_class_outcome(pre, post, res, i),
        Opcode::Closure(i) => crate::ops::op_closure_outcome(pre, post, res, i),
        Opcode::Method(i) => crate::ops::op_method_outcome(pre, post, res, i),
        Opcode::Import(i) => op_import_outcome(pre, post, res, i),
        Opcode::ImportGlobal(i) => op_import_global_outcome(pre, post, res, i),
        Opcode::List(arity) => crate::ops::op_list_outcome(pre, post, res, arity),
        Opcode::GetIndex => crate::ops::op_get_index_outcome(pre, post, res, to_index),
        Opcode::SetIndex => crate::ops::op_set_index_outcome(pre, post, res, to_index),
    }
}

/// `mid` is `pre` with the running call moved `len` bytes on, and nothing
/// else changed.
pub open spec fn advanced<N: Copy>(pre: Fiber<N>, mid: Fiber<N>, len: int) -> bool {
    let last = pre.frames@.len() - 1;
    let f = pre.frames@[last];
    &&& mid.frames@ == pre.frames@.update(last, CallFrame { pc: (f.pc + len) as usize, ..f })
    &&& mid.objects == pre.objects
    &&& mid.stack == pre.stack
    &&& mid.upvalues == pre.upvalues
    &&& mid.imports == pre.imports
    &&& mid.free == pre.free
    &&& mid.allocations == pre.allocations
    &&& mid.natives == pre.natives
    &&& mid.init_symbol == pre.init_symbol
    &&& mid.interner == pre.interner
    &&& mid.error == pre.error
}

impl<N: Copy> Fiber<N> {
    /// Starts a call of closure `closure`, whose `arity` arguments are on
    /// top of the stack with the callee below them; `StackOverflow` when the
    /// call frames are full.
    pub fn begin_frame(&mut self, closure: Gc, arity: usize, top_level: bool) -> (res: Result<(), VmError>)
        requires
            old(self).wf(),
            at(old(self).heap(), closure, Kind::Closure),
            arity < old(self).items().len(),
        ensures
            final(self).wf(),
            final(self).heap() == old(self).heap(),
            final(self).stack == old(self).stack,
            final(self).upvalues == old(self).upvalues,
            final(self).imports == old(self).imports,
            final(self).natives == old(self).natives,
            final(self).error == old(self).error,
            res is Ok <==> old(self).frames@.len() < MAX_FRAMES,
            res is Ok ==> final(self).frames@ == old(self).frames@.push(
                CallFrame { closure, base_counter: (old(self).items().len() - arity - 1) as usize, pc: 0, top_level }),
            res is Err ==> res == Err::<(), VmError>(VmError::StackOverflow) && final(self).frames == old(self).frames,
    {
        if self.frames.len() >= MAX_FRAMES {
            return Err(VmError::StackOverflow);
        }
        let base_counter = self.stack.len() - arity - 1;
        let ghost before = self.frames@;
        self.frames.push(CallFrame { closure, base_counter, pc: 0, top_level });
        proof {
            assert forall|i: int| 0 <= i < self.frames@.len() implies {
                &&& at(self.objects@, (#[trigger] self.frames@[i]).closure, Kind::Closure)
                &&& self.frames@[i].base_counter <= STACK_SIZE
            } by {
                if i < before.len() {
                    assert(self.frames@[i] == before[i]);
                }
            }
        }
        Ok(())
    }

    /// Calls the value below the `arity` values on top of the stack.
    pub fn op_call(&mut self, arity: u8) -> (res: Action<N>)
        requires
            old(self).wf(),
        ensures
            final(self).wf(),
            op_call_outcome(*old(self), *final(self), res, arity),
    {
        let callee = match self.peek(arity as usize) {
            Ok(v) => v,
            Err(e) => return self.fail(e),
        };
        self.call(arity as usize, callee)
    }

    /// Calls method `index` of the running import on the instance below the
    /// `arity` values on top of the stack: a field of that name is called as
    /// any value; otherwise its class's method runs with the instance as
    /// receiver.
    pub fn op_invoke(&mut self, arity: u8, index: u32) -> (res: Action<N>)
        requires
            old(self).wf(),
        ensures
            final(self).wf(),
            op_invoke_outcome(*old(self), *final(self), res, arity, index),
    {
        let import = match self.current_import() {
            Ok(g) => g,
            Err(e) => return self.fail(e),
        };
        let symbol = match self.symbol_of(import, index) {
            Ok(s) => s,
            Err(e) => return self.fail(e),
        };
        let target = match self.peek(arity as usize) {
            Ok(v) => v,
            Err(e) => return self.fail(e),
        };
        let g = match target {
            Value::Instance(g) => g,
            _ => return self.fail(VmError::UnexpectedValue),
        };
        let (field, method) = match &self.objects[g.index] {
            Object::Instance(instance) => {
                proof {
                    assert(object_ok(self.heap(), self.heap()[g.index as int]));
                }
                match instance.field(&symbol) {
                    Some(v) => (Some(v), None),
                    None => {
                        match &self.objects[instance.class.index] {
                            Object::Class(class) => {
                                proof {
                                    assert(object_ok(self.heap(), self.heap()[instance.class.index as int]));
                                }
                                (None, class.method(symbol))
                            },
                            _ => (None, None),
                        }
                    },
                }
            },
            _ => (None, None),
        };
        match (field, method) {
            (Some(value), _) => {
                proof {
                    old(self).stack.lemma_items_in_slots();
                }
                let ghost slots = self.stack.spec_slots();
                self.stack.rset(arity as usize, value);
                proof {
                    assert forall|i: int| 0 <= i < self.stack.spec_slots().len()
                        implies valid_value(self.objects@, #[trigger] self.stack.spec_slots()[i]) by {
                        if i != old(self).items().len() - 1 - arity {
                            assert(self.stack.spec_slots()[i] == slots[i]);
                        }
                    }
                }
                self.call(arity as usize, value)
            },
            (None, Some(m)) => self.call_closure(arity as usize, m),
            (None, None) => self.fail(VmError::UndefinedProperty),
        }
    }

    /// Returns from the running call: pops the result, closes the upvalues
    /// of the call's slots, drops the slots and the frame, and pushes the
    /// result for the caller (not for an importer); `Done` when no caller is
    /// left.
    pub fn op_return(&mut self) -> (res: Action<N>)
        requires
            old(self).wf(),
        ensures
            final(self).wf(),
            op_return_outcome(*old(self), *final(self), res),
    {
        let result = match self.pop() {
            Ok(v) => v,
            Err(e) => return self.fail(e),
        };
        let frame = match self.current_frame() {
            Ok(f) => f,
            Err(e) => return self.fail(e),
        };
        self.close_upvalues(frame.base_counter);
        self.stack.truncate(frame.base_counter);
        let ghost before = self.frames@;
        let _ = self.frames.pop();
        proof {
            assert forall|i: int| 0 <= i < self.frames@.len() implies {
                &&& at(self.objects@, (#[trigger] self.frames@[i]).closure, Kind::Closure)
                &&& self.frames@[i].base_counter <= STACK_SIZE
            } by {
                assert(self.frames@[i] == before[i]);
            }
            assert(self.frames@ =~= before.drop_last());
        }
        if self.frames.len() == 0 {
            return Action::Done;
        }
        if frame.top_level {
            return Action::Continue;
        }
        proof {
            crate::vm::lemma_value_kept(old(self).heap(), self.heap(), result);
        }
        self.push_value(result)
    }

    /// The loaded import named `name`, if there is one.
    pub fn find_import(&self, name: &str) -> (res: Option<Gc>)
        requires
            self.wf(),
        ensures
            res matches Some(g) ==> self.imports@.contains(g) && at(self.heap(), g, Kind::Import)
                && import_at(self.heap(), g).name@ == name@,
            res is None ==> forall|j: int| 0 <= j < self.imports@.len()
                ==> import_at(self.heap(), #[trigger] self.imports@[j]).name@ != name@,
    {
        let mut k: usize = 0;
        while k < self.imports.len()
            invariant
                self.wf(),
                k <= self.imports@.len(),
                forall|j: int| 0 <= j < k ==> import_at(self.heap(), #[trigger] self.imports@[j]).name@ != name@,
            decreases self.imports@.len() - k,
        {
            let g = self.imports[k];
            proof {
                assert(at(self.heap(), g, Kind::Import));
            }
            let same = match &self.objects[g.index] {
                Object::Import(m) => crate::text::str_eq(m.name.as_str(), name),
                _ => false,
            };
            if same {
                proof {
                    assert(self.imports@[k as int] == g);
                }
                return Some(g);
            }
            k = k + 1;
        }
        None
    }

    /// Imports the module named by string constant `index` of the running
    /// import: pushes it when it is loaded already, and otherwise asks the
    /// host to load it.
    pub fn op_import(&mut self, index: u32) -> (res: Action<N>)
        requires
            old(self).wf(),
        ensures
            final(self).wf(),
            op_import_outcome(*old(self), *final(self), res, index),
    {
        let import = match self.current_import() {
            Ok(g) => g,
            Err(e) => return self.fail(e),
        };
        let i = index as usize;
        let path: Result<String, VmError> = match &self.objects[import.index] {
            Object::Import(m) => {
                if i < m.module.constants().len() {
                    match m.constant(i) {
                        crate::bytecode::Constant::String(text) => Ok(text.clone()),
                        _ => Err(VmError::StringConstantExpected),
                    }
                } else {
                    Err(VmError::UnexpectedConstant)
                }
            },
            _ => Err(VmError::UnexpectedConstant),
        };
        let path = match path {
            Ok(p) => p,
            Err(e) => return self.fail(e),
        };
        match self.find_import(path.as_str()) {
            Some(g) => self.push_value(Value::Import(g)),
            None => Action::Import(path),
        }
    }

    /// Takes the module the host loaded for an import named `name`: makes
    /// it an import, gives it the host functions, pushes it, and starts its
    /// top level, whose result is dropped when it returns.  `UnknownImport`
    /// when the host has no such module.
    pub fn resume_import(&mut self, name: String, loaded: Option<(crate::bytecode::Module, Vec<Option<N>>)>) -> (res: Action<N>)
        requires
            old(self).wf(),
        ensures
            final(self).wf(),
            same_kinds(old(self).heap(), final(self).heap()),
            loaded is None ==> res == Action::<N>::Error(VmError::UnknownImport),
            res is Continue ==> {
                let n = old(self).items().len();
                &&& loaded is Some
                &&& final(self).items().len() == n + 2
                &&& final(self).items().subrange(0, n as int) == old(self).items()
                &&& (final(self).items()[n as int] matches Value::Import(g)
                    && import_at(final(self).heap(), g).name == name
                    && import_at(final(self).heap(), g).module == loaded->Some_0.0
                    && final(self).imports@ == old(self).imports@.push(g))
                &&& final(self).frames@.len() == old(self).frames@.len() + 1
                &&& final(self).frames@.drop_last() == old(self).frames@
                &&& final(self).frames@.last().base_counter == n + 1
                &&& final(self).frames@.last().pc == 0
                &&& final(self).frames@.last().top_level
                &&& final(self).items().last() == Value::<N>::Closure(final(self).frames@.last().closure)
                &&& closure_at(final(self).heap(), final(self).frames@.last().closure).function.chunk_index == 0
            },
    {
        let (module, numbers) = match loaded {
            Some(x) => x,
            None => return self.fail(VmError::UnknownImport),
        };
        let ghost wanted = module;
        let import = match crate::memory::Import::new(name, module, numbers, &mut self.interner) {
            Some(i) => i,
            None => return self.fail(VmError::OutOfMemory),
        };
        let ig = self.manage(Object::Import(import));
        let ghost imports0 = self.imports@;
        self.imports.push(ig);
        proof {
            assert forall|i: int| 0 <= i < self.imports@.len() implies at(self.objects@, #[trigger] self.imports@[i], Kind::Import) by {
                if i < imports0.len() {
                    assert(self.imports@[i] == imports0[i]);
                }
            }
        }
        let ghost heap1 = self.heap();
        let mut k: usize = 0;
        while k < self.natives.len()
            invariant
                self.wf(),
                k <= self.natives@.len(),
                self.natives == old(self).natives,
                self.stack == old(self).stack,
                self.frames == old(self).frames,
                self.imports@ == old(self).imports@.push(ig),
                at(self.heap(), ig, Kind::Import),
                same_kinds(old(self).heap(), self.heap()),
                heap1.len() == self.heap().len(),
                import_at(self.heap(), ig).name == name,
                import_at(self.heap(), ig).module == wanted,
                loaded is Some,
                wanted == loaded->Some_0.0,
            decreases self.natives@.len() - k,
        {
            let (symbol, g) = self.natives[k];
            proof {
                assert(self.natives@[k as int].0.id() >= 1);
            }
            match self.set_global_of(ig, symbol, Value::NativeFunction(g)) {
                Ok(()) => {},
                Err(e) => return self.fail(e),
            }
            k = k + 1;
        }
        match self.push(Value::Import(ig)) {
            Ok(()) => {},
            Err(e) => return self.fail(e),
        }
        let function = crate::memory::Function { name: "top".to_owned(), chunk_index: 0, import: ig, arity: 0 };
        let closure = self.manage(Object::Closure(crate::memory::Closure { function, upvalues: Vec::new() }));
        match self.push(Value::Closure(closure)) {
            Ok(()) => {},
            Err(e) => return self.fail(e),
        }
        match self.begin_frame(closure, 0, true) {
            Ok(()) => {},
            Err(e) => return self.fail(e),
        }
        proof {
            assert(self.frames@.drop_last() =~= old(self).frames@);
            assert(self.items().subrange(0, old(self).items().len() as int) =~= old(self).items());
        }
        Action::Continue
    }

    /// Pushes global `index` of the running import's names as the import on
    /// top defines it, or `nil` when it does not; the import stays.
    pub fn op_import_global(&mut self, index: u32) -> (res: Action<N>)
        requires
            old(self).wf(),
        ensures
            final(self).wf(),
            op_import_global_outcome(*old(self), *final(self), res, index),
    {
        let import = match self.current_import() {
            Ok(g) => g,
            Err(e) => return self.fail(e),
        };
        let symbol = match self.symbol_of(import, index) {
            Ok(s) => s,
            Err(e) => return self.fail(e),
        };
        let target = match self.peek(0) {
            Ok(v) => v,
            Err(e) => return self.fail(e),
        };
        let g = match target {
            Value::Import(g) => g,
            _ => return self.fail(VmError::UnexpectedValue),
        };
        let value = match &self.objects[g.index] {
            Object::Import(m) => {
                proof {
                    assert(object_ok(self.heap(), self.heap()[g.index as int]));
                }
                match m.global(symbol) {
                    Some(v) => v,
                    None => Value::Nil,
                }
            },
            _ => Value::Nil,
        };
        self.push_value(value)
    }

    /// The code of the call running now.
    pub open spec fn spec_code(&self) -> Seq<u8> {
        let c = closure_at(self.heap(), self.frames@.last().closure);
        import_at(self.heap(), c.function.import).module.spec_chunks()[c.function.chunk_index as int]@
    }

    /// The call running now has a chunk to run.
    pub open spec fn has_code(&self) -> bool {
        let c = closure_at(self.heap(), self.frames@.last().closure);
        c.function.chunk_index < import_at(self.heap(), c.function.import).module.spec_chunks().len()
    }

    /// Reads the next instruction of the call running now, with its length;
    /// `None` when no whole instruction starts there.
    pub fn fetch(&self) -> (res: Option<(Opcode, usize)>)
        requires
            self.wf(),
            self.frames@.len() > 0,
        ensures
            res matches Some((op, len)) ==> {
                &&& self.has_code()
                &&& encoded_at(self.spec_code(), self.frames@.last().pc as int, op)
                &&& len == encode(op).len()
                &&& self.frames@.last().pc + len <= usize::MAX
            },
            res is None ==> !(self.has_code() && decodable_at(self.spec_code(), self.frames@.last().pc as int)),
    {
        let frame = self.frames[self.frames.len() - 1];
        let closure = match &self.objects[frame.closure.index] {
            Object::Closure(c) => c,
            _ => return None,
        };
        proof {
            assert(object_ok(self.heap(), self.heap()[frame.closure.index as int]));
        }
        let import = match &self.objects[closure.function.import.index] {
            Object::Import(m) => m,
            _ => return None,
        };
        if closure.function.chunk_index >= import.module.chunks().len() {
            return None;
        }
        let bytes = import.chunk(closure.function.chunk_index).as_slice();
        let pc = frame.pc;
        if pc >= bytes.len() {
            return None;
        }
        let len = crate::opcode::instruction_len_of(bytes[pc]);
        if len == 0 || len > bytes.len() - pc {
            return None;
        }
        Some(crate::opcode::decode_at(bytes, pc))
    }

    /// Runs the next instruction of the call running now and says what the
    /// host is to do next, with `to_index` the host's conversion of a number
    /// to a list index; every instruction keeps the interpreter well formed.
    /// `Unimplemented` when no whole instruction starts there.
    pub fn step<F: Fn(N) -> usize>(&mut self, to_index: &F) -> (res: Action<N>)
        requires
            old(self).wf(),
            forall|x: N| #[trigger] to_index.requires((x,)),
        ensures
            final(self).wf(),
            same_kinds(old(self).heap(), final(self).heap()),
            old(self).frames@.len() == 0 ==> res == Action::<N>::Error(VmError::FrameEmpty),
            old(self).frames@.len() > 0 && !(old(self).has_code() && decodable_at(old(self).spec_code(), old(self).frames@.last().pc as int))
                ==> res == Action::<N>::Error(VmError::Unimplemented),
            old(self).frames@.len() > 0 && old(self).has_code() && decodable_at(old(self).spec_code(), old(self).frames@.last().pc as int)
                ==> exists|op: Opcode, mid: Fiber<N>| {
                    &&& #[trigger] encoded_at(old(self).spec_code(), old(self).frames@.last().pc as int, op)
                    &&& advanced(*old(self), mid, encode(op).len() as int)
                    &&& #[trigger] outcome(op, mid, *final(self), res, to_index)
                },
    {
        if self.frames.len() == 0 {
            return self.fail(VmError::FrameEmpty);
        }
        let (op, len) = match self.fetch() {
            Some(x) => x,
            None => return self.fail(VmError::Unimplemented),
        };
        let last = self.frames.len() - 1;
        let frame = self.frames[last];
        proof {
            crate::opcode::lemma_encode_len(op);
        }
        let ghost before = self.frames@;
        self.frames.set(last, CallFrame { closure: frame.closure, base_counter: frame.base_counter, pc: frame.pc + len, top_level: frame.top_level });
        proof {
            assert forall|i: int| 0 <= i < self.frames@.len() implies {
                &&& at(self.objects@, (#[trigger] self.frames@[i]).closure, Kind::Closure)
                &&& self.frames@[i].base_counter <= STACK_SIZE
            } by {
                if i != last {
                    assert(self.frames@[i] == before[i]);
                }
            }
        }
        let ghost mid = *self;
        let res = match op {
            Opcode::Constant(i) => self.op_constant(i),
            Opcode::Number(i) => self.op_typed_constant(i, true),
            Opcode::String(i) => self.op_typed_constant(i, false),
            Opcode::True => self.op_bool(true),
            Opcode::False => self.op_bool(false),
            Opcode::Nil => self.op_nil(),
            Opcode::Negate => self.op_negate(),
            Opcode::Add => self.op_add(),
            Opcode::Subtract => self.op_subtract(),
            Opcode::Multiply => self.op_multiply(),
            Opcode::Divide => self.op_divide(),
            Opcode::Not => self.op_not(),
            Opcode::Equal => self.op_equal(),
            Opcode::Greater => self.op_greater(),
            Opcode::Less => self.op_less(),
            Opcode::Pop => self.op_pop(),
            Opcode::Return => self.op_return(),
            Opcode::Print => self.op_print(),
            Opcode::DefineGlobal(i) => self.op_define_global(i),
            Opcode::GetGlobal(i) => self.op_get_global(i),
            Opcode::SetGlobal(i) => self.op_set_global(i),
            Opcode::GetLocal(i) => self.op_get_local(i),
            Opcode::SetLocal(i) => self.op_set_local(i),
            Opcode::GetUpvalue(i) => self.op_get_upvalue(i),
            Opcode::SetUpvalue(i) => self.op_set_upvalue(i),
            Opcode::GetProperty(i) => self.op_get_property(i),
            Opcode::SetProperty(i) => self.op_set_property(i),
            Opcode::Jump(offset) => self.op_jump(offset),
            Opcode::JumpIfFalse(offset) => self.op_jump_if_false(offset),
            Opcode::Call(arity) => self.op_call(arity),
            Opcode::Invoke(arity, i) => self.op_invoke(arity, i),
            Opcode::CloseUpvalue => self.op_close_upvalue(),
            Opcode::Class(i) => self.op_class(i),
            Opcode::Closure(i) => self.op_closure(i),
            Opcode::Method(i) => self.op_method(i),
            Opcode::Import(i) => self.op_import(i),
            Opcode::ImportGlobal(i) => self.op_import_global(i),
            Opcode::List(arity) => self.op_list(arity),
            Opcode::GetIndex => self.op_get_index(to_index),
            Opcode::SetIndex => self.op_set_index(to_index),
        };
        proof {
            assert(advanced(*old(self), mid, encode(op).len() as int));
            assert(outcome(op, mid, *self, res, to_index));
        }
        res
    }

    /// Whether `value` refers only to objects of the kinds it says.
    pub fn is_valid(&self, value: Value<N>) -> (res: bool)
        ensures
            res == valid_value(self.heap(), value),
    {
        match value {
            Value::String(g) => g.index < self.objects.len() && (match &self.objects[g.index] { Object::String(_) => true, _ => false }),
            Value::Closure(g) => g.index < self.objects.len() && (match &self.objects[g.index] { Object::Closure(_) => true, _ => false }),
            Value::BoundMethod(g) => g.index < self.objects.len() && (match &self.objects[g.index] { Object::BoundMethod(_) => true, _ => false }),
            Value::NativeFunction(g) => g.index < self.objects.len() && (match &self.objects[g.index] { Object::NativeFunction(_) => true, _ => false }),
            Value::Class(g) => g.index < self.objects.len() && (match &self.objects[g.index] { Object::Class(_) => true, _ => false }),
            Value::Instance(g) => g.index < self.objects.len() && (match &self.objects[g.index] { Object::Instance(_) => true, _ => false }),
            Value::Import(g) => g.index < self.objects.len() && (match &self.objects[g.index] { Object::Import(_) => true, _ => false }),
            Value::List(g) => g.index < self.objects.len() && (match &self.objects[g.index] { Object::List(_) => true, _ => false }),
            _ => true,
        }
    }

    /// Hands back the host's answer to an action: pushes it.
    /// `UnexpectedValue` when it refers to objects that are not there;
    /// `StackOverflow` when the stack is full.
    pub fn resume(&mut self, value: Value<N>) -> (res: Result<(), VmError>)
        requires
            old(self).wf(),
        ensures
            final(self).wf(),
            final(self).heap() == old(self).heap(),
            final(self).frames == old(self).frames,
            !valid_value(old(self).heap(), value) ==> res == Err::<(), VmError>(VmError::UnexpectedValue),
            valid_value(old(self).heap(), value) && old(self).items().len() >= STACK_SIZE
                ==> res == Err::<(), VmError>(VmError::StackOverflow),
            valid_value(old(self).heap(), value) && old(self).items().len() < STACK_SIZE
                ==> res is Ok && final(self).items() == old(self).items().push(value),
    {
        if !self.is_valid(value) {
            return Err(VmError::UnexpectedValue);
        }
        self.push(value)
    }

    /// Makes an import of `module`, with the host's value of each number
    /// constant, and a closure of its top level; `OutOfMemory` when the
    /// symbol numbers run out.
    pub fn prepare_interpret(&mut self, module: crate::bytecode::Module, numbers: Vec<Option<N>>) -> (res: Result<Gc, VmError>)
        requires
            old(self).wf(),
        ensures
            final(self).wf(),
            same_kinds(old(self).heap(), final(self).heap()),
            final(self).stack == old(self).stack,
            final(self).frames == old(self).frames,
            res is Err ==> res == Err::<Gc, VmError>(VmError::OutOfMemory),
            res is Err <==> old(self).interner.spec_next() + module.spec_identifiers().len() >= u32::MAX,
            res matches Ok(g) ==> {
                let c = closure_at(final(self).heap(), g);
                &&& at(final(self).heap(), g, Kind::Closure)
                &&& c.function.name@ == "top"@
                &&& c.function.chunk_index == 0
                &&& c.function.arity == 0
                &&& c.upvalues@.len() == 0
                &&& import_at(final(self).heap(), c.function.import).module == module
                &&& import_at(final(self).heap(), c.function.import).numbers@ == numbers@
                &&& import_at(final(self).heap(), c.function.import).globals.spec_map() == Map::<u32, Value<N>>::empty()
            },
    {
        let import = match crate::memory::Import::new("_root".to_owned(), module, numbers, &mut self.interner) {
            Some(i) => i,
            None => return Err(VmError::OutOfMemory),
        };
        let ig = self.manage(Object::Import(import));
        self.imports.push(ig);
        proof {
            assert forall|i: int| 0 <= i < self.imports@.len() implies at(self.objects@, #[trigger] self.imports@[i], Kind::Import) by {
                if i < self.imports@.len() - 1 {
                    assert(self.imports@[i] == old(self).imports@[i]);
                    crate::vm::lemma_at_kept(old(self).heap(), self.heap(), old(self).imports@[i], Kind::Import);
                }
            }
        }
        let function = crate::memory::Function { name: "top".to_owned(), chunk_index: 0, import: ig, arity: 0 };
        let cg = self.manage(Object::Closure(crate::memory::Closure { function, upvalues: Vec::new() }));
        Ok(cg)
    }

    /// Sets `module` up to run: its top-level closure on the stack and in a
    /// first frame.
    pub fn with_module(&mut self, module: crate::bytecode::Module, numbers: Vec<Option<N>>) -> (res: Result<(), VmError>)
        requires
            old(self).wf(),
        ensures
            final(self).wf(),
            same_kinds(old(self).heap(), final(self).heap()),
            res is Ok <==> old(self).items().len() < STACK_SIZE && old(self).frames@.len() < MAX_FRAMES
                && old(self).interner.spec_next() + module.spec_identifiers().len() < u32::MAX,
            res is Ok ==> {
                &&& final(self).frames@.len() == old(self).frames@.len() + 1
                &&& final(self).frames@.last().pc == 0
                &&& final(self).items().len() == old(self).items().len() + 1
                &&& final(self).items().last() == Value::<N>::Closure(final(self).frames@.last().closure)
                &&& import_at(final(self).heap(), final(self).spec_import()).module == module
            },
    {
        let closure = match self.prepare_interpret(module, numbers) {
            Ok(g) => g,
            Err(e) => return Err(e),
        };
        match self.push(Value::Closure(closure)) {
            Ok(()) => {},
            Err(e) => return Err(e),
        }
        self.begin_frame(closure, 0, true)
    }

    /// Defines global `identifier` of the running import, and of every
    /// import loaded after, as the host function of that name.
    pub fn set_native_fn(&mut self, identifier: &str) -> (res: Result<(), VmError>)
        requires
            old(self).wf(),
        ensures
            final(self).wf(),
            same_kinds(old(self).heap(), final(self).heap()),
            final(self).stack == old(self).stack,
            final(self).frames == old(self).frames,
            old(self).frames@.len() == 0 ==> res == Err::<(), VmError>(VmError::FrameEmpty),
            res is Ok ==> {
                let key = final(self).interner.spec_symbols()[identifier@];
                let globals = import_at(final(self).heap(), old(self).spec_import()).globals.spec_map();
                &&& final(self).interner.spec_symbols().contains_key(identifier@)
                &&& globals.contains_key(key)
                &&& globals[key] matches Value::NativeFunction(g)
                    && final(self).heap()[g.index as int]->NativeFunction_0.name@ == identifier@
                &&& final(self).natives@.len() == old(self).natives@.len() + 1
                &&& final(self).natives@.last().0.id() == key
                &&& final(self).natives@.last().1 == globals[key]->NativeFunction_0
            },
    {
        let import = match self.current_import() {
            Ok(g) => g,
            Err(e) => return Err(e),
        };
        if self.interner.next_number() >= u32::MAX {
            return Err(VmError::OutOfMemory);
        }
        let native = Object::NativeFunction(crate::memory::NativeFunction { name: identifier.to_owned() });
        let ghost made = native;
        let g = self.manage(native);
        proof {
            crate::vm::lemma_allocated(old(self).heap(), self.heap(), g, made);
        }
        let symbol = self.interner.intern(identifier);
        proof {
            crate::bettervm::lemma_symbol_range(self.interner, identifier@);
        }
        match self.set_global_of(import, symbol, Value::NativeFunction(g)) {
            Ok(()) => {},
            Err(e) => return Err(e),
        }
        let ghost natives0 = self.natives@;
        self.natives.push((symbol, g));
        proof {
            assert forall|i: int| 0 <= i < self.natives@.len() implies {
                &&& (#[trigger] self.natives@[i]).0.id() >= 1
                &&& at(self.objects@, self.natives@[i].1, Kind::NativeFunction)
            } by {
                if i < natives0.len() {
                    assert(self.natives@[i] == natives0[i]);
                } else {
                    assert(at(self.objects@, g, Kind::NativeFunction));
                }
            }
        }
        Ok(())
    }

    /// Calls closure `closure` with the `arity` values on top of the stack;
    /// `IncorrectArity` when it takes another number of arguments.
    pub fn call_closure(&mut self, arity: usize, closure: Gc) -> (res: Action<N>)
        requires
            old(self).wf(),
            at(old(self).heap(), closure, Kind::Closure),
            arity < old(self).items().len(),
        ensures
            final(self).wf(),
            final(self).heap() == old(self).heap(),
            final(self).stack == old(self).stack,
            closure_at(old(self).heap(), closure).function.arity != arity
                ==> res == Action::<N>::Error(VmError::IncorrectArity),
            closure_at(old(self).heap(), closure).function.arity == arity && old(self).frames@.len() < MAX_FRAMES
                ==> res is Continue && final(self).frames@ == old(self).frames@.push(
                    CallFrame { closure, base_counter: (old(self).items().len() - arity - 1) as usize, pc: 0, top_level: false }),
            closure_at(old(self).heap(), closure).function.arity == arity && old(self).frames@.len() >= MAX_FRAMES
                ==> res == Action::<N>::Error(VmError::StackOverflow),
    {
        let expected = match &self.objects[closure.index] {
            Object::Closure(c) => c.function.arity,
            _ => 0,
        };
        if expected != arity {
            return self.fail(VmError::IncorrectArity);
        }
        match self.begin_frame(closure, arity, false) {
            Ok(()) => Action::Continue,
            Err(e) => self.fail(e),
        }
    }

    /// Calls `callee`, which sits below the `arity` values on top of the
    /// stack: a closure runs in a new frame; a host function is handed to
    /// the host with the arguments taken off; a class makes an instance that
    /// takes the callee's place and runs its `init` method, if it has one;
    /// a bound method runs with its instance in the callee's place.
    pub fn call(&mut self, arity: usize, callee: Value<N>) -> (res: Action<N>)
        requires
            old(self).wf(),
            arity < old(self).items().len(),
            valid_value(old(self).heap(), callee),
        ensures
            final(self).wf(),
            same_kinds(old(self).heap(), final(self).heap()),
            call_outcome(old(self).heap(), old(self).items(), old(self).frames@, old(self).init_symbol.id(), arity, callee,
                *final(self), res),
    {
        proof {
            old(self).stack.lemma_items_in_slots();
        }
        match callee {
            Value::Closure(g) => self.call_closure(arity, g),
            Value::NativeFunction(g) => {
                let name = match &self.objects[g.index] {
                    Object::NativeFunction(f) => f.name.clone(),
                    _ => String::new(),
                };
                let ghost items = self.items();
                let args = self.stack.pop_n(arity);
                let _ = self.stack.pop();
                proof {
                    assert(self.items() =~= items.subrange(0, items.len() - arity - 1));
                }
                Action::CallNative(name, args)
            },
            Value::Class(g) => {
                let instance = self.manage(Object::Instance(crate::memory::Instance::new(g)));
                let ghost slots = self.stack.spec_slots();
                self.stack.rset(arity, Value::Instance(instance));
                proof {
                    assert forall|i: int| 0 <= i < self.stack.spec_slots().len()
                        implies valid_value(self.objects@, #[trigger] self.stack.spec_slots()[i]) by {
                        if i != old(self).items().len() - 1 - arity {
                            assert(self.stack.spec_slots()[i] == slots[i]);
                        }
                    }
                }
                let init = match &self.objects[g.index] {
                    Object::Class(c) => {
                        proof {
                            assert(object_ok(self.heap(), self.heap()[g.index as int]));
                        }
                        c.method(self.init_symbol)
                    },
                    _ => None,
                };
                match init {
                    Some(m) => self.call_closure(arity, m),
                    None => {
                        if arity != 0 {
                            self.fail(VmError::IncorrectArity)
                        } else {
                            Action::Continue
                        }
                    },
                }
            },
            Value::BoundMethod(g) => {
                proof {
                    assert(object_ok(self.heap(), self.heap()[g.index as int]));
                }
                let bind = match &self.objects[g.index] {
                    Object::BoundMethod(b) => *b,
                    _ => crate::memory::BoundMethod { receiver: g, method: g },
                };
                let expected = match &self.objects[bind.method.index] {
                    Object::Closure(c) => c.function.arity,
                    _ => 0,
                };
                if expected != arity {
                    return self.fail(VmError::IncorrectArity);
                }
                let ghost slots = self.stack.spec_slots();
                self.stack.rset(arity, Value::Instance(bind.receiver));
                proof {
                    assert forall|i: int| 0 <= i < self.stack.spec_slots().len()
                        implies valid_value(self.objects@, #[trigger] self.stack.spec_slots()[i]) by {
                        if i != old(self).items().len() - 1 - arity {
                            assert(self.stack.spec_slots()[i] == slots[i]);
                        }
                    }
                }
                match self.begin_frame(bind.method, arity, false) {
                    Ok(()) => Action::Continue,
                    Err(e) => self.fail(e),
                }
            },
            _ => self.fail(VmError::InvalidCallee),
        }
    }
}

} // verus!
