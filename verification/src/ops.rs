use vstd::prelude::*;
use crate::bettervm::{Symbol, VmError};
use crate::bytecode::Constant;
use crate::gc::Gc;
use crate::memory::{Object, Value};
use crate::vm::{allocated, at, kind, valid_value, object_ok, same_kinds, Action, Fiber, Kind, STACK_SIZE};

verus! {

/// The import that object `g` holds.
pub open spec fn import_at<N: Copy>(heap: Seq<Object<N>>, g: Gc) -> crate::memory::Import<N> {
    heap[g.index as int]->Import_0
}

/// The closure that object `g` holds.
pub open spec fn closure_at<N: Copy>(heap: Seq<Object<N>>, g: Gc) -> crate::memory::Closure {
    heap[g.index as int]->Closure_0
}

/// The text of string object `g`.
pub open spec fn string_at<N: Copy>(heap: Seq<Object<N>>, g: Gc) -> Seq<char> {
    heap[g.index as int]->String_0@
}

/// Whether two values of the same kind, other than numbers, are equal:
/// booleans and strings by content, `nil` always, objects by identity.
pub open spec fn values_equal<N: Copy>(heap: Seq<Object<N>>, a: Value<N>, b: Value<N>) -> bool {
    match (a, b) {
        (Value::Boolean(x), Value::Boolean(y)) => x == y,
        (Value::String(x), Value::String(y)) => string_at(heap, x) == string_at(heap, y),
        (Value::Nil, Value::Nil) => true,
        (Value::Closure(x), Value::Closure(y)) => x == y,
        (Value::NativeFunction(x), Value::NativeFunction(y)) => x == y,
        (Value::BoundMethod(x), Value::BoundMethod(y)) => x == y,
        (Value::Class(x), Value::Class(y)) => x == y,
        (Value::Instance(x), Value::Instance(y)) => x == y,
        (Value::Import(x), Value::Import(y)) => x == y,
        (Value::List(x), Value::List(y)) => x == y,
        _ => false,
    }
}

/// The upvalue that object `g` holds.
pub open spec fn upvalue_at<N: Copy>(heap: Seq<Object<N>>, g: Gc) -> crate::memory::Upvalue<N> {
    heap[g.index as int]->Upvalue_0
}

/// How `print` shows a value that is not a number.
pub open spec fn display<N: Copy>(heap: Seq<Object<N>>, v: Value<N>) -> Seq<char> {
    match v {
        Value::Nil => "nil"@,
        Value::Boolean(b) => if b { "true"@ } else { "false"@ },
        Value::String(g) => string_at(heap, g),
        Value::NativeFunction(_) => "<native fn>"@,
        Value::Closure(g) => "<fn "@ + closure_at(heap, g).function.name@ + ">"@,
        Value::Class(g) => heap[g.index as int]->Class_0.name@,
        Value::Instance(g) => heap[heap[g.index as int]->Instance_0.class.index as int]->Class_0.name@ + " instance"@,
        Value::BoundMethod(g) => "<fn "@ + closure_at(heap, heap[g.index as int]->BoundMethod_0.method).function.name@ + ">"@,
        Value::Import(_) => "<import>"@,
        Value::Number(_) => Seq::empty(),
        Value::List(_) => Seq::empty(),
    }
}

/// How deep `print` shows lists within lists; deeper ones, as a list that
/// holds itself, show as `[...]`.
pub const PRINT_DEPTH: usize = 64;

/// A piece of what `print` shows, as the contracts see it.
pub enum Shown<N> {
    Text(Seq<char>),
    Number(N),
}

/// What a piece stands for.
pub open spec fn shown_of<N>(p: crate::vm::Piece<N>) -> Shown<N> {
    match p {
        crate::vm::Piece::Text(t) => Shown::Text(t@),
        crate::vm::Piece::Number(n) => Shown::Number(n),
    }
}

/// What pieces stand for.
pub open spec fn shown_all<N>(ps: Seq<crate::vm::Piece<N>>) -> Seq<Shown<N>> {
    ps.map_values(|p: crate::vm::Piece<N>| shown_of(p))
}

/// How `print` shows a value, as pieces: numbers for the host to write,
/// lists as their elements between brackets, separated by commas, down to
/// `depth` lists deep.
pub open spec fn show<N: Copy>(heap: Seq<Object<N>>, v: Value<N>, depth: nat) -> Seq<Shown<N>>
    decreases depth, 0nat,
{
    match v {
        Value::Number(n) => seq![Shown::Number(n)],
        Value::List(g) => if depth == 0 {
            seq![Shown::Text("[...]"@)]
        } else {
            seq![Shown::Text("["@)] + show_items(heap, heap[g.index as int]->List_0.items@, (depth - 1) as nat)
                + seq![Shown::Text("]"@)]
        },
        _ => seq![Shown::Text(display(heap, v))],
    }
}

/// How `print` shows the elements of a list, separated by commas.
pub open spec fn show_items<N: Copy>(heap: Seq<Object<N>>, items: Seq<Value<N>>, depth: nat) -> Seq<Shown<N>>
    decreases depth, items.len() + 1,
{
    if items.len() == 0 {
        Seq::empty()
    } else if items.len() == 1 {
        show(heap, items[0], depth)
    } else {
        show_items(heap, items.drop_last(), depth) + seq![Shown::Text(", "@)] + show(heap, items.last(), depth)
    }
}



/// What `op_get_local` does, from state `pre` to state `post` with action `res`.
pub open spec fn op_get_local_outcome<N: Copy>(pre: Fiber<N>, post: Fiber<N>, res: Action<N>, index: u32) -> bool {
    &&& post.heap() == pre.heap()
    &&& post.frames == pre.frames
    &&& pre.frames@.len() == 0 ==> res == Action::<N>::Error(VmError::FrameEmpty)
    &&& pre.frames@.len() > 0 ==> {
            let slot = pre.frames@.last().base_counter + index;
            &&& slot >= STACK_SIZE ==> res == Action::<N>::Error(VmError::StackOverflow)
            &&& slot < STACK_SIZE ==> (res is Continue <==> pre.items().len() < STACK_SIZE)
            &&& res is Continue ==> post.items() =~= pre.items().push(pre.stack.spec_slots()[slot])
        }
}

/// What `op_set_local` does, from state `pre` to state `post` with action `res`.
pub open spec fn op_set_local_outcome<N: Copy>(pre: Fiber<N>, post: Fiber<N>, res: Action<N>, index: u32) -> bool {
    &&& post.heap() == pre.heap()
    &&& post.frames == pre.frames
    &&& pre.frames@.len() == 0 ==> res == Action::<N>::Error(VmError::FrameEmpty)
    &&& pre.frames@.len() > 0 ==> {
            let slot = pre.frames@.last().base_counter + index;
            &&& pre.items().len() == 0 ==> res == Action::<N>::Error(VmError::StackEmpty)
            &&& pre.items().len() > 0 && slot >= STACK_SIZE ==> res == Action::<N>::Error(VmError::StackOverflow)
            &&& pre.items().len() > 0 && slot < STACK_SIZE ==> {
                &&& res is Continue
                &&& post.stack.spec_slots() =~= pre.stack.spec_slots().update(slot, pre.items().last())
                &&& post.items().len() == pre.items().len()
            }
        }
}

/// What `op_define_global` does, from state `pre` to state `post` with action `res`.
pub open spec fn op_define_global_outcome<N: Copy>(pre: Fiber<N>, post: Fiber<N>, res: Action<N>, index: u32) -> bool {
    &&& same_kinds(pre.heap(), post.heap())
    &&& post.frames == pre.frames
    &&& pre.frames@.len() == 0 ==> res == Action::<N>::Error(VmError::FrameEmpty)
    &&& pre.frames@.len() > 0 ==> {
            let m = import_at(pre.heap(), pre.spec_import());
            &&& index >= m.symbols@.len() ==> res == Action::<N>::Error(VmError::UnexpectedConstant)
            &&& index < m.symbols@.len() && pre.items().len() == 0 ==> res == Action::<N>::Error(VmError::StackEmpty)
            &&& index < m.symbols@.len() && pre.items().len() > 0
                ==> (res is Continue <==> m.globals.spec_capacity() <= usize::MAX / 2)
                && (!(res is Continue) ==> res == Action::<N>::Error(VmError::OutOfMemory))
        }
    &&& res is Continue ==> {
            let import = pre.spec_import();
            let symbol = import_at(pre.heap(), import).symbols@[index as int];
            &&& index < import_at(pre.heap(), import).symbols@.len()
            &&& pre.items().len() > 0
            &&& post.items() =~= pre.items().drop_last()
            &&& import_at(post.heap(), import).globals.spec_map()
                == import_at(pre.heap(), import).globals.spec_map().insert(symbol.id(), pre.items().last())
        }
}

/// What `op_get_global` does, from state `pre` to state `post` with action `res`.
pub open spec fn op_get_global_outcome<N: Copy>(pre: Fiber<N>, post: Fiber<N>, res: Action<N>, index: u32) -> bool {
    &&& post.heap() == pre.heap()
    &&& post.frames == pre.frames
    &&& pre.frames@.len() == 0 ==> res == Action::<N>::Error(VmError::FrameEmpty)
    &&& pre.frames@.len() > 0 ==> {
            let m = import_at(pre.heap(), pre.spec_import());
            let key = m.symbols@[index as int].id();
            &&& index >= m.symbols@.len() ==> res == Action::<N>::Error(VmError::UnexpectedConstant)
            &&& index < m.symbols@.len() && !m.globals.spec_map().contains_key(key)
                ==> res == Action::<N>::Error(VmError::GlobalNotDefined)
            &&& index < m.symbols@.len() && m.globals.spec_map().contains_key(key)
                ==> (res is Continue <==> pre.items().len() < STACK_SIZE)
            &&& res is Continue ==> post.items() =~= pre.items().push(m.globals.spec_map()[key])
        }
}

/// What `op_set_global` does, from state `pre` to state `post` with action `res`.
pub open spec fn op_set_global_outcome<N: Copy>(pre: Fiber<N>, post: Fiber<N>, res: Action<N>, index: u32) -> bool {
    &&& same_kinds(pre.heap(), post.heap())
    &&& post.frames == pre.frames
    &&& post.stack == pre.stack
    &&& pre.frames@.len() == 0 ==> res == Action::<N>::Error(VmError::FrameEmpty)
    &&& res is Continue ==> {
            let import = pre.spec_import();
            let m = import_at(pre.heap(), import);
            let key = m.symbols@[index as int].id();
            &&& index < m.symbols@.len()
            &&& m.globals.spec_map().contains_key(key)
            &&& import_at(post.heap(), import).globals.spec_map()
                == m.globals.spec_map().insert(key, pre.items().last())
        }
    &&& pre.frames@.len() > 0 ==> {
            let m = import_at(pre.heap(), pre.spec_import());
            let key = m.symbols@[index as int].id();
            &&& index >= m.symbols@.len() ==> res == Action::<N>::Error(VmError::UnexpectedConstant)
            &&& index < m.symbols@.len() && !m.globals.spec_map().contains_key(key)
                ==> res == Action::<N>::Error(VmError::GlobalNotDefined)
            &&& index < m.symbols@.len() && m.globals.spec_map().contains_key(key) && pre.items().len() == 0
                ==> res == Action::<N>::Error(VmError::StackEmpty)
            &&& index < m.symbols@.len() && m.globals.spec_map().contains_key(key) && pre.items().len() > 0
                ==> (res is Continue <==> m.globals.spec_capacity() <= usize::MAX / 2)
                && (!(res is Continue) ==> res == Action::<N>::Error(VmError::OutOfMemory))
        }
}

/// What `op_constant` does, from state `pre` to state `post` with action `res`.
pub open spec fn op_constant_outcome<N: Copy>(pre: Fiber<N>, post: Fiber<N>, res: Action<N>, index: u32) -> bool {
    &&& same_kinds(pre.heap(), post.heap())
    &&& post.frames == pre.frames
    &&& pre.frames@.len() == 0 ==> res == Action::<N>::Error(VmError::FrameEmpty)
    &&& pre.frames@.len() > 0 ==> {
            let m = import_at(pre.heap(), pre.spec_import());
            let constants = m.module.spec_constants();
            &&& index >= constants.len() ==> res == Action::<N>::Error(VmError::UnexpectedConstant)
            &&& index < constants.len() && constants[index as int] is Number ==> {
                &&& (index >= m.numbers@.len() || m.numbers@[index as int] is None)
                    ==> res == Action::<N>::Error(VmError::UnexpectedConstant)
                &&& (index < m.numbers@.len() && m.numbers@[index as int] is Some) ==> {
                    &&& res is Continue <==> pre.items().len() < STACK_SIZE
                    &&& res is Continue ==> post.items()
                        == pre.items().push(Value::<N>::Number(m.numbers@[index as int]->Some_0))
                }
            }
            &&& index < constants.len() && constants[index as int] is String ==> {
                &&& res is Continue <==> pre.items().len() < STACK_SIZE
                &&& res is Continue ==> post.items().drop_last() =~= pre.items()
                &&& res is Continue ==> post.items().len() == pre.items().len() + 1
                &&& res is Continue ==> (post.items().last() matches Value::String(g)
                    && allocated(pre.heap(), post.heap(), g, Object::String(constants[index as int]->String_0)))
            }
        }
}

/// What `op_typed_constant` does: `op_constant` when constant `index` is
/// of the kind the instruction names (a number, or with `number` false a
/// string), `UnexpectedConstant` otherwise.
pub open spec fn op_typed_constant_outcome<N: Copy>(pre: Fiber<N>, post: Fiber<N>, res: Action<N>, index: u32, number: bool) -> bool {
    &&& pre.frames@.len() == 0 ==> res == Action::<N>::Error(VmError::FrameEmpty)
        && post.heap() == pre.heap() && post.frames == pre.frames && post.stack == pre.stack
    &&& pre.frames@.len() > 0 ==> {
            let constants = import_at(pre.heap(), pre.spec_import()).module.spec_constants();
            if index < constants.len() && (constants[index as int] is Number) == number {
                op_constant_outcome(pre, post, res, index)
            } else {
                &&& res == Action::<N>::Error(VmError::UnexpectedConstant)
                &&& post.heap() == pre.heap()
                &&& post.frames == pre.frames
                &&& post.stack == pre.stack
            }
        }
}

/// What `op_jump` does, from state `pre` to state `post` with action `res`.
pub open spec fn op_jump_outcome<N: Copy>(pre: Fiber<N>, post: Fiber<N>, res: Action<N>, offset: i16) -> bool {
    &&& post.heap() == pre.heap()
    &&& post.stack == pre.stack
    &&& pre.frames@.len() == 0 ==> res == Action::<N>::Error(VmError::FrameEmpty)
    &&& pre.frames@.len() > 0 ==> {
            let last = pre.frames@.len() - 1;
            let f = pre.frames@[last];
            let target = f.pc + offset;
            &&& (0 <= target <= usize::MAX) ==> res is Continue && post.frames@ == pre.frames@.update(last,
                crate::vm::CallFrame { pc: target as usize, ..f }) && post.error == pre.error
            &&& !(0 <= target <= usize::MAX) ==> res == Action::<N>::Error(VmError::Unimplemented)
        }
    &&& same_fiber_rest(pre, post)
}

/// The fields besides the objects, the stack and the calls are unchanged.
pub open spec fn same_fiber_rest<N: Copy>(pre: Fiber<N>, post: Fiber<N>) -> bool {
    &&& post.upvalues == pre.upvalues
    &&& post.imports == pre.imports
    &&& post.free == pre.free
    &&& post.allocations == pre.allocations
    &&& post.natives == pre.natives
    &&& post.init_symbol == pre.init_symbol
    &&& post.interner == pre.interner
}

/// A jump moves on only the next instruction of the running call, by
/// `offset` bytes: every call keeps its closure, its stack base and whether
/// it runs an import's top level, no other call moves, and the values and
/// objects stay as they are.
pub proof fn law_jump_moves_only_pc<N: Copy>(pre: Fiber<N>, post: Fiber<N>, res: Action<N>, offset: i16)
    requires
        op_jump_outcome(pre, post, res, offset),
        pre.frames@.len() > 0,
        res is Continue,
    ensures
        post.frames@.len() == pre.frames@.len(),
        forall|i: int| 0 <= i < pre.frames@.len() ==> {
            &&& (#[trigger] post.frames@[i]).closure == pre.frames@[i].closure
            &&& post.frames@[i].base_counter == pre.frames@[i].base_counter
            &&& post.frames@[i].top_level == pre.frames@[i].top_level
            &&& (i != pre.frames@.len() - 1 ==> post.frames@[i].pc == pre.frames@[i].pc)
        },
        post.frames@.last().pc == pre.frames@.last().pc + offset,
        post.stack == pre.stack,
        post.heap() == pre.heap(),
        post.upvalues == pre.upvalues,
        post.error == pre.error,
{
}

/// What `op_jump_if_false` does, from state `pre` to state `post` with action `res`.
pub open spec fn op_jump_if_false_outcome<N: Copy>(pre: Fiber<N>, post: Fiber<N>, res: Action<N>, offset: i16) -> bool {
    &&& post.heap() == pre.heap()
    &&& post.stack == pre.stack
    &&& pre.frames@.len() == 0 ==> res == Action::<N>::Error(VmError::FrameEmpty)
    &&& pre.frames@.len() > 0 && pre.items().len() == 0 ==> res == Action::<N>::Error(VmError::StackEmpty)
    &&& pre.frames@.len() > 0 && pre.items().len() > 0 ==> {
            let last = pre.frames@.len() - 1;
            let f = pre.frames@[last];
            let target = f.pc + offset;
            &&& !crate::memory::falsey(pre.items().last()) ==> res is Continue && post.frames == pre.frames
            &&& crate::memory::falsey(pre.items().last()) && (0 <= target <= usize::MAX)
                ==> res is Continue && post.frames@ == pre.frames@.update(last, crate::vm::CallFrame { pc: target as usize, ..f })
            &&& crate::memory::falsey(pre.items().last()) && !(0 <= target <= usize::MAX)
                ==> res == Action::<N>::Error(VmError::Unimplemented)
        }
    &&& same_fiber_rest(pre, post)
}

/// What an operation on the top two numbers does: pops them and asks the
/// host to compute `op` on them, the lower one first.
pub open spec fn binary_outcome<N: Copy>(pre: Fiber<N>, post: Fiber<N>, res: Action<N>, op: crate::vm::Arithmetic) -> bool {
    &&& post.heap() == pre.heap()
    &&& post.frames == pre.frames
    &&& pre.items().len() < 2 ==> res == Action::<N>::Error(VmError::StackEmpty)
    &&& pre.items().len() >= 2 ==> {
        let n = pre.items().len();
        let a = pre.items()[n - 2];
        let b = pre.items()[n - 1];
        &&& post.items() =~= pre.items().subrange(0, n - 2)
        &&& (a is Number && b is Number) ==> res == Action::<N>::Binary(op, a->Number_0, b->Number_0)
        &&& !(a is Number && b is Number) ==> res == Action::<N>::Error(VmError::UnexpectedValue)
    }
}

/// What `op_subtract` does, from state `pre` to state `post` with action `res`.
pub open spec fn op_subtract_outcome<N: Copy>(pre: Fiber<N>, post: Fiber<N>, res: Action<N>) -> bool {
    binary_outcome(pre, post, res, crate::vm::Arithmetic::Subtract)
}

/// What `op_multiply` does, from state `pre` to state `post` with action `res`.
pub open spec fn op_multiply_outcome<N: Copy>(pre: Fiber<N>, post: Fiber<N>, res: Action<N>) -> bool {
    binary_outcome(pre, post, res, crate::vm::Arithmetic::Multiply)
}

/// What `op_divide` does, from state `pre` to state `post` with action `res`.
pub open spec fn op_divide_outcome<N: Copy>(pre: Fiber<N>, post: Fiber<N>, res: Action<N>) -> bool {
    binary_outcome(pre, post, res, crate::vm::Arithmetic::Divide)
}

/// What `op_greater` does, from state `pre` to state `post` with action `res`.
pub open spec fn op_greater_outcome<N: Copy>(pre: Fiber<N>, post: Fiber<N>, res: Action<N>) -> bool {
    binary_outcome(pre, post, res, crate::vm::Arithmetic::Greater)
}

/// What `op_less` does, from state `pre` to state `post` with action `res`.
pub open spec fn op_less_outcome<N: Copy>(pre: Fiber<N>, post: Fiber<N>, res: Action<N>) -> bool {
    binary_outcome(pre, post, res, crate::vm::Arithmetic::Less)
}

/// What `op_negate` does, from state `pre` to state `post` with action `res`.
pub open spec fn op_negate_outcome<N: Copy>(pre: Fiber<N>, post: Fiber<N>, res: Action<N>) -> bool {
    &&& post.heap() == pre.heap()
    &&& pre.items().len() == 0 ==> res == Action::<N>::Error(VmError::StackEmpty)
    &&& pre.items().len() > 0 ==> {
            &&& post.items() =~= pre.items().drop_last()
            &&& pre.items().last() is Number ==> res == Action::<N>::Negate(pre.items().last()->Number_0)
            &&& !(pre.items().last() is Number) ==> res == Action::<N>::Error(VmError::UnexpectedValue)
        }
}

/// What `op_add` does, from state `pre` to state `post` with action `res`.
pub open spec fn op_add_outcome<N: Copy>(pre: Fiber<N>, post: Fiber<N>, res: Action<N>) -> bool {
    &&& same_kinds(pre.heap(), post.heap())
    &&& post.frames == pre.frames
    &&& pre.items().len() < 2 ==> res == Action::<N>::Error(VmError::StackEmpty)
    &&& pre.items().len() >= 2 ==> {
            let n = pre.items().len();
            let a = pre.items()[n - 2];
            let b = pre.items()[n - 1];
            &&& (a is Number && b is Number) ==> res == Action::<N>::Binary(crate::vm::Arithmetic::Add, a->Number_0, b->Number_0)
                && post.items() =~= pre.items().subrange(0, n - 2)
            &&& (a is String && b is String) ==> {
                &&& res is Continue
                &&& post.items().drop_last() =~= pre.items().subrange(0, n - 2)
                &&& post.items().len() == n - 1
                &&& post.items().last() matches Value::String(g)
                    && post.heap()[g.index as int] is String
                    && string_at(post.heap(), g)
                    == string_at(pre.heap(), a->String_0) + string_at(pre.heap(), b->String_0)
            }
            &&& !(a is Number && b is Number) && !(a is String && b is String)
                ==> res == Action::<N>::Error(VmError::UnexpectedValue)
        }
}

/// What `op_equal` does, from state `pre` to state `post` with action `res`.
pub open spec fn op_equal_outcome<N: Copy>(pre: Fiber<N>, post: Fiber<N>, res: Action<N>) -> bool {
    &&& post.heap() == pre.heap()
    &&& post.frames == pre.frames
    &&& pre.items().len() < 2 ==> res == Action::<N>::Error(VmError::StackEmpty)
    &&& pre.items().len() >= 2 ==> {
            let n = pre.items().len();
            let a = pre.items()[n - 2];
            let b = pre.items()[n - 1];
            &&& (a is Number && b is Number) ==> res == Action::<N>::Binary(crate::vm::Arithmetic::Equal, a->Number_0, b->Number_0)
                && post.items() =~= pre.items().subrange(0, n - 2)
            &&& !(a is Number && b is Number) ==> res is Continue && post.items()
                == pre.items().subrange(0, n - 2).push(Value::<N>::Boolean(
                    crate::memory::same_type(a, b) && values_equal(pre.heap(), a, b)))
        }
}

/// What `op_print` does, from state `pre` to state `post` with action `res`.
pub open spec fn op_print_outcome<N: Copy>(pre: Fiber<N>, post: Fiber<N>, res: Action<N>) -> bool {
    &&& post.heap() == pre.heap()
    &&& post.frames == pre.frames
    &&& pre.items().len() == 0 ==> res == Action::<N>::Error(VmError::StackEmpty)
    &&& pre.items().len() > 0 ==> {
            &&& post.items() =~= pre.items().drop_last()
            &&& res matches Action::Print(pieces)
                && shown_all(pieces@) == show(pre.heap(), pre.items().last(), PRINT_DEPTH as nat)
        }
}

/// What `op_get_upvalue` does, from state `pre` to state `post` with action `res`.
pub open spec fn op_get_upvalue_outcome<N: Copy>(pre: Fiber<N>, post: Fiber<N>, res: Action<N>, index: u32) -> bool {
    &&& post.heap() == pre.heap()
    &&& post.frames == pre.frames
    &&& pre.frames@.len() == 0 ==> res == Action::<N>::Error(VmError::FrameEmpty)
    &&& pre.frames@.len() > 0 ==> {
            let c = closure_at(pre.heap(), pre.frames@.last().closure);
            &&& index >= c.upvalues@.len() ==> res == Action::<N>::Error(VmError::UnexpectedConstant)
            &&& index < c.upvalues@.len() ==> (res is Continue <==> pre.items().len() < STACK_SIZE)
            &&& res is Continue ==> post.items()
                == pre.items().push(pre.upvalue_value(c.upvalues@[index as int]))
        }
}

/// What `op_set_upvalue` does, from state `pre` to state `post` with action `res`.
pub open spec fn op_set_upvalue_outcome<N: Copy>(pre: Fiber<N>, post: Fiber<N>, res: Action<N>, index: u32) -> bool {
    &&& same_kinds(pre.heap(), post.heap())
    &&& post.frames == pre.frames
    &&& pre.frames@.len() == 0 ==> res == Action::<N>::Error(VmError::FrameEmpty)
    &&& pre.frames@.len() > 0 ==> {
            let c = closure_at(pre.heap(), pre.frames@.last().closure);
            &&& index >= c.upvalues@.len() ==> res == Action::<N>::Error(VmError::UnexpectedConstant)
            &&& index < c.upvalues@.len() && pre.items().len() == 0 ==> res == Action::<N>::Error(VmError::StackEmpty)
            &&& index < c.upvalues@.len() && pre.items().len() > 0 ==> res is Continue
                && post.upvalue_value(c.upvalues@[index as int]) == pre.items().last()
                && post.items().len() == pre.items().len()
        }
}

/// What `op_close_upvalue` does, from state `pre` to state `post` with action `res`.
pub open spec fn op_close_upvalue_outcome<N: Copy>(pre: Fiber<N>, post: Fiber<N>, res: Action<N>) -> bool {
    &&& same_kinds(pre.heap(), post.heap())
    &&& post.frames == pre.frames
    &&& pre.items().len() == 0 ==> res == Action::<N>::Error(VmError::StackEmpty)
    &&& pre.items().len() > 0 ==> res is Continue && post.items() =~= pre.items().drop_last()
}

/// Every variable that a new closure captures can be found: a local slot
/// below the top of the stack, or a variable the running closure captured.
pub open spec fn captures_ok(names: Seq<crate::bytecode::Upvalue>, base: usize, captured: nat) -> bool {
    forall|j: int| 0 <= j < names.len() ==> match #[trigger] names[j] {
        crate::bytecode::Upvalue::Local(i) => base + i < STACK_SIZE,
        crate::bytecode::Upvalue::Upvalue(u) => u < captured,
    }
}

/// What `op_closure` does, from state `pre` to state `post` with action `res`.
pub open spec fn op_closure_outcome<N: Copy>(pre: Fiber<N>, post: Fiber<N>, res: Action<N>, index: u32) -> bool {
    &&& same_kinds(pre.heap(), post.heap())
    &&& post.frames == pre.frames
    &&& pre.frames@.len() == 0 ==> res == Action::<N>::Error(VmError::FrameEmpty)
    &&& pre.frames@.len() > 0 ==> {
            let import = pre.spec_import();
            let m = import_at(pre.heap(), import);
            &&& index >= m.module.spec_closures().len() ==> res == Action::<N>::Error(VmError::UnexpectedConstant)
            &&& index < m.module.spec_closures().len() ==> (res is Continue <==> captures_ok(
                    m.module.spec_closures()[index as int].upvalues@, pre.frames@.last().base_counter,
                    closure_at(pre.heap(), pre.frames@.last().closure).upvalues@.len())
                    && pre.items().len() < STACK_SIZE)
            &&& res is Continue ==> {
                let desc = m.module.spec_closures()[index as int];
                let frame = pre.frames@.last();
                let running = closure_at(pre.heap(), frame.closure);
                &&& index < m.module.spec_closures().len()
                &&& post.items().drop_last() =~= pre.items()
                &&& post.items().len() == pre.items().len() + 1
                &&& post.items().last() matches Value::Closure(g) && {
                    let c = closure_at(post.heap(), g);
                    &&& post.heap()[g.index as int] is Closure
                    &&& c.function.name == desc.function.name
                    &&& c.function.chunk_index == desc.function.chunk_index
                    &&& c.function.arity == desc.function.arity
                    &&& c.function.import == import
                    &&& c.upvalues@.len() == desc.upvalues@.len()
                    &&& forall|j: int| 0 <= j < desc.upvalues@.len() ==> match #[trigger] desc.upvalues@[j] {
                        crate::bytecode::Upvalue::Local(i) =>
                            upvalue_at(post.heap(), c.upvalues@[j]) == crate::memory::Upvalue::<N>::Open(
                                (frame.base_counter + i) as usize),
                        crate::bytecode::Upvalue::Upvalue(u) => c.upvalues@[j] == running.upvalues@[u as int],
                    }
                }
            }
        }
}

/// What `op_class` does, from state `pre` to state `post` with action `res`.
pub open spec fn op_class_outcome<N: Copy>(pre: Fiber<N>, post: Fiber<N>, res: Action<N>, index: u8) -> bool {
    &&& same_kinds(pre.heap(), post.heap())
    &&& post.frames == pre.frames
    &&& pre.frames@.len() == 0 ==> res == Action::<N>::Error(VmError::FrameEmpty)
    &&& pre.frames@.len() > 0 ==> {
            let m = import_at(pre.heap(), pre.spec_import());
            &&& index >= m.module.spec_classes().len() ==> res == Action::<N>::Error(VmError::UnexpectedConstant)
            &&& index < m.module.spec_classes().len() ==> (res is Continue <==> pre.items().len() < STACK_SIZE)
            &&& res is Continue ==> {
                &&& post.items().drop_last() =~= pre.items()
                &&& post.items().len() == pre.items().len() + 1
                &&& post.items().last() matches Value::Class(g)
                    && post.heap()[g.index as int] is Class
                    && post.heap()[g.index as int]->Class_0.name == m.module.spec_classes()[index as int].name
                    && post.heap()[g.index as int]->Class_0.methods.spec_map() == Map::<u32, Gc>::empty()
            }
        }
}

/// What `op_method` does, from state `pre` to state `post` with action `res`.
pub open spec fn op_method_outcome<N: Copy>(pre: Fiber<N>, post: Fiber<N>, res: Action<N>, index: u32) -> bool {
    &&& same_kinds(pre.heap(), post.heap())
    &&& post.frames == pre.frames
    &&& pre.frames@.len() == 0 ==> res == Action::<N>::Error(VmError::FrameEmpty)
    &&& res is Continue ==> {
            let n = pre.items().len();
            let m = import_at(pre.heap(), pre.spec_import());
            &&& index < m.symbols@.len()
            &&& n >= 2
            &&& pre.items()[n - 2] matches Value::Class(class)
                && pre.items()[n - 1] matches Value::Closure(closure)
                && post.heap()[class.index as int]->Class_0.methods.spec_map()
                    == pre.heap()[class.index as int]->Class_0.methods.spec_map().insert(
                        m.symbols@[index as int].id(), closure)
            &&& post.items() =~= pre.items().drop_last()
        }
    &&& pre.frames@.len() > 0 ==> {
            let n = pre.items().len();
            let m = import_at(pre.heap(), pre.spec_import());
            &&& index >= m.symbols@.len() ==> res == Action::<N>::Error(VmError::UnexpectedConstant)
            &&& index < m.symbols@.len() && n < 2 ==> res == Action::<N>::Error(VmError::StackEmpty)
            &&& index < m.symbols@.len() && n >= 2 && !(pre.items()[n - 2] is Class && pre.items()[n - 1] is Closure)
                ==> res == Action::<N>::Error(VmError::UnexpectedConstant)
            &&& index < m.symbols@.len() && n >= 2 && pre.items()[n - 2] is Class && pre.items()[n - 1] is Closure
                ==> (res is Continue <==> pre.heap()[pre.items()[n - 2]->Class_0.index as int]->Class_0.methods.spec_capacity()
                        <= usize::MAX / 2)
                && (!(res is Continue) ==> res == Action::<N>::Error(VmError::OutOfMemory))
        }
}

/// What `op_get_property` does, from state `pre` to state `post` with action `res`.
pub open spec fn op_get_property_outcome<N: Copy>(pre: Fiber<N>, post: Fiber<N>, res: Action<N>, index: u32) -> bool {
    &&& same_kinds(pre.heap(), post.heap())
    &&& post.frames == pre.frames
    &&& pre.frames@.len() == 0 ==> res == Action::<N>::Error(VmError::FrameEmpty)
    &&& pre.frames@.len() > 0 ==> {
            let m = import_at(pre.heap(), pre.spec_import());
            let key = m.symbols@[index as int].id();
            let n = pre.items().len();
            &&& index >= m.symbols@.len() ==> res == Action::<N>::Error(VmError::UnexpectedConstant)
            &&& index < m.symbols@.len() && n == 0 ==> res == Action::<N>::Error(VmError::StackEmpty)
            &&& index < m.symbols@.len() && n > 0 && !(pre.items().last() is Instance)
                ==> res == Action::<N>::Error(VmError::UnexpectedValue)
            &&& index < m.symbols@.len() && n > 0 && pre.items().last() is Instance ==> {
                let g = pre.items().last()->Instance_0;
                let instance = pre.heap()[g.index as int]->Instance_0;
                let class = pre.heap()[instance.class.index as int]->Class_0;
                &&& instance.fields.spec_map().contains_key(key) ==> res is Continue
                    && post.items() =~= pre.items().drop_last().push(instance.fields.spec_map()[key])
                &&& !instance.fields.spec_map().contains_key(key) && class.methods.spec_map().contains_key(key) ==> {
                    &&& res is Continue
                    &&& post.items().drop_last() =~= pre.items().drop_last()
                    &&& post.items().len() == n
                    &&& post.items().last() matches Value::BoundMethod(b)
                        && post.heap()[b.index as int] == Object::<N>::BoundMethod(
                            crate::memory::BoundMethod { receiver: g, method: class.methods.spec_map()[key] })
                }
                &&& !instance.fields.spec_map().contains_key(key) && !class.methods.spec_map().contains_key(key)
                    ==> res == Action::<N>::Error(VmError::UndefinedProperty)
            }
        }
}

/// What `op_set_property` does, from state `pre` to state `post` with action `res`.
pub open spec fn op_set_property_outcome<N: Copy>(pre: Fiber<N>, post: Fiber<N>, res: Action<N>, index: u32) -> bool {
    &&& same_kinds(pre.heap(), post.heap())
    &&& post.frames == pre.frames
    &&& pre.frames@.len() == 0 ==> res == Action::<N>::Error(VmError::FrameEmpty)
    &&& res is Continue ==> {
            let m = import_at(pre.heap(), pre.spec_import());
            let key = m.symbols@[index as int].id();
            let n = pre.items().len();
            &&& index < m.symbols@.len()
            &&& n >= 2
            &&& pre.items()[n - 2] matches Value::Instance(g)
                && post.heap()[g.index as int]->Instance_0.fields.spec_map()
                    == pre.heap()[g.index as int]->Instance_0.fields.spec_map().insert(key, pre.items()[n - 1])
            &&& post.items() =~= pre.items().subrange(0, n - 2).push(pre.items()[n - 1])
        }
    &&& pre.frames@.len() > 0 ==> {
            let m = import_at(pre.heap(), pre.spec_import());
            let n = pre.items().len();
            &&& index >= m.symbols@.len() ==> res == Action::<N>::Error(VmError::UnexpectedConstant)
            &&& index < m.symbols@.len() && n < 2 ==> res == Action::<N>::Error(VmError::StackEmpty)
            &&& index < m.symbols@.len() && n >= 2 && !(pre.items()[n - 2] is Instance)
                ==> res == Action::<N>::Error(VmError::UnexpectedValue)
            &&& index < m.symbols@.len() && n >= 2 && pre.items()[n - 2] is Instance
                ==> (res is Continue <==> pre.heap()[pre.items()[n - 2]->Instance_0.index as int]->Instance_0.fields.spec_capacity()
                        <= usize::MAX / 2)
                && (!(res is Continue) ==> res == Action::<N>::Error(VmError::OutOfMemory))
        }
}

/// What `op_list` does, from state `pre` to state `post` with action `res`.
pub open spec fn op_list_outcome<N: Copy>(pre: Fiber<N>, post: Fiber<N>, res: Action<N>, arity: u8) -> bool {
    &&& same_kinds(pre.heap(), post.heap())
    &&& post.frames == pre.frames
    &&& pre.items().len() < arity ==> res == Action::<N>::Error(VmError::StackEmpty)
    &&& pre.items().len() >= arity ==> {
            let n = pre.items().len();
            &&& res is Continue <==> n - arity < STACK_SIZE
            &&& res is Continue ==> post.items().drop_last() =~= pre.items().subrange(0, n - arity)
            &&& res is Continue ==> post.items().len() == n - arity + 1
            &&& res is Continue ==> (post.items().last() matches Value::List(g)
                && post.heap()[g.index as int] is List
                && post.heap()[g.index as int]->List_0.items@ == pre.items().subrange(n - arity, n as int))
        }
}

/// What `op_nil` does, from state `pre` to state `post` with action `res`.
pub open spec fn op_nil_outcome<N: Copy>(pre: Fiber<N>, post: Fiber<N>, res: Action<N>) -> bool {
    &&& post.heap() == pre.heap()
    &&& res is Continue <==> pre.items().len() < STACK_SIZE
    &&& res is Continue ==> post.items() =~= pre.items().push(Value::<N>::Nil)
}

/// What `op_bool` does, from state `pre` to state `post` with action `res`.
pub open spec fn op_bool_outcome<N: Copy>(pre: Fiber<N>, post: Fiber<N>, res: Action<N>, value: bool) -> bool {
    &&& post.heap() == pre.heap()
    &&& res is Continue <==> pre.items().len() < STACK_SIZE
    &&& res is Continue ==> post.items() =~= pre.items().push(Value::<N>::Boolean(value))
}

/// What `op_pop` does, from state `pre` to state `post` with action `res`.
pub open spec fn op_pop_outcome<N: Copy>(pre: Fiber<N>, post: Fiber<N>, res: Action<N>) -> bool {
    &&& post.heap() == pre.heap()
    &&& res is Continue <==> pre.items().len() > 0
    &&& res is Continue ==> post.items() =~= pre.items().drop_last()
    &&& !(res is Continue) ==> res == Action::<N>::Error(VmError::StackEmpty)
}

/// What `op_not` does, from state `pre` to state `post` with action `res`.
pub open spec fn op_not_outcome<N: Copy>(pre: Fiber<N>, post: Fiber<N>, res: Action<N>) -> bool {
    &&& post.heap() == pre.heap()
    &&& res is Continue <==> pre.items().len() > 0
    &&& res is Continue ==> post.items()
            == pre.items().drop_last().push(Value::<N>::Boolean(crate::memory::falsey(pre.items().last())))
    &&& !(res is Continue) ==> res == Action::<N>::Error(VmError::StackEmpty)
}

/// What `op_get_index` does, from state `pre` to state `post` with action `res`.
pub open spec fn op_get_index_outcome<N: Copy, F: Fn(N) -> usize>(pre: Fiber<N>, post: Fiber<N>, res: Action<N>, to_index: &F) -> bool {
    &&& post.heap() == pre.heap()
    &&& post.frames == pre.frames
    &&& pre.items().len() < 2 ==> res == Action::<N>::Error(VmError::StackEmpty)
    &&& pre.items().len() >= 2 ==> {
            let n = pre.items().len();
            let list = pre.items()[n - 2];
            let index = pre.items()[n - 1];
            &&& !(list is List) ==> res == Action::<N>::Error(VmError::UnexpectedValue)
            &&& list is List && !(index is Number) ==> res == Action::<N>::Error(VmError::UnexpectedValue)
            &&& list is List && index is Number ==> {
                let elements = pre.heap()[list->List_0.index as int]->List_0.items@;
                exists|i: usize| #[trigger] to_index.ensures((index->Number_0,), i) && {
                    &&& i >= elements.len() ==> res == Action::<N>::Error(VmError::IndexOutOfRange)
                    &&& i < elements.len() ==> res is Continue
                        && post.items() =~= pre.items().subrange(0, n - 2).push(elements[i as int])
                }
            }
        }
}

/// What `op_set_index` does, from state `pre` to state `post` with action `res`.
pub open spec fn op_set_index_outcome<N: Copy, F: Fn(N) -> usize>(pre: Fiber<N>, post: Fiber<N>, res: Action<N>, to_index: &F) -> bool {
    &&& same_kinds(pre.heap(), post.heap())
    &&& post.frames == pre.frames
    &&& pre.items().len() < 3 ==> res == Action::<N>::Error(VmError::StackEmpty)
    &&& pre.items().len() >= 3 ==> {
            let n = pre.items().len();
            let list = pre.items()[n - 3];
            let index = pre.items()[n - 2];
            let value = pre.items()[n - 1];
            &&& !(list is List) ==> res == Action::<N>::Error(VmError::UnexpectedValue)
            &&& list is List && !(index is Number) ==> res == Action::<N>::Error(VmError::UnexpectedValue)
            &&& list is List && index is Number ==> {
                let g = list->List_0;
                let elements = pre.heap()[g.index as int]->List_0.items@;
                exists|i: usize| #[trigger] to_index.ensures((index->Number_0,), i) && {
                    &&& i >= elements.len() ==> res == Action::<N>::Error(VmError::IndexOutOfRange)
                    &&& i < elements.len() ==> res is Continue
                        && post.items() =~= pre.items().subrange(0, n - 3).push(value)
                        && post.heap()[g.index as int]->List_0.items@ == elements.update(i as int, value)
                }
            }
        }
}

impl<N: Copy> Fiber<N> {
    /// The import of the closure running now.
    pub open spec fn spec_import(&self) -> Gc {
        closure_at(self.heap(), self.frames@.last().closure).function.import
    }

    /// Puts a value on the stack and goes on; stops with `StackOverflow`
    /// when the stack is full.
    pub fn push_value(&mut self, value: Value<N>) -> (res: Action<N>)
        requires
            old(self).wf(),
            valid_value(old(self).heap(), value),
        ensures
            final(self).wf(),
            final(self).heap() == old(self).heap(),
            final(self).frames == old(self).frames,
            final(self).upvalues == old(self).upvalues,
            res is Continue <==> old(self).items().len() < STACK_SIZE,
            res is Continue ==> final(self).items() == old(self).items().push(value),
            !(res is Continue) ==> res == Action::<N>::Error(VmError::StackOverflow),
    {
        match self.push(value) {
            Ok(()) => Action::Continue,
            Err(e) => self.fail(e),
        }
    }

    /// The import of the closure running now.
    pub fn current_import(&self) -> (res: Result<Gc, VmError>)
        requires
            self.wf(),
        ensures
            res == if self.frames@.len() > 0 {
                Ok::<Gc, VmError>(self.spec_import())
            } else {
                Err::<Gc, VmError>(VmError::FrameEmpty)
            },
            res matches Ok(g) ==> at(self.heap(), g, Kind::Import),
    {
        let frame = match self.current_frame() {
            Ok(f) => f,
            Err(e) => return Err(e),
        };
        match &self.objects[frame.closure.index] {
            Object::Closure(c) => {
                proof {
                    assert(object_ok(self.heap(), self.heap()[frame.closure.index as int]));
                }
                Ok(c.function.import)
            },
            _ => Err(VmError::FrameEmpty),
        }
    }

    /// The symbol of identifier `index` of import `import`;
    /// `UnexpectedConstant` when there is no such identifier.
    pub fn symbol_of(&self, import: Gc, index: u32) -> (res: Result<Symbol, VmError>)
        requires
            self.wf(),
            at(self.heap(), import, Kind::Import),
        ensures
            res == if index < import_at(self.heap(), import).symbols@.len() {
                Ok::<Symbol, VmError>(import_at(self.heap(), import).symbols@[index as int])
            } else {
                Err::<Symbol, VmError>(VmError::UnexpectedConstant)
            },
            res matches Ok(s) ==> s.id() >= 1,
    {
        match &self.objects[import.index] {
            Object::Import(m) => {
                proof {
                    assert(object_ok(self.heap(), self.heap()[import.index as int]));
                }
                if (index as usize) < m.symbols.len() {
                    Ok(m.symbol(index as usize))
                } else {
                    Err(VmError::UnexpectedConstant)
                }
            },
            _ => Err(VmError::UnexpectedConstant),
        }
    }

    /// Reads the local slot `index` of the call running now onto the stack.
    pub fn op_get_local(&mut self, index: u32) -> (res: Action<N>)
        requires
            old(self).wf(),
        ensures
            final(self).wf(),
            op_get_local_outcome(*old(self), *final(self), res, index),
    {
        let frame = match self.current_frame() {
            Ok(f) => f,
            Err(e) => return self.fail(e),
        };
        let slot = index as usize;
        if slot >= STACK_SIZE - frame.base_counter {
            return self.fail(VmError::StackOverflow);
        }
        let value = *self.stack.get(frame.base_counter + slot);
        self.push_value(value)
    }

    /// Writes the top value into local slot `index` of the call running now,
    /// leaving it on the stack.
    pub fn op_set_local(&mut self, index: u32) -> (res: Action<N>)
        requires
            old(self).wf(),
        ensures
            final(self).wf(),
            op_set_local_outcome(*old(self), *final(self), res, index),
    {
        let frame = match self.current_frame() {
            Ok(f) => f,
            Err(e) => return self.fail(e),
        };
        let value = match self.peek(0) {
            Ok(v) => v,
            Err(e) => return self.fail(e),
        };
        let slot = index as usize;
        if slot >= STACK_SIZE - frame.base_counter {
            return self.fail(VmError::StackOverflow);
        }
        let ghost before = self.stack.spec_slots();
        self.stack.set(frame.base_counter + slot, value);
        proof {
            assert forall|i: int| 0 <= i < self.stack.spec_slots().len()
                implies valid_value(self.objects@, #[trigger] self.stack.spec_slots()[i]) by {
                if i != frame.base_counter + slot {
                    assert(self.stack.spec_slots()[i] == before[i]);
                }
            }
        }
        Action::Continue
    }

    /// Gives global `symbol` of `import` the value `value`; `OutOfMemory`,
    /// with nothing changed, when its table cannot grow.
    pub fn set_global_of(&mut self, import: Gc, symbol: Symbol, value: Value<N>) -> (res: Result<(), VmError>)
        requires
            old(self).wf(),
            at(old(self).heap(), import, Kind::Import),
            symbol.id() >= 1,
            valid_value(old(self).heap(), value),
        ensures
            final(self).wf(),
            same_kinds(old(self).heap(), final(self).heap()),
            final(self).stack == old(self).stack,
            final(self).frames == old(self).frames,
            final(self).upvalues == old(self).upvalues,
            final(self).imports == old(self).imports,
            final(self).natives == old(self).natives,
            final(self).interner == old(self).interner,
            final(self).init_symbol == old(self).init_symbol,
            final(self).error == old(self).error,
            res is Err ==> res == Err::<(), VmError>(VmError::OutOfMemory) && final(self).heap() == old(self).heap(),
            res is Err <==> import_at(old(self).heap(), import).globals.spec_capacity() > usize::MAX / 2,
            res is Ok ==> {
                let before = import_at(old(self).heap(), import);
                let after = import_at(final(self).heap(), import);
                &&& final(self).heap().len() == old(self).heap().len()
                &&& forall|j: int| 0 <= j < old(self).heap().len() && j != import.index
                    ==> final(self).heap()[j] == old(self).heap()[j]
                &&& final(self).heap()[import.index as int] is Import
                &&& after.name == before.name
                &&& after.module == before.module
                &&& after.numbers == before.numbers
                &&& after.symbols == before.symbols
                &&& after.globals.spec_map() == before.globals.spec_map().insert(symbol.id(), value)
            },
    {
        let i = import.index;
        let ghost heap = self.objects@;
        proof {
            assert(object_ok(heap, heap[i as int]));
        }
        let mut taken: Object<N> = Object::String(String::new());
        self.objects.set_and_swap(i, &mut taken);
        match taken {
            Object::Import(mut m) => {
                if m.globals.capacity() > usize::MAX / 2 {
                    self.objects.set(i, Object::Import(m));
                    proof {
                        assert(self.objects@ =~= heap);
                    }
                    return Err(VmError::OutOfMemory);
                }
                let ghost m0 = m;
                m.set_global(symbol, value);
                let object = Object::Import(m);
                proof {
                    assert forall|k: u32| #[trigger] m.globals.spec_map().contains_key(k)
                        implies valid_value(heap, m.globals.spec_map()[k]) by {
                        if k != symbol.id() {
                            assert(m0.globals.spec_map().contains_key(k));
                        }
                    }
                    assert(object_ok(heap, object));
                    crate::vm::lemma_heap_update(heap, i as int, object);
                    old(self).lemma_refs_kept(heap.update(i as int, object));
                }
                self.objects.set(i, object);
                proof {
                    assert(self.objects@ =~= heap.update(i as int, object));
                }
                Ok(())
            },
            other => {
                self.objects.set(i, other);
                Err(VmError::OutOfMemory)
            },
        }
    }

    /// Defines global `index` of the running import with the value popped.
    pub fn op_define_global(&mut self, index: u32) -> (res: Action<N>)
        requires
            old(self).wf(),
        ensures
            final(self).wf(),
            op_define_global_outcome(*old(self), *final(self), res, index),
    {
        let import = match self.current_import() {
            Ok(g) => g,
            Err(e) => return self.fail(e),
        };
        let symbol = match self.symbol_of(import, index) {
            Ok(s) => s,
            Err(e) => return self.fail(e),
        };
        let value = match self.pop() {
            Ok(v) => v,
            Err(e) => return self.fail(e),
        };
        match self.set_global_of(import, symbol, value) {
            Ok(()) => Action::Continue,
            Err(e) => self.fail(e),
        }
    }

    /// Reads global `index` of the running import onto the stack;
    /// `GlobalNotDefined` when it has no value.
    pub fn op_get_global(&mut self, index: u32) -> (res: Action<N>)
        requires
            old(self).wf(),
        ensures
            final(self).wf(),
            op_get_global_outcome(*old(self), *final(self), res, index),
    {
        let import = match self.current_import() {
            Ok(g) => g,
            Err(e) => return self.fail(e),
        };
        let symbol = match self.symbol_of(import, index) {
            Ok(s) => s,
            Err(e) => return self.fail(e),
        };
        let found = match &self.objects[import.index] {
            Object::Import(m) => {
                proof {
                    assert(object_ok(self.heap(), self.heap()[import.index as int]));
                }
                m.global(symbol)
            },
            _ => None,
        };
        match found {
            Some(value) => self.push_value(value),
            None => self.fail(VmError::GlobalNotDefined),
        }
    }

    /// Writes the top value into global `index` of the running import,
    /// leaving it on the stack; `GlobalNotDefined` when it has no value.
    pub fn op_set_global(&mut self, index: u32) -> (res: Action<N>)
        requires
            old(self).wf(),
        ensures
            final(self).wf(),
            op_set_global_outcome(*old(self), *final(self), res, index),
    {
        let import = match self.current_import() {
            Ok(g) => g,
            Err(e) => return self.fail(e),
        };
        let symbol = match self.symbol_of(import, index) {
            Ok(s) => s,
            Err(e) => return self.fail(e),
        };
        let defined = match &self.objects[import.index] {
            Object::Import(m) => {
                proof {
                    assert(object_ok(self.heap(), self.heap()[import.index as int]));
                }
                m.has_global(symbol)
            },
            _ => false,
        };
        if !defined {
            return self.fail(VmError::GlobalNotDefined);
        }
        let value = match self.peek(0) {
            Ok(v) => v,
            Err(e) => return self.fail(e),
        };
        match self.set_global_of(import, symbol, value) {
            Ok(()) => Action::Continue,
            Err(e) => self.fail(e),
        }
    }

    /// Puts a new string object holding `text` on the stack.
    pub fn push_string(&mut self, text: String) -> (res: Action<N>)
        requires
            old(self).wf(),
        ensures
            final(self).wf(),
            same_kinds(old(self).heap(), final(self).heap()),
            final(self).frames == old(self).frames,
            final(self).upvalues == old(self).upvalues,
            res is Continue <==> old(self).items().len() < STACK_SIZE,
            res is Continue ==> final(self).items().drop_last() == old(self).items(),
            res is Continue ==> final(self).items().len() == old(self).items().len() + 1,
            res is Continue ==> (final(self).items().last() matches Value::String(g)
                && allocated(old(self).heap(), final(self).heap(), g, Object::String(text))),
            !(res is Continue) ==> res == Action::<N>::Error(VmError::StackOverflow),
    {
        let g = self.manage(Object::String(text));
        self.push_value(Value::String(g))
    }

    /// Puts constant `index` of the running import on the stack: the host's
    /// value of a number, a new string object for a string.
    /// Pushes constant `index` of the running import where it is of the
    /// kind the instruction names: a number, or with `number` false a
    /// string.
    pub fn op_typed_constant(&mut self, index: u16, number: bool) -> (res: Action<N>)
        requires
            old(self).wf(),
        ensures
            final(self).wf(),
            op_typed_constant_outcome(*old(self), *final(self), res, index as u32, number),
    {
        let import = match self.current_import() {
            Ok(g) => g,
            Err(e) => return self.fail(e),
        };
        let i = index as usize;
        let kind_matches = match &self.objects[import.index] {
            Object::Import(m) => {
                if i < m.module.constants().len() {
                    match m.constant(i) {
                        Constant::Number(_) => number,
                        Constant::String(_) => !number,
                    }
                } else {
                    false
                }
            },
            _ => false,
        };
        if kind_matches {
            self.op_constant(index as u32)
        } else {
            self.fail(VmError::UnexpectedConstant)
        }
    }

    pub fn op_constant(&mut self, index: u32) -> (res: Action<N>)
        requires
            old(self).wf(),
        ensures
            final(self).wf(),
            op_constant_outcome(*old(self), *final(self), res, index),
    {
        let import = match self.current_import() {
            Ok(g) => g,
            Err(e) => return self.fail(e),
        };
        let i = index as usize;
        let found: Option<Result<N, String>> = match &self.objects[import.index] {
            Object::Import(m) => {
                if i < m.module.constants().len() {
                    match m.constant(i) {
                        Constant::Number(_) => {
                            if i < m.numbers.len() {
                                match m.numbers[i] {
                                    Some(n) => Some(Ok(n)),
                                    None => None,
                                }
                            } else {
                                None
                            }
                        },
                        Constant::String(text) => Some(Err(text.clone())),
                    }
                } else {
                    None
                }
            },
            _ => None,
        };
        match found {
            Some(Ok(n)) => self.push_value(Value::Number(n)),
            Some(Err(text)) => self.push_string(text),
            None => self.fail(VmError::UnexpectedConstant),
        }
    }

    /// Moves the next instruction of the running call by `offset` bytes;
    /// `Unimplemented` when that falls outside the offsets there can be.
    pub fn jump_by(&mut self, offset: i16) -> (res: Action<N>)
        requires
            old(self).wf(),
            old(self).frames@.len() > 0,
        ensures
            final(self).wf(),
            final(self).heap() == old(self).heap(),
            final(self).stack == old(self).stack,
            same_fiber_rest(*old(self), *final(self)),
            ({
                let last = old(self).frames@.len() - 1;
                let f = old(self).frames@[last];
                let target = f.pc + offset;
                &&& (0 <= target <= usize::MAX) ==> res is Continue && final(self).error == old(self).error
                    && final(self).frames@ == old(self).frames@.update(last,
                        crate::vm::CallFrame { closure: f.closure, base_counter: f.base_counter, pc: target as usize, top_level: f.top_level })
                &&& !(0 <= target <= usize::MAX) ==> res == Action::<N>::Error(VmError::Unimplemented)
            }),
    {
        let last = self.frames.len() - 1;
        let frame = self.frames[last];
        let pc = frame.pc;
        let target: usize = if offset >= 0 {
            let forward = offset as usize;
            if forward > usize::MAX - pc {
                return self.fail(VmError::Unimplemented);
            }
            pc + forward
        } else {
            let back = (0i32 - offset as i32) as usize;
            if back > pc {
                return self.fail(VmError::Unimplemented);
            }
            pc - back
        };
        self.frames.set(last, crate::vm::CallFrame { closure: frame.closure, base_counter: frame.base_counter, pc: target, top_level: frame.top_level });
        proof {
            assert(self.frames@[last as int] == crate::vm::CallFrame { closure: frame.closure, base_counter: frame.base_counter, pc: target, top_level: frame.top_level });
        }
        Action::Continue
    }

    /// Jumps by `offset`.
    pub fn op_jump(&mut self, offset: i16) -> (res: Action<N>)
        requires
            old(self).wf(),
        ensures
            final(self).wf(),
            op_jump_outcome(*old(self), *final(self), res, offset),
    {
        if self.frames.len() == 0 {
            return self.fail(VmError::FrameEmpty);
        }
        self.jump_by(offset)
    }

    /// Jumps by `offset` when the top value is false, leaving it on the
    /// stack.
    pub fn op_jump_if_false(&mut self, offset: i16) -> (res: Action<N>)
        requires
            old(self).wf(),
        ensures
            final(self).wf(),
            op_jump_if_false_outcome(*old(self), *final(self), res, offset),
    {
        if self.frames.len() == 0 {
            return self.fail(VmError::FrameEmpty);
        }
        let value = match self.peek(0) {
            Ok(v) => v,
            Err(e) => return self.fail(e),
        };
        if value.is_falsey() {
            self.jump_by(offset)
        } else {
            Action::Continue
        }
    }

    /// Pops two numbers and asks the host to compute `op` on them (the
    /// lower one first); `UnexpectedValue` when they are not both numbers.
    pub fn binary_numbers(&mut self, op: crate::vm::Arithmetic) -> (res: Action<N>)
        requires
            old(self).wf(),
        ensures
            final(self).wf(),
            binary_outcome(*old(self), *final(self), res, op),
    {
        let ghost items = self.items();
        let b = match self.pop() {
            Ok(v) => v,
            Err(e) => return self.fail(e),
        };
        let a = match self.pop() {
            Ok(v) => v,
            Err(e) => return self.fail(e),
        };
        proof {
            assert(self.items() =~= items.subrange(0, items.len() - 2));
        }
        match (a, b) {
            (Value::Number(x), Value::Number(y)) => Action::Binary(op, x, y),
            _ => self.fail(VmError::UnexpectedValue),
        }
    }

    /// Subtracts the top number from the one below it.
    pub fn op_subtract(&mut self) -> (res: Action<N>)
        requires
            old(self).wf(),
        ensures
            final(self).wf(),
            op_subtract_outcome(*old(self), *final(self), res),
    {
        self.binary_numbers(crate::vm::Arithmetic::Subtract)
    }

    /// Multiplies the top two numbers.
    pub fn op_multiply(&mut self) -> (res: Action<N>)
        requires
            old(self).wf(),
        ensures
            final(self).wf(),
            op_multiply_outcome(*old(self), *final(self), res),
    {
        self.binary_numbers(crate::vm::Arithmetic::Multiply)
    }

    /// Divides the number below the top by the top one.
    pub fn op_divide(&mut self) -> (res: Action<N>)
        requires
            old(self).wf(),
        ensures
            final(self).wf(),
            op_divide_outcome(*old(self), *final(self), res),
    {
        self.binary_numbers(crate::vm::Arithmetic::Divide)
    }

    /// Whether the number below the top is greater than the top one.
    pub fn op_greater(&mut self) -> (res: Action<N>)
        requires
            old(self).wf(),
        ensures
            final(self).wf(),
            op_greater_outcome(*old(self), *final(self), res),
    {
        self.binary_numbers(crate::vm::Arithmetic::Greater)
    }

    /// Whether the number below the top is less than the top one.
    pub fn op_less(&mut self) -> (res: Action<N>)
        requires
            old(self).wf(),
        ensures
            final(self).wf(),
            op_less_outcome(*old(self), *final(self), res),
    {
        self.binary_numbers(crate::vm::Arithmetic::Less)
    }

    /// Pops a number and asks the host for its negation.
    pub fn op_negate(&mut self) -> (res: Action<N>)
        requires
            old(self).wf(),
        ensures
            final(self).wf(),
            op_negate_outcome(*old(self), *final(self), res),
    {
        match self.pop() {
            Ok(Value::Number(n)) => Action::Negate(n),
            Ok(_) => self.fail(VmError::UnexpectedValue),
            Err(e) => self.fail(e),
        }
    }

    /// Adds the top two numbers, or joins the top two strings into a new
    /// one.
    pub fn op_add(&mut self) -> (res: Action<N>)
        requires
            old(self).wf(),
        ensures
            final(self).wf(),
            op_add_outcome(*old(self), *final(self), res),
    {
        let ghost items = self.items();
        let b = match self.pop() {
            Ok(v) => v,
            Err(e) => return self.fail(e),
        };
        let a = match self.pop() {
            Ok(v) => v,
            Err(e) => return self.fail(e),
        };
        proof {
            assert(self.items() =~= items.subrange(0, items.len() - 2));
        }
        match (a, b) {
            (Value::Number(x), Value::Number(y)) => Action::Binary(crate::vm::Arithmetic::Add, x, y),
            (Value::String(x), Value::String(y)) => {
                let mut text = match &self.objects[x.index] {
                    Object::String(t) => t.clone(),
                    _ => String::new(),
                };
                match &self.objects[y.index] {
                    Object::String(t) => crate::text::append_str(&mut text, t.as_str()),
                    _ => {},
                }
                let ghost heap = self.heap();
                proof {
                    assert(heap == old(self).heap());
                    assert(text@ == string_at(heap, x) + string_at(heap, y));
                }
                let res = self.push_string(text);
                proof {
                    if let Value::String(g) = self.items().last() {
                        crate::vm::lemma_allocated(heap, self.heap(), g, Object::String(text));
                    }
                }
                res
            },
            _ => self.fail(VmError::UnexpectedValue),
        }
    }

    /// Pops two values and pushes whether they are equal: values of
    /// different kinds never are; two numbers go to the host to compare.
    pub fn op_equal(&mut self) -> (res: Action<N>)
        requires
            old(self).wf(),
        ensures
            final(self).wf(),
            op_equal_outcome(*old(self), *final(self), res),
    {
        let ghost items = self.items();
        let b = match self.pop() {
            Ok(v) => v,
            Err(e) => return self.fail(e),
        };
        let a = match self.pop() {
            Ok(v) => v,
            Err(e) => return self.fail(e),
        };
        proof {
            assert(self.items() =~= items.subrange(0, items.len() - 2));
            old(self).stack.lemma_items_in_slots();
        }
        if !Value::is_same_type(&a, &b) {
            return self.push_value(Value::Boolean(false));
        }
        let equal = match (a, b) {
            (Value::Number(x), Value::Number(y)) => return Action::Binary(crate::vm::Arithmetic::Equal, x, y),
            (Value::Boolean(x), Value::Boolean(y)) => x == y,
            (Value::String(x), Value::String(y)) => {
                match (&self.objects[x.index], &self.objects[y.index]) {
                    (Object::String(s), Object::String(t)) => crate::text::str_eq(s.as_str(), t.as_str()),
                    _ => false,
                }
            },
            (Value::Nil, Value::Nil) => true,
            (Value::Closure(x), Value::Closure(y)) => x.index == y.index,
            (Value::NativeFunction(x), Value::NativeFunction(y)) => x.index == y.index,
            (Value::BoundMethod(x), Value::BoundMethod(y)) => x.index == y.index,
            (Value::Class(x), Value::Class(y)) => x.index == y.index,
            (Value::Instance(x), Value::Instance(y)) => x.index == y.index,
            (Value::Import(x), Value::Import(y)) => x.index == y.index,
            (Value::List(x), Value::List(y)) => x.index == y.index,
            _ => false,
        };
        self.push_value(Value::Boolean(equal))
    }

    /// The text `print` shows for a value that is not a number.
    pub fn display_text(&self, value: Value<N>) -> (res: String)
        requires
            self.wf(),
            valid_value(self.heap(), value),
        ensures
            res@ == display(self.heap(), value),
    {
        proof {
            reveal_strlit("nil");
            reveal_strlit("true");
            reveal_strlit("false");
            reveal_strlit("<native fn>");
            reveal_strlit("<fn ");
            reveal_strlit(">");
            reveal_strlit(" instance");
            reveal_strlit("<import>");
        }
        let mut text = String::new();
        match value {
            Value::Nil => crate::text::append_str(&mut text, "nil"),
            Value::Boolean(true) => crate::text::append_str(&mut text, "true"),
            Value::Boolean(false) => crate::text::append_str(&mut text, "false"),
            Value::String(g) => {
                if let Object::String(t) = &self.objects[g.index] {
                    crate::text::append_str(&mut text, t.as_str());
                }
            },
            Value::NativeFunction(_) => crate::text::append_str(&mut text, "<native fn>"),
            Value::Closure(g) => {
                if let Object::Closure(c) = &self.objects[g.index] {
                    crate::text::append_str(&mut text, "<fn ");
                    crate::text::append_str(&mut text, c.function.name.as_str());
                    crate::text::append_str(&mut text, ">");
                }
            },
            Value::Class(g) => {
                if let Object::Class(c) = &self.objects[g.index] {
                    crate::text::append_str(&mut text, c.name.as_str());
                }
            },
            Value::Instance(g) => {
                if let Object::Instance(i) = &self.objects[g.index] {
                    proof {
                        assert(object_ok(self.heap(), self.heap()[g.index as int]));
                    }
                    if let Object::Class(c) = &self.objects[i.class.index] {
                        crate::text::append_str(&mut text, c.name.as_str());
                        crate::text::append_str(&mut text, " instance");
                    }
                }
            },
            Value::BoundMethod(g) => {
                if let Object::BoundMethod(b) = &self.objects[g.index] {
                    proof {
                        assert(object_ok(self.heap(), self.heap()[g.index as int]));
                    }
                    if let Object::Closure(c) = &self.objects[b.method.index] {
                        crate::text::append_str(&mut text, "<fn ");
                        crate::text::append_str(&mut text, c.function.name.as_str());
                        crate::text::append_str(&mut text, ">");
                    }
                }
            },
            Value::Import(_) => crate::text::append_str(&mut text, "<import>"),
            Value::Number(_) => {},
            Value::List(_) => {},
        }
        text
    }


    /// Appends to `out` the pieces that show `value`.
    pub fn show_value(&self, value: Value<N>, depth: usize, out: &mut Vec<crate::vm::Piece<N>>)
        requires
            self.wf(),
            valid_value(self.heap(), value),
        ensures
            shown_all(final(out)@) == shown_all(old(out)@) + show(self.heap(), value, depth as nat),
        decreases depth, 0nat,
    {
        proof {
            reveal_strlit("[...]");
            reveal_strlit("[");
            reveal_strlit("]");
        }
        let ghost before = out@;
        match value {
            Value::Number(n) => {
                out.push(crate::vm::Piece::Number(n));
                proof {
                    assert(shown_all(out@) =~= shown_all(before) + show(self.heap(), value, depth as nat));
                }
            },
            Value::List(g) => {
                if depth == 0 {
                    out.push(crate::vm::Piece::Text("[...]".to_owned()));
                    proof {
                        assert(shown_all(out@) =~= shown_all(before) + show(self.heap(), value, depth as nat));
                    }
                } else {
                    out.push(crate::vm::Piece::Text("[".to_owned()));
                    let ghost mid = out@;
                    proof {
                        assert(shown_all(mid) =~= shown_all(before) + seq![Shown::<N>::Text("["@)]);
                        assert(object_ok(self.heap(), self.heap()[g.index as int]));
                    }
                    match &self.objects[g.index] {
                        Object::List(l) => {
                            self.show_items(&l.items, depth - 1, out);
                        },
                        _ => {},
                    }
                    let ghost mid2 = out@;
                    out.push(crate::vm::Piece::Text("]".to_owned()));
                    proof {
                        assert(shown_all(out@) =~= shown_all(mid2) + seq![Shown::<N>::Text("]"@)]);
                        assert(shown_all(out@) =~= shown_all(before) + show(self.heap(), value, depth as nat));
                    }
                }
            },
            _ => {
                let text = self.display_text(value);
                out.push(crate::vm::Piece::Text(text));
                proof {
                    assert(shown_all(out@) =~= shown_all(before) + show(self.heap(), value, depth as nat));
                }
            },
        }
    }

    /// Appends to `out` the pieces that show the values, separated by
    /// commas.
    pub fn show_items(&self, items: &Vec<Value<N>>, depth: usize, out: &mut Vec<crate::vm::Piece<N>>)
        requires
            self.wf(),
            forall|j: int| 0 <= j < items@.len() ==> valid_value(self.heap(), #[trigger] items@[j]),
        ensures
            shown_all(final(out)@) == shown_all(old(out)@) + show_items(self.heap(), items@, depth as nat),
        decreases depth, items@.len() + 1,
    {
        proof {
            reveal_strlit(", ");
        }
        let ghost start = out@;
        let mut i: usize = 0;
        while i < items.len()
            invariant
                self.wf(),
                forall|j: int| 0 <= j < items@.len() ==> valid_value(self.heap(), #[trigger] items@[j]),
                i <= items@.len(),
                shown_all(out@) == shown_all(start) + show_items(self.heap(), items@.subrange(0, i as int), depth as nat),
            decreases items@.len() - i,
        {
            let ghost before = out@;
            if i > 0 {
                out.push(crate::vm::Piece::Text(", ".to_owned()));
                proof {
                    assert(shown_all(out@) =~= shown_all(before) + seq![Shown::<N>::Text(", "@)]);
                }
            }
            let ghost mid = out@;
            self.show_value(items[i], depth, out);
            proof {
                let pre = items@.subrange(0, i as int);
                let next = items@.subrange(0, i + 1);
                assert(next.drop_last() =~= pre);
                assert(next.last() == items@[i as int]);
                if i == 0 {
                    assert(next.len() == 1);
                    assert(next[0] == items@[0]);
                    assert(pre.len() == 0);
                    assert(shown_all(mid) =~= shown_all(before));
                }
                assert(shown_all(out@) =~= shown_all(start) + show_items(self.heap(), next, depth as nat));
            }
            i = i + 1;
        }
        proof {
            assert(items@.subrange(0, items@.len() as int) =~= items@);
        }
    }

    /// Pops a value for the host to print, as pieces.
    pub fn op_print(&mut self) -> (res: Action<N>)
        requires
            old(self).wf(),
        ensures
            final(self).wf(),
            op_print_outcome(*old(self), *final(self), res),
    {
        let value = match self.pop() {
            Ok(v) => v,
            Err(e) => return self.fail(e),
        };
        let mut pieces: Vec<crate::vm::Piece<N>> = Vec::new();
        proof {
            assert(shown_all(pieces@) =~= Seq::<Shown<N>>::empty());
        }
        self.show_value(value, PRINT_DEPTH, &mut pieces);
        proof {
            assert(shown_all(pieces@) =~= show(self.heap(), value, PRINT_DEPTH as nat));
        }
        Action::Print(pieces)
    }

    /// The value of upvalue `g`: the slot it is open on, or the value it
    /// closed over.
    pub open spec fn upvalue_value(&self, g: Gc) -> Value<N> {
        match upvalue_at(self.heap(), g) {
            crate::memory::Upvalue::Open(slot) => self.stack.spec_slots()[slot as int],
            crate::memory::Upvalue::Closed(v) => v,
        }
    }

    /// Upvalue `index` of the closure running now; `UnexpectedConstant`
    /// when it has no such upvalue.
    pub fn frame_upvalue(&self, index: u32) -> (res: Result<Gc, VmError>)
        requires
            self.wf(),
        ensures
            self.frames@.len() == 0 ==> res == Err::<Gc, VmError>(VmError::FrameEmpty),
            self.frames@.len() > 0 ==> {
                let c = closure_at(self.heap(), self.frames@.last().closure);
                res == if index < c.upvalues@.len() {
                    Ok::<Gc, VmError>(c.upvalues@[index as int])
                } else {
                    Err::<Gc, VmError>(VmError::UnexpectedConstant)
                }
            },
            res matches Ok(g) ==> at(self.heap(), g, Kind::Upvalue),
    {
        let frame = match self.current_frame() {
            Ok(f) => f,
            Err(e) => return Err(e),
        };
        match &self.objects[frame.closure.index] {
            Object::Closure(c) => {
                proof {
                    assert(object_ok(self.heap(), self.heap()[frame.closure.index as int]));
                }
                if (index as usize) < c.upvalues.len() {
                    Ok(c.upvalues[index as usize])
                } else {
                    Err(VmError::UnexpectedConstant)
                }
            },
            _ => Err(VmError::FrameEmpty),
        }
    }

    /// The value of upvalue `g`.
    pub fn resolve_upvalue_into_value(&self, g: Gc) -> (res: Value<N>)
        requires
            self.wf(),
            at(self.heap(), g, Kind::Upvalue),
        ensures
            res == self.upvalue_value(g),
            valid_value(self.heap(), res),
    {
        proof {
            assert(object_ok(self.heap(), self.heap()[g.index as int]));
        }
        match &self.objects[g.index] {
            Object::Upvalue(crate::memory::Upvalue::Closed(v)) => *v,
            Object::Upvalue(crate::memory::Upvalue::Open(slot)) => *self.stack.get(*slot),
            _ => Value::Nil,
        }
    }

    /// Pushes the value of upvalue `index` of the running closure.
    pub fn op_get_upvalue(&mut self, index: u32) -> (res: Action<N>)
        requires
            old(self).wf(),
        ensures
            final(self).wf(),
            op_get_upvalue_outcome(*old(self), *final(self), res, index),
    {
        let g = match self.frame_upvalue(index) {
            Ok(g) => g,
            Err(e) => return self.fail(e),
        };
        let value = self.resolve_upvalue_into_value(g);
        self.push_value(value)
    }

    /// Writes `value` into upvalue `g`: into its slot while open, into the
    /// upvalue itself once closed.
    pub fn set_upvalue(&mut self, g: Gc, value: Value<N>)
        requires
            old(self).wf(),
            at(old(self).heap(), g, Kind::Upvalue),
            valid_value(old(self).heap(), value),
        ensures
            final(self).wf(),
            same_kinds(old(self).heap(), final(self).heap()),
            final(self).frames == old(self).frames,
            final(self).upvalues == old(self).upvalues,
            final(self).items().len() == old(self).items().len(),
            match upvalue_at(old(self).heap(), g) {
                crate::memory::Upvalue::Open(slot) => {
                    &&& final(self).heap() == old(self).heap()
                    &&& final(self).stack.spec_slots() == old(self).stack.spec_slots().update(slot as int, value)
                },
                crate::memory::Upvalue::Closed(_) => {
                    &&& final(self).stack == old(self).stack
                    &&& final(self).heap() == old(self).heap().update(g.index as int,
                        Object::Upvalue(crate::memory::Upvalue::Closed(value)))
                },
            },
    {
        proof {
            assert(object_ok(self.heap(), self.heap()[g.index as int]));
        }
        let open: Option<usize> = match &self.objects[g.index] {
            Object::Upvalue(crate::memory::Upvalue::Open(slot)) => Some(*slot),
            _ => None,
        };
        match open {
            Some(slot) => {
                let ghost before = self.stack.spec_slots();
                self.stack.set(slot, value);
                proof {
                    assert forall|i: int| 0 <= i < self.stack.spec_slots().len()
                        implies valid_value(self.objects@, #[trigger] self.stack.spec_slots()[i]) by {
                        if i != slot {
                            assert(self.stack.spec_slots()[i] == before[i]);
                        }
                    }
                }
            },
            None => {
                self.replace(g, Object::Upvalue(crate::memory::Upvalue::Closed(value)));
            },
        }
    }

    /// Writes the top value into upvalue `index` of the running closure,
    /// leaving it on the stack.
    pub fn op_set_upvalue(&mut self, index: u32) -> (res: Action<N>)
        requires
            old(self).wf(),
        ensures
            final(self).wf(),
            op_set_upvalue_outcome(*old(self), *final(self), res, index),
    {
        let g = match self.frame_upvalue(index) {
            Ok(g) => g,
            Err(e) => return self.fail(e),
        };
        let value = match self.peek(0) {
            Ok(v) => v,
            Err(e) => return self.fail(e),
        };
        self.set_upvalue(g, value);
        Action::Continue
    }

    /// Closes every open upvalue on slot `index` or above over its slot's
    /// value, and keeps in the list of open upvalues only those still open.
    pub fn close_upvalues(&mut self, index: usize)
        requires
            old(self).wf(),
        ensures
            final(self).wf(),
            same_kinds(old(self).heap(), final(self).heap()),
            final(self).heap().len() == old(self).heap().len(),
            final(self).stack == old(self).stack,
            final(self).frames == old(self).frames,
            final(self).error == old(self).error,
            forall|o: int| 0 <= o < old(self).heap().len() ==> {
                ||| #[trigger] final(self).heap()[o] == old(self).heap()[o]
                ||| (old(self).heap()[o] matches Object::Upvalue(crate::memory::Upvalue::Open(i))
                    && i >= index
                    && final(self).heap()[o] == Object::<N>::Upvalue(
                        crate::memory::Upvalue::Closed(old(self).stack.spec_slots()[i as int])))
            },
            forall|j: int| 0 <= j < old(self).upvalues@.len() ==>
                (upvalue_at(old(self).heap(), #[trigger] old(self).upvalues@[j]) matches crate::memory::Upvalue::Open(i)
                ==> i >= index ==> final(self).heap()[old(self).upvalues@[j].index as int] == Object::<N>::Upvalue(
                    crate::memory::Upvalue::Closed(old(self).stack.spec_slots()[i as int]))),
            forall|j: int| 0 <= j < final(self).upvalues@.len() ==>
                (upvalue_at(final(self).heap(), #[trigger] final(self).upvalues@[j]) matches crate::memory::Upvalue::Open(i)
                && i < index),
    {
        let ghost heap0 = self.heap();
        let ghost slots = self.stack.spec_slots();
        let mut k: usize = 0;
        while k < self.upvalues.len()
            invariant
                self.wf(),
                k <= self.upvalues@.len(),
                self.upvalues == old(self).upvalues,
                self.stack == old(self).stack,
                self.frames == old(self).frames,
                self.error == old(self).error,
                heap0 == old(self).heap(),
                slots == old(self).stack.spec_slots(),
                same_kinds(heap0, self.heap()),
                self.heap().len() == heap0.len(),
                forall|o: int| 0 <= o < heap0.len() ==> {
                    ||| #[trigger] self.heap()[o] == heap0[o]
                    ||| (heap0[o] matches Object::Upvalue(crate::memory::Upvalue::Open(i)) && i >= index
                        && self.heap()[o] == Object::<N>::Upvalue(crate::memory::Upvalue::Closed(slots[i as int])))
                },
                forall|j: int| 0 <= j < k ==>
                    (upvalue_at(heap0, #[trigger] self.upvalues@[j]) matches crate::memory::Upvalue::Open(i)
                    ==> i >= index ==> self.heap()[self.upvalues@[j].index as int] == Object::<N>::Upvalue(
                        crate::memory::Upvalue::Closed(slots[i as int]))),
            decreases self.upvalues@.len() - k,
        {
            let g = self.upvalues[k];
            proof {
                assert(at(self.heap(), g, Kind::Upvalue));
            }
            let current: Option<usize> = match &self.objects[g.index] {
                Object::Upvalue(u) => u.is_open_with_range(index),
                _ => None,
            };
            if let Some(slot) = current {
                proof {
                    assert(object_ok(self.heap(), self.heap()[g.index as int]));
                }
                let value = *self.stack.get(slot);
                let ghost before = self.heap();
                self.replace(g, Object::Upvalue(crate::memory::Upvalue::Closed(value)));
                proof {
                    assert forall|o: int| 0 <= o < heap0.len() implies {
                        ||| #[trigger] self.heap()[o] == heap0[o]
                        ||| (heap0[o] matches Object::Upvalue(crate::memory::Upvalue::Open(i)) && i >= index
                            && self.heap()[o] == Object::<N>::Upvalue(crate::memory::Upvalue::Closed(slots[i as int])))
                    } by {
                        if o == g.index {
                            assert(before[o] == heap0[o] || (heap0[o] matches Object::Upvalue(crate::memory::Upvalue::Open(i)) && i >= index
                                && before[o] == Object::<N>::Upvalue(crate::memory::Upvalue::Closed(slots[i as int]))));
                        } else {
                            assert(self.heap()[o] == before[o]);
                        }
                    }
                }
            }
            proof {
                let ghost h = self.heap();
                assert forall|j: int| 0 <= j < k + 1 implies
                    (upvalue_at(heap0, #[trigger] self.upvalues@[j]) matches crate::memory::Upvalue::Open(i)
                    ==> i >= index ==> h[self.upvalues@[j].index as int] == Object::<N>::Upvalue(
                        crate::memory::Upvalue::Closed(slots[i as int]))) by {
                    let gj = self.upvalues@[j];
                    if j == k {
                        assert(heap0[gj.index as int] == h[gj.index as int] || (heap0[gj.index as int] matches Object::Upvalue(crate::memory::Upvalue::Open(i)) && i >= index
                            && h[gj.index as int] == Object::<N>::Upvalue(crate::memory::Upvalue::Closed(slots[i as int]))));
                    }
                }
            }
            k = k + 1;
        }
        let ghost heap1 = self.heap();
        let ghost list = self.upvalues@;
        let mut k: usize = self.upvalues.len();
        while k > 0
            invariant
                self.wf(),
                k <= self.upvalues@.len(),
                k <= list.len(),
                forall|j: int| 0 <= j < k ==> self.upvalues@[j] == list[j],
                forall|o: int| 0 <= o < heap0.len() ==> {
                    ||| #[trigger] heap1[o] == heap0[o]
                    ||| (heap0[o] matches Object::Upvalue(crate::memory::Upvalue::Open(i)) && i >= index
                        && heap1[o] == Object::<N>::Upvalue(crate::memory::Upvalue::Closed(slots[i as int])))
                },
                forall|j: int| 0 <= j < list.len() ==>
                    (upvalue_at(heap0, #[trigger] list[j]) matches crate::memory::Upvalue::Open(i)
                    ==> i >= index ==> heap1[list[j].index as int] == Object::<N>::Upvalue(
                        crate::memory::Upvalue::Closed(slots[i as int]))),
                forall|j: int| 0 <= j < list.len() ==> at(heap0, #[trigger] list[j], Kind::Upvalue),
                heap1.len() == heap0.len(),
                self.heap() == heap1,
                self.stack == old(self).stack,
                self.frames == old(self).frames,
                self.error == old(self).error,
                forall|j: int| k <= j < self.upvalues@.len() ==>
                    (upvalue_at(heap1, #[trigger] self.upvalues@[j]) matches crate::memory::Upvalue::Open(i) && i < index),
            decreases k,
        {
            k = k - 1;
            let g = self.upvalues[k];
            let open = match &self.objects[g.index] {
                Object::Upvalue(u) => u.is_open(),
                _ => false,
            };
            if !open {
                let ghost before = self.upvalues@;
                self.upvalues.swap_remove(k);
                proof {
                    assert forall|j: int| 0 <= j < self.upvalues@.len()
                        implies at(self.objects@, #[trigger] self.upvalues@[j], Kind::Upvalue) by {
                        if j == k {
                            assert(self.upvalues@[j] == before.last());
                            assert(at(self.objects@, before[before.len() - 1], Kind::Upvalue));
                        } else {
                            assert(self.upvalues@[j] == before[j]);
                        }
                    }
                    assert forall|j: int| k <= j < self.upvalues@.len() implies
                        (upvalue_at(heap1, #[trigger] self.upvalues@[j]) matches crate::memory::Upvalue::Open(i) && i < index) by {
                        if j == k {
                            assert(self.upvalues@[j] == before[before.len() - 1]);
                        } else {
                            assert(self.upvalues@[j] == before[j]);
                        }
                    }
                }
            } else {
                proof {
                    assert(self.upvalues@[k as int] == list[k as int]);
                    assert(heap1[g.index as int] == heap0[g.index as int] || (heap0[g.index as int] matches Object::Upvalue(crate::memory::Upvalue::Open(i)) && i >= index
                        && heap1[g.index as int] == Object::<N>::Upvalue(crate::memory::Upvalue::Closed(slots[i as int]))));
                    assert(upvalue_at(heap0, list[k as int]) matches crate::memory::Upvalue::Open(i)
                        ==> i >= index ==> heap1[list[k as int].index as int] == Object::<N>::Upvalue(
                            crate::memory::Upvalue::Closed(slots[i as int])));
                }
            }
        }
    }

    /// Closes the upvalues on the top slot and above, then pops it.
    pub fn op_close_upvalue(&mut self) -> (res: Action<N>)
        requires
            old(self).wf(),
        ensures
            final(self).wf(),
            op_close_upvalue_outcome(*old(self), *final(self), res),
    {
        let len = self.stack.len();
        if len == 0 {
            return self.fail(VmError::StackEmpty);
        }
        self.close_upvalues(len - 1);
        match self.pop() {
            Ok(_) => Action::Continue,
            Err(e) => self.fail(e),
        }
    }

    /// The most recent open upvalue on slot `index`, if there is one.
    pub fn find_open_upvalue_with_index(&self, index: usize) -> (res: Option<Gc>)
        requires
            self.wf(),
        ensures
            res matches Some(g) ==> self.upvalues@.contains(g)
                && upvalue_at(self.heap(), g) == crate::memory::Upvalue::<N>::Open(index)
                && at(self.heap(), g, Kind::Upvalue),
            res matches Some(g) ==> exists|j: int| 0 <= j < self.upvalues@.len() && #[trigger] self.upvalues@[j] == g
                && forall|k: int| j < k < self.upvalues@.len()
                    ==> upvalue_at(self.heap(), #[trigger] self.upvalues@[k]) != crate::memory::Upvalue::<N>::Open(index),
            res is None ==> forall|j: int| 0 <= j < self.upvalues@.len()
                ==> upvalue_at(self.heap(), #[trigger] self.upvalues@[j]) != crate::memory::Upvalue::<N>::Open(index),
    {
        let mut k: usize = self.upvalues.len();
        while k > 0
            invariant
                self.wf(),
                k <= self.upvalues@.len(),
                forall|j: int| k <= j < self.upvalues@.len()
                    ==> upvalue_at(self.heap(), #[trigger] self.upvalues@[j]) != crate::memory::Upvalue::<N>::Open(index),
            decreases k,
        {
            k = k - 1;
            let g = self.upvalues[k];
            proof {
                assert(at(self.heap(), g, Kind::Upvalue));
            }
            let found = match &self.objects[g.index] {
                Object::Upvalue(u) => u.is_open_with_index(index),
                _ => false,
            };
            if found {
                proof {
                    assert(self.upvalues@[k as int] == g);
                    assert(self.upvalues@.contains(g));
                }
                return Some(g);
            }
        }
        None
    }

    /// The upvalue capturing stack slot `slot`: the open one already there,
    /// or a new one, then listed as open.
    pub fn capture_upvalue(&mut self, slot: usize) -> (res: Gc)
        requires
            old(self).wf(),
            slot < STACK_SIZE,
        ensures
            final(self).wf(),
            same_kinds(old(self).heap(), final(self).heap()),
            final(self).stack == old(self).stack,
            final(self).frames == old(self).frames,
            final(self).error == old(self).error,
            final(self).init_symbol == old(self).init_symbol,
            final(self).interner == old(self).interner,
            at(final(self).heap(), res, Kind::Upvalue),
            upvalue_at(final(self).heap(), res) == crate::memory::Upvalue::<N>::Open(slot),
            forall|o: int| 0 <= o < old(self).heap().len() && kind(old(self).heap()[o]) != Kind::Free
                ==> #[trigger] final(self).heap()[o] == old(self).heap()[o],
            (exists|j: int| 0 <= j < old(self).upvalues@.len()
                && upvalue_at(old(self).heap(), #[trigger] old(self).upvalues@[j]) == crate::memory::Upvalue::<N>::Open(slot))
                ==> *final(self) == *old(self) && exists|j: int| 0 <= j < old(self).upvalues@.len()
                    && #[trigger] old(self).upvalues@[j] == res
                    && forall|k: int| j < k < old(self).upvalues@.len() ==> upvalue_at(old(self).heap(),
                        #[trigger] old(self).upvalues@[k]) != crate::memory::Upvalue::<N>::Open(slot),
            (forall|j: int| 0 <= j < old(self).upvalues@.len()
                ==> upvalue_at(old(self).heap(), #[trigger] old(self).upvalues@[j]) != crate::memory::Upvalue::<N>::Open(slot))
                ==> final(self).upvalues@ == old(self).upvalues@.push(res)
                    && (res.index >= old(self).heap().len() || kind(old(self).heap()[res.index as int]) == Kind::Free),
    {
        match self.find_open_upvalue_with_index(slot) {
            Some(g) => g,
            None => {
                let g = self.manage(Object::Upvalue(crate::memory::Upvalue::Open(slot)));
                proof {
                    crate::vm::lemma_allocated(old(self).heap(), self.heap(), g, Object::Upvalue(crate::memory::Upvalue::Open(slot)));
                }
                let ghost before = self.upvalues@;
                self.upvalues.push(g);
                proof {
                    assert forall|j: int| 0 <= j < self.upvalues@.len()
                        implies at(self.objects@, #[trigger] self.upvalues@[j], Kind::Upvalue) by {
                        if j < before.len() {
                            assert(self.upvalues@[j] == before[j]);
                        }
                    }
                }
                g
            },
        }
    }

    /// Makes a closure of function `index` of the running import, capturing
    /// the variables it names: slots of the running call, or upvalues of
    /// the running closure.
    pub fn op_closure(&mut self, index: u32) -> (res: Action<N>)
        requires
            old(self).wf(),
        ensures
            final(self).wf(),
            op_closure_outcome(*old(self), *final(self), res, index),
    {
        let import = match self.current_import() {
            Ok(g) => g,
            Err(e) => return self.fail(e),
        };
        let frame = match self.current_frame() {
            Ok(f) => f,
            Err(e) => return self.fail(e),
        };
        let i = index as usize;
        let found: Option<(crate::memory::Function, Vec<crate::bytecode::Upvalue>)> = match &self.objects[import.index] {
            Object::Import(m) => {
                if i < m.module.closures().len() {
                    let desc = m.closure(i);
                    let mut names: Vec<crate::bytecode::Upvalue> = Vec::new();
                    let mut k: usize = 0;
                    while k < desc.upvalues.len()
                        invariant
                            k <= desc.upvalues@.len(),
                            names@ == desc.upvalues@.subrange(0, k as int),
                        decreases desc.upvalues@.len() - k,
                    {
                        names.push(desc.upvalues[k]);
                        assert(desc.upvalues@.subrange(0, k + 1) =~= desc.upvalues@.subrange(0, k as int).push(desc.upvalues@[k as int]));
                        k = k + 1;
                    }
                    assert(desc.upvalues@.subrange(0, desc.upvalues@.len() as int) =~= desc.upvalues@);
                    Some((crate::memory::Function::new(&desc.function, import), names))
                } else {
                    None
                }
            },
            _ => None,
        };
        let (function, names) = match found {
            Some(x) => x,
            None => return self.fail(VmError::UnexpectedConstant),
        };
        let ghost heap0 = self.heap();
        let ghost running = closure_at(heap0, frame.closure);
        let mut captured: Vec<Gc> = Vec::new();
        let mut k: usize = 0;
        while k < names.len()
            invariant
                self.wf(),
                old(self).wf(),
                k <= names@.len(),
                captured@.len() == k,
                self.frames == old(self).frames,
                self.stack == old(self).stack,
                heap0 == old(self).heap(),
                same_kinds(heap0, self.heap()),
                frame == old(self).frames@.last(),
                old(self).frames@.len() > 0,
                at(heap0, frame.closure, Kind::Closure),
                running == closure_at(heap0, frame.closure),
                at(heap0, import, Kind::Import),
                import == old(self).spec_import(),
                index < import_at(heap0, import).module.spec_closures().len(),
                names@ == import_at(heap0, import).module.spec_closures()[index as int].upvalues@,
                function.name == import_at(heap0, import).module.spec_closures()[index as int].function.name,
                function.chunk_index == import_at(heap0, import).module.spec_closures()[index as int].function.chunk_index,
                function.arity == import_at(heap0, import).module.spec_closures()[index as int].function.arity,
                function.import == import,
                self.heap().len() >= heap0.len(),
                forall|o: int| 0 <= o < heap0.len() && kind(heap0[o]) != Kind::Free ==> #[trigger] self.heap()[o] == heap0[o],
                forall|j: int| 0 <= j < k ==> at(self.heap(), #[trigger] captured@[j], Kind::Upvalue),
                forall|j: int| 0 <= j < k ==> match #[trigger] names@[j] {
                    crate::bytecode::Upvalue::Local(i) =>
                        upvalue_at(self.heap(), captured@[j]) == crate::memory::Upvalue::<N>::Open((frame.base_counter + i) as usize),
                    crate::bytecode::Upvalue::Upvalue(u) => captured@[j] == running.upvalues@[u as int],
                },
                frame.base_counter <= STACK_SIZE,
                captures_ok(names@.take(k as int), frame.base_counter, running.upvalues@.len()),
            decreases names@.len() - k,
        {
            let ghost before = self.heap();
            proof {
                assert(names@[k as int] == names@.take(k + 1)[k as int]);
            }
            let g = match names[k] {
                crate::bytecode::Upvalue::Local(local) => {
                    if local >= STACK_SIZE - frame.base_counter {
                        proof {
                            assert(!captures_ok(names@, frame.base_counter, running.upvalues@.len())) by {
                                assert(names@[k as int] is Local);
                            }
                        }
                        return self.fail(VmError::StackOverflow);
                    }
                    self.capture_upvalue(frame.base_counter + local)
                },
                crate::bytecode::Upvalue::Upvalue(u) => {
                    let found = match &self.objects[frame.closure.index] {
                        Object::Closure(c) => {
                            proof {
                                assert(self.heap()[frame.closure.index as int] == heap0[frame.closure.index as int]);
                                assert(object_ok(self.heap(), self.heap()[frame.closure.index as int]));
                            }
                            if u < c.upvalues.len() {
                                Some(c.upvalues[u])
                            } else {
                                None
                            }
                        },
                        _ => None,
                    };
                    match found {
                        Some(g) => g,
                        None => {
                            proof {
                                assert(!captures_ok(names@, frame.base_counter, running.upvalues@.len())) by {
                                    assert(names@[k as int] is Upvalue);
                                }
                            }
                            return self.fail(VmError::UnexpectedConstant);
                        },
                    }
                },
            };
            proof {
                assert forall|j: int| 0 <= j < k implies match #[trigger] names@[j] {
                    crate::bytecode::Upvalue::Local(i) =>
                        upvalue_at(self.heap(), captured@[j]) == crate::memory::Upvalue::<N>::Open((frame.base_counter + i) as usize),
                    crate::bytecode::Upvalue::Upvalue(u) => captured@[j] == running.upvalues@[u as int],
                } by {
                    if names@[j] is Local {
                        assert(self.heap()[captured@[j].index as int] == before[captured@[j].index as int]);
                    }
                }
            }
            proof {
                assert forall|j: int| 0 <= j < k + 1 implies match #[trigger] names@.take(k + 1)[j] {
                    crate::bytecode::Upvalue::Local(i) => frame.base_counter + i < STACK_SIZE,
                    crate::bytecode::Upvalue::Upvalue(u) => u < running.upvalues@.len(),
                } by {
                    if j < k {
                        assert(names@.take(k + 1)[j] == names@.take(k as int)[j]);
                    }
                }
            }
            captured.push(g);
            k = k + 1;
        }
        proof {
            assert(names@.take(names@.len() as int) =~= names@);
        }
        let closure = crate::memory::Closure { function, upvalues: captured };
        let g = self.manage(Object::Closure(closure));
        self.push_value(Value::Closure(g))
    }

    /// Makes class `index` of the running import.
    pub fn op_class(&mut self, index: u8) -> (res: Action<N>)
        requires
            old(self).wf(),
        ensures
            final(self).wf(),
            op_class_outcome(*old(self), *final(self), res, index),
    {
        let import = match self.current_import() {
            Ok(g) => g,
            Err(e) => return self.fail(e),
        };
        let name = match &self.objects[import.index] {
            Object::Import(m) => {
                if (index as usize) < m.module.classes().len() {
                    Some(m.class(index as usize).name.clone())
                } else {
                    None
                }
            },
            _ => None,
        };
        let name = match name {
            Some(n) => n,
            None => return self.fail(VmError::UnexpectedConstant),
        };
        let g = self.manage(Object::Class(crate::memory::Class::new(name)));
        self.push_value(Value::Class(g))
    }

    /// Gives field `symbol` of instance `instance` the value `value`;
    /// `OutOfMemory`, with nothing changed, when its table cannot grow.
    pub fn set_field_of(&mut self, instance: Gc, symbol: Symbol, value: Value<N>) -> (res: Result<(), VmError>)
        requires
            old(self).wf(),
            at(old(self).heap(), instance, Kind::Instance),
            symbol.id() >= 1,
            valid_value(old(self).heap(), value),
        ensures
            final(self).wf(),
            same_kinds(old(self).heap(), final(self).heap()),
            final(self).stack == old(self).stack,
            final(self).frames == old(self).frames,
            final(self).upvalues == old(self).upvalues,
            final(self).imports == old(self).imports,
            final(self).natives == old(self).natives,
            final(self).interner == old(self).interner,
            final(self).init_symbol == old(self).init_symbol,
            final(self).error == old(self).error,
            res is Err ==> res == Err::<(), VmError>(VmError::OutOfMemory) && final(self).heap() == old(self).heap(),
            res is Err <==> old(self).heap()[instance.index as int]->Instance_0.fields.spec_capacity() > usize::MAX / 2,
            res is Ok ==> {
                let before = old(self).heap()[instance.index as int]->Instance_0;
                let after = final(self).heap()[instance.index as int]->Instance_0;
                &&& final(self).heap().len() == old(self).heap().len()
                &&& forall|j: int| 0 <= j < old(self).heap().len() && j != instance.index
                    ==> final(self).heap()[j] == old(self).heap()[j]
                &&& final(self).heap()[instance.index as int] is Instance
                &&& after.class == before.class
                &&& after.fields.spec_map() == before.fields.spec_map().insert(symbol.id(), value)
            },
    {
        let i = instance.index;
        let ghost heap = self.objects@;
        proof {
            assert(object_ok(heap, heap[i as int]));
        }
        let mut taken: Object<N> = Object::String(String::new());
        self.objects.set_and_swap(i, &mut taken);
        match taken {
            Object::Instance(mut o) => {
                if o.fields.capacity() > usize::MAX / 2 {
                    self.objects.set(i, Object::Instance(o));
                    proof {
                        assert(self.objects@ =~= heap);
                    }
                    return Err(VmError::OutOfMemory);
                }
                let ghost o0 = o;
                o.set_field(symbol, value);
                let object = Object::Instance(o);
                proof {
                    assert forall|k: u32| #[trigger] o.fields.spec_map().contains_key(k)
                        implies valid_value(heap, o.fields.spec_map()[k]) by {
                        if k != symbol.id() {
                            assert(o0.fields.spec_map().contains_key(k));
                        }
                    }
                    assert(object_ok(heap, object));
                    crate::vm::lemma_heap_update(heap, i as int, object);
                    old(self).lemma_refs_kept(heap.update(i as int, object));
                }
                self.objects.set(i, object);
                proof {
                    assert(self.objects@ =~= heap.update(i as int, object));
                }
                Ok(())
            },
            other => {
                self.objects.set(i, other);
                Err(VmError::OutOfMemory)
            },
        }
    }

    /// Gives class `class` the method `symbol`, the closure `closure`;
    /// `OutOfMemory`, with nothing changed, when its table cannot grow.
    pub fn set_method_of(&mut self, class: Gc, symbol: Symbol, closure: Gc) -> (res: Result<(), VmError>)
        requires
            old(self).wf(),
            at(old(self).heap(), class, Kind::Class),
            symbol.id() >= 1,
            at(old(self).heap(), closure, Kind::Closure),
        ensures
            final(self).wf(),
            same_kinds(old(self).heap(), final(self).heap()),
            final(self).stack == old(self).stack,
            final(self).frames == old(self).frames,
            final(self).upvalues == old(self).upvalues,
            final(self).imports == old(self).imports,
            final(self).natives == old(self).natives,
            final(self).interner == old(self).interner,
            final(self).init_symbol == old(self).init_symbol,
            final(self).error == old(self).error,
            res is Err ==> res == Err::<(), VmError>(VmError::OutOfMemory) && final(self).heap() == old(self).heap(),
            res is Err <==> old(self).heap()[class.index as int]->Class_0.methods.spec_capacity() > usize::MAX / 2,
            res is Ok ==> {
                let before = old(self).heap()[class.index as int]->Class_0;
                let after = final(self).heap()[class.index as int]->Class_0;
                &&& final(self).heap().len() == old(self).heap().len()
                &&& forall|j: int| 0 <= j < old(self).heap().len() && j != class.index
                    ==> final(self).heap()[j] == old(self).heap()[j]
                &&& final(self).heap()[class.index as int] is Class
                &&& after.name == before.name
                &&& after.methods.spec_map() == before.methods.spec_map().insert(symbol.id(), closure)
            },
    {
        let i = class.index;
        let ghost heap = self.objects@;
        proof {
            assert(object_ok(heap, heap[i as int]));
        }
        let mut taken: Object<N> = Object::String(String::new());
        self.objects.set_and_swap(i, &mut taken);
        match taken {
            Object::Class(mut c) => {
                if c.methods.capacity() > usize::MAX / 2 {
                    self.objects.set(i, Object::Class(c));
                    proof {
                        assert(self.objects@ =~= heap);
                    }
                    return Err(VmError::OutOfMemory);
                }
                let ghost c0 = c;
                c.set_method(symbol, closure);
                let object = Object::Class(c);
                proof {
                    assert forall|k: u32| #[trigger] c.methods.spec_map().contains_key(k)
                        implies at(heap, c.methods.spec_map()[k], Kind::Closure) by {
                        if k != symbol.id() {
                            assert(c0.methods.spec_map().contains_key(k));
                        }
                    }
                    assert(object_ok(heap, object));
                    crate::vm::lemma_heap_update(heap, i as int, object);
                    old(self).lemma_refs_kept(heap.update(i as int, object));
                }
                self.objects.set(i, object);
                proof {
                    assert(self.objects@ =~= heap.update(i as int, object));
                }
                Ok(())
            },
            other => {
                self.objects.set(i, other);
                Err(VmError::OutOfMemory)
            },
        }
    }

    /// Adds the closure on top to the class below it as method `index` of
    /// the running import, and pops the closure.
    pub fn op_method(&mut self, index: u32) -> (res: Action<N>)
        requires
            old(self).wf(),
        ensures
            final(self).wf(),
            op_method_outcome(*old(self), *final(self), res, index),
    {
        let import = match self.current_import() {
            Ok(g) => g,
            Err(e) => return self.fail(e),
        };
        let symbol = match self.symbol_of(import, index) {
            Ok(s) => s,
            Err(e) => return self.fail(e),
        };
        let class = match self.peek(1) {
            Ok(v) => v,
            Err(e) => return self.fail(e),
        };
        let closure = match self.peek(0) {
            Ok(v) => v,
            Err(e) => return self.fail(e),
        };
        match (class, closure) {
            (Value::Class(c), Value::Closure(f)) => {
                match self.set_method_of(c, symbol, f) {
                    Ok(()) => {},
                    Err(e) => return self.fail(e),
                }
                match self.pop() {
                    Ok(_) => Action::Continue,
                    Err(e) => self.fail(e),
                }
            },
            _ => self.fail(VmError::UnexpectedConstant),
        }
    }

    /// Pops an instance and pushes its property `index` of the running
    /// import: the field of that name, or else the method of its class bound
    /// to it.
    pub fn op_get_property(&mut self, index: u32) -> (res: Action<N>)
        requires
            old(self).wf(),
        ensures
            final(self).wf(),
            op_get_property_outcome(*old(self), *final(self), res, index),
    {
        let import = match self.current_import() {
            Ok(g) => g,
            Err(e) => return self.fail(e),
        };
        let symbol = match self.symbol_of(import, index) {
            Ok(s) => s,
            Err(e) => return self.fail(e),
        };
        let target = match self.pop() {
            Ok(v) => v,
            Err(e) => return self.fail(e),
        };
        proof {
            old(self).stack.lemma_items_in_slots();
        }
        let g = match target {
            Value::Instance(g) => g,
            _ => return self.fail(VmError::UnexpectedValue),
        };
        let (field, method) = match &self.objects[g.index] {
            Object::Instance(instance) => {
                proof {
                    assert(object_ok(self.heap(), self.heap()[g.index as int]));
                }
                match instance.field(&symbol) {
                    Some(v) => (Some(v), None),
                    None => {
                        match &self.objects[instance.class.index] {
                            Object::Class(class) => {
                                proof {
                                    assert(object_ok(self.heap(), self.heap()[instance.class.index as int]));
                                }
                                (None, class.method(symbol))
                            },
                            _ => (None, None),
                        }
                    },
                }
            },
            _ => (None, None),
        };
        match (field, method) {
            (Some(v), _) => self.push_value(v),
            (None, Some(m)) => {
                let bind = self.manage(Object::BoundMethod(crate::memory::BoundMethod { receiver: g, method: m }));
                self.push_value(Value::BoundMethod(bind))
            },
            (None, None) => self.fail(VmError::UndefinedProperty),
        }
    }

    /// Sets property `index` of the running import on the instance below
    /// the top to the top value, and leaves only that value of the two.
    pub fn op_set_property(&mut self, index: u32) -> (res: Action<N>)
        requires
            old(self).wf(),
        ensures
            final(self).wf(),
            op_set_property_outcome(*old(self), *final(self), res, index),
    {
        let import = match self.current_import() {
            Ok(g) => g,
            Err(e) => return self.fail(e),
        };
        let symbol = match self.symbol_of(import, index) {
            Ok(s) => s,
            Err(e) => return self.fail(e),
        };
        let target = match self.peek(1) {
            Ok(v) => v,
            Err(e) => return self.fail(e),
        };
        let g = match target {
            Value::Instance(g) => g,
            _ => return self.fail(VmError::UnexpectedValue),
        };
        let value = match self.peek(0) {
            Ok(v) => v,
            Err(e) => return self.fail(e),
        };
        match self.set_field_of(g, symbol, value) {
            Ok(()) => {},
            Err(e) => return self.fail(e),
        }
        let ghost items = self.items();
        let value = match self.pop() {
            Ok(v) => v,
            Err(e) => return self.fail(e),
        };
        match self.pop() {
            Ok(_) => {},
            Err(e) => return self.fail(e),
        }
        proof {
            assert(self.items() =~= items.subrange(0, items.len() - 2));
            old(self).stack.lemma_items_in_slots();
        }
        self.push_value(value)
    }

    /// Makes a list of the `arity` values on top of the stack, the lowest
    /// first, and puts it in their place.
    pub fn op_list(&mut self, arity: u8) -> (res: Action<N>)
        requires
            old(self).wf(),
        ensures
            final(self).wf(),
            op_list_outcome(*old(self), *final(self), res, arity),
    {
        if self.stack.len() < arity as usize {
            return self.fail(VmError::StackEmpty);
        }
        let ghost items = self.items();
        let ghost slots = self.stack.spec_slots();
        let values = self.stack.pop_n(arity as usize);
        proof {
            old(self).stack.lemma_items_in_slots();
            assert forall|j: int| 0 <= j < values@.len() implies valid_value(self.heap(), #[trigger] values@[j]) by {
                assert(values@[j] == items[items.len() - arity + j]);
                assert(items[items.len() - arity + j] == slots[items.len() - arity + j]);
            }
        }
        let g = self.manage(Object::List(crate::memory::List { items: values }));
        proof {
            crate::vm::lemma_allocated(old(self).heap(), self.heap(), g, Object::List(crate::memory::List { items: values }));
            self.stack.lemma_items_in_slots();
        }
        self.push_value(Value::List(g))
    }

    /// Puts `value` at index `index` of list `list`.
    pub fn set_list_item(&mut self, list: Gc, index: usize, value: Value<N>)
        requires
            old(self).wf(),
            at(old(self).heap(), list, Kind::List),
            index < old(self).heap()[list.index as int]->List_0.items@.len(),
            valid_value(old(self).heap(), value),
        ensures
            final(self).wf(),
            same_kinds(old(self).heap(), final(self).heap()),
            final(self).stack == old(self).stack,
            final(self).frames == old(self).frames,
            final(self).heap() == old(self).heap().update(list.index as int, Object::List(crate::memory::List {
                items: final(self).heap()[list.index as int]->List_0.items })),
            final(self).heap()[list.index as int] is List,
            final(self).heap()[list.index as int]->List_0.items@
                == old(self).heap()[list.index as int]->List_0.items@.update(index as int, value),
    {
        let i = list.index;
        let ghost heap = self.objects@;
        proof {
            assert(object_ok(heap, heap[i as int]));
        }
        let mut taken: Object<N> = Object::Free;
        self.objects.set_and_swap(i, &mut taken);
        match taken {
            Object::List(mut l) => {
                l.items.set(index, value);
                let object = Object::List(l);
                proof {
                    assert(object_ok(heap, object));
                    crate::vm::lemma_heap_update(heap, i as int, object);
                    old(self).lemma_refs_kept(heap.update(i as int, object));
                }
                self.objects.set(i, object);
                proof {
                    assert(self.objects@ =~= heap.update(i as int, object));
                }
            },
            other => {
                self.objects.set(i, other);
                proof {
                    assert(self.objects@ =~= heap);
                }
            },
        }
    }

    /// Pops an index and a list and pushes the list's element at that
    /// index; the host turns the number into an index.
    pub fn op_get_index<F: Fn(N) -> usize>(&mut self, to_index: &F) -> (res: Action<N>)
        requires
            old(self).wf(),
            forall|x: N| #[trigger] to_index.requires((x,)),
        ensures
            final(self).wf(),
            op_get_index_outcome(*old(self), *final(self), res, to_index),
    {
        let ghost items = self.items();
        let index = match self.pop() {
            Ok(v) => v,
            Err(e) => return self.fail(e),
        };
        let list = match self.pop() {
            Ok(v) => v,
            Err(e) => return self.fail(e),
        };
        proof {
            assert(self.items() =~= items.subrange(0, items.len() - 2));
            old(self).stack.lemma_items_in_slots();
        }
        let g = match list {
            Value::List(g) => g,
            _ => return self.fail(VmError::UnexpectedValue),
        };
        let n = match index {
            Value::Number(n) => n,
            _ => return self.fail(VmError::UnexpectedValue),
        };
        let i = to_index(n);
        let found = match &self.objects[g.index] {
            Object::List(l) => {
                proof {
                    assert(object_ok(self.heap(), self.heap()[g.index as int]));
                }
                if i < l.items.len() {
                    Some(l.items[i])
                } else {
                    None
                }
            },
            _ => None,
        };
        match found {
            Some(v) => self.push_value(v),
            None => self.fail(VmError::IndexOutOfRange),
        }
    }

    /// Pops a value, an index and a list, puts the value at that index of
    /// the list, and pushes the value; the host turns the number into an
    /// index.
    pub fn op_set_index<F: Fn(N) -> usize>(&mut self, to_index: &F) -> (res: Action<N>)
        requires
            old(self).wf(),
            forall|x: N| #[trigger] to_index.requires((x,)),
        ensures
            final(self).wf(),
            op_set_index_outcome(*old(self), *final(self), res, to_index),
    {
        let ghost items = self.items();
        let value = match self.pop() {
            Ok(v) => v,
            Err(e) => return self.fail(e),
        };
        let index = match self.pop() {
            Ok(v) => v,
            Err(e) => return self.fail(e),
        };
        let list = match self.pop() {
            Ok(v) => v,
            Err(e) => return self.fail(e),
        };
        proof {
            assert(self.items() =~= items.subrange(0, items.len() - 3));
            old(self).stack.lemma_items_in_slots();
        }
        let g = match list {
            Value::List(g) => g,
            _ => return self.fail(VmError::UnexpectedValue),
        };
        let n = match index {
            Value::Number(n) => n,
            _ => return self.fail(VmError::UnexpectedValue),
        };
        let i = to_index(n);
        let len = match &self.objects[g.index] {
            Object::List(l) => l.items.len(),
            _ => 0,
        };
        if i >= len {
            return self.fail(VmError::IndexOutOfRange);
        }
        self.set_list_item(g, i, value);
        proof {
            crate::vm::lemma_value_kept(old(self).heap(), self.heap(), value);
        }
        self.push_value(value)
    }

    /// `nil` onto the stack.
    pub fn op_nil(&mut self) -> (res: Action<N>)
        requires
            old(self).wf(),
        ensures
            final(self).wf(),
            op_nil_outcome(*old(self), *final(self), res),
    {
        self.push_value(Value::Nil)
    }

    /// A boolean onto the stack.
    pub fn op_bool(&mut self, value: bool) -> (res: Action<N>)
        requires
            old(self).wf(),
        ensures
            final(self).wf(),
            op_bool_outcome(*old(self), *final(self), res, value),
    {
        self.push_value(Value::Boolean(value))
    }

    /// Drops the top value.
    pub fn op_pop(&mut self) -> (res: Action<N>)
        requires
            old(self).wf(),
        ensures
            final(self).wf(),
            op_pop_outcome(*old(self), *final(self), res),
    {
        match self.pop() {
            Ok(_) => Action::Continue,
            Err(e) => self.fail(e),
        }
    }

    /// Replaces the top value by whether it is false.
    pub fn op_not(&mut self) -> (res: Action<N>)
        requires
            old(self).wf(),
        ensures
            final(self).wf(),
            op_not_outcome(*old(self), *final(self), res),
    {
        let value = match self.pop() {
            Ok(v) => v,
            Err(e) => return self.fail(e),
        };
        let falsey = value.is_falsey();
        self.push_value(Value::Boolean(falsey))
    }
}

} // verus!
