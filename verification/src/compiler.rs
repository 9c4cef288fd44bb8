use vstd::prelude::*;
use crate::bytecode::{Module, Closure, Function, Class, Constant, Upvalue, decoded};
use crate::opcode::{Opcode, encode, encode_all, well_formed_from, offset_of, i16_le, lemma_encode_all_push,
    lemma_encode_all_update, lemma_encode_all_split, lemma_encode_len};
use crate::position::{Span, Diagnostic, WithSpan};
use crate::ast::{Ast, Expr, Stmt, Identifier, UnaryOperator, BinaryOperator, LogicalOperator};

verus! {

/// What kind of code a compiler context holds.
#[derive(Copy, Clone, Debug, PartialEq, Eq, Structural)]
pub enum ContextType {
    Function,
    Initializer,
    Method,
    TopLevel,
}

/// A local variable of a context: its name, the scope depth at which it
/// became usable (`None` while its initializer is compiled), and whether a
/// closure captures it.
pub struct Local {
    name: String,
    depth: Option<usize>,
    captured: bool,
}

/// The state of one function being compiled: its kind, its chunk, its
/// block nesting, its locals and the variables it captures.
pub struct CompilerContext {
    context_type: ContextType,
    chunk_index: usize,
    scope_depth: usize,
    locals: Vec<Local>,
    upvalues: Vec<Upvalue>,
}

/// Compiles an AST into a module, one context per function being compiled.
pub struct Compiler {
    module: Module,
    contexts: Vec<CompilerContext>,
    errors: Vec<Diagnostic>,
    /// The instructions of each chunk, in order.
    code: Ghost<Seq<Seq<Opcode>>>,
}

/// The table entry that an instruction names, if any, lies within tables
/// of the given lengths.
pub open spec fn refers_within(op: Opcode, constants: nat, identifiers: nat, closures: nat, classes: nat) -> bool {
    match op {
        Opcode::Constant(i) => i < constants,
        Opcode::Import(i) => i < constants,
        Opcode::DefineGlobal(i) => i < identifiers,
        Opcode::GetGlobal(i) => i < identifiers,
        Opcode::SetGlobal(i) => i < identifiers,
        Opcode::GetProperty(i) => i < identifiers,
        Opcode::SetProperty(i) => i < identifiers,
        Opcode::Method(i) => i < identifiers,
        Opcode::ImportGlobal(i) => i < identifiers,
        Opcode::Invoke(_, i) => i < identifiers,
        Opcode::Closure(i) => i < closures,
        Opcode::Class(i) => i < classes,
        _ => true,
    }
}

/// The instruction refers only to entries that `m` has.
pub open spec fn refers_into(op: Opcode, m: Module) -> bool {
    refers_within(op, m.spec_constants().len(), m.spec_identifiers().len(), m.spec_closures().len(),
        m.spec_classes().len())
}

/// Every chunk of `m` is a sequence of whole instructions, each of which
/// refers only to entries of the module, and every closure's code is a
/// chunk of the module.
pub open spec fn sound_module(m: Module) -> bool {
    &&& forall|i: int| 0 <= i < m.spec_chunks().len() ==> well_formed_from(#[trigger] m.spec_chunks()[i]@, 0)
    &&& forall|i: int, k: int| 0 <= i < m.spec_chunks().len() && 0 <= k < decoded(m.spec_chunks()[i]@).len()
        ==> refers_into(#[trigger] decoded(m.spec_chunks()[i]@)[k], m)
    &&& forall|c: int| 0 <= c < m.spec_closures().len()
        ==> (#[trigger] m.spec_closures()[c]).function.chunk_index < m.spec_chunks().len()
}

/// The encoding of any instruction sequence is well-formed from the start of
/// every instruction on.
pub proof fn lemma_encoded_well_formed(ops: Seq<Opcode>, k: int)
    requires
        0 <= k <= ops.len(),
    ensures
        well_formed_from(encode_all(ops), offset_of(ops, k)),
    decreases ops.len() - k,
{
    let bytes = encode_all(ops);
    if k == ops.len() {
        assert(ops.take(k) =~= ops);
    } else {
        lemma_encoded_well_formed(ops, k + 1);
        crate::opcode::lemma_offset_step(ops, k);
        lemma_encode_all_split(ops, k);
        lemma_encode_len(ops[k]);
        let off = offset_of(ops, k);
        assert(bytes.subrange(off, off + encode(ops[k]).len()) =~= encode(ops[k]));
        assert(bytes[off] == encode(ops[k])[0]);
    }
}

/// The instruction of a unary operator.
pub open spec fn unary_opcode(op: UnaryOperator) -> Opcode {
    match op {
        UnaryOperator::Minus => Opcode::Negate,
        UnaryOperator::Bang => Opcode::Not,
    }
}

/// The instructions of a binary operator, applied to the two operands on
/// top of the stack.
pub open spec fn binary_opcodes(op: BinaryOperator) -> Seq<Opcode> {
    match op {
        BinaryOperator::Plus => seq![Opcode::Add],
        BinaryOperator::Minus => seq![Opcode::Subtract],
        BinaryOperator::Less => seq![Opcode::Less],
        BinaryOperator::LessEqual => seq![Opcode::Greater, Opcode::Not],
        BinaryOperator::Star => seq![Opcode::Multiply],
        BinaryOperator::EqualEqual => seq![Opcode::Equal],
        BinaryOperator::BangEqual => seq![Opcode::Equal, Opcode::Not],
        BinaryOperator::Greater => seq![Opcode::Greater],
        BinaryOperator::GreaterEqual => seq![Opcode::Less, Opcode::Not],
        BinaryOperator::Slash => seq![Opcode::Divide],
    }
}

/// The instruction reads a variable: a local, a captured one or a global.
pub open spec fn reads_variable(op: Opcode) -> bool {
    op is GetLocal || op is GetUpvalue || op is GetGlobal
}

/// The instruction writes a variable: a local, a captured one or a global.
pub open spec fn writes_variable(op: Opcode) -> bool {
    op is SetLocal || op is SetUpvalue || op is SetGlobal
}

/// `ops` is code for the expression `e`: its operands in order, each by
/// its own code, then the instructions of its operator.  Which constant,
/// name, slot or jump distance an instruction names is left open.
pub open spec fn expr_code(e: WithSpan<Expr>, ops: Seq<Opcode>) -> bool
    decreases e, 1nat,
{
    match e.value {
        Expr::Number(_) => ops.len() == 1 && ops[0] is Constant,
        Expr::String(_) => ops.len() == 1 && ops[0] is Constant,
        Expr::Boolean(b) => ops == seq![if b { Opcode::True } else { Opcode::False }],
        Expr::Nil => ops == seq![Opcode::Nil],
        Expr::Grouping(x) => expr_code(*x, ops),
        Expr::Unary(op, r) => ops.len() >= 1 && ops.last() == unary_opcode(op.value) && expr_code(*r, ops.drop_last()),
        Expr::Binary(l, op, r) => {
            let n = ops.len() - binary_opcodes(op.value).len();
            &&& n >= 0
            &&& ops.skip(n) == binary_opcodes(op.value)
            &&& exists|k: int| 0 <= k <= n && expr_code(*l, #[trigger] ops.take(k)) && expr_code(*r, ops.subrange(k, n))
        },
        Expr::Logical(l, op, r) => match op.value {
            LogicalOperator::And => exists|k: int| 0 <= k && k + 2 <= ops.len() && expr_code(*l, #[trigger] ops.take(k))
                && ops[k] is JumpIfFalse && ops[k + 1] == Opcode::Pop && expr_code(*r, ops.skip(k + 2)),
            LogicalOperator::Or => exists|k: int| 0 <= k && k + 3 <= ops.len() && expr_code(*l, #[trigger] ops.take(k))
                && ops[k] is JumpIfFalse && ops[k + 1] is Jump && ops[k + 2] == Opcode::Pop && expr_code(*r, ops.skip(k + 3)),
        },
        Expr::Variable(_) => ops.len() == 1 && reads_variable(ops[0]),
        Expr::This => ops.len() == 1 && reads_variable(ops[0]),
        Expr::Assign(_, v) => ops.len() >= 1 && writes_variable(ops.last()) && expr_code(*v, ops.drop_last()),
        Expr::Call(f, args) => ops.len() >= 1 && match f.value {
            Expr::Get(obj, _) => (ops.last() matches Opcode::Invoke(n, _) && n == args@.len() % 256)
                && exists|k: int| 0 <= k < ops.len() && expr_code(*obj, #[trigger] ops.take(k))
                    && exprs_code(args@, ops.subrange(k, ops.len() - 1)),
            _ => ops.last() == Opcode::Call((args@.len() % 256) as u8)
                && exists|k: int| 0 <= k < ops.len() && expr_code(*f, #[trigger] ops.take(k))
                    && exprs_code(args@, ops.subrange(k, ops.len() - 1)),
        },
        Expr::Get(obj, _) => ops.len() >= 1 && ops.last() is GetProperty && expr_code(*obj, ops.drop_last()),
        Expr::SetProperty(obj, _, v) => ops.len() >= 1 && ops.last() is SetProperty
            && exists|k: int| 0 <= k < ops.len() && expr_code(*obj, #[trigger] ops.take(k))
                && expr_code(*v, ops.subrange(k, ops.len() - 1)),
        Expr::List(items) => ops.len() >= 1 && ops.last() == Opcode::List((items@.len() % 256) as u8)
            && exprs_code(items@, ops.drop_last()),
        Expr::ListGet(l, i) => ops.len() >= 1 && ops.last() == Opcode::GetIndex
            && exists|k: int| 0 <= k < ops.len() && expr_code(*l, #[trigger] ops.take(k))
                && expr_code(*i, ops.subrange(k, ops.len() - 1)),
        Expr::ListSet(l, i, v) => ops.len() >= 1 && ops.last() == Opcode::SetIndex
            && exists|k: int, j: int| 0 <= k <= j < ops.len() && expr_code(*l, #[trigger] ops.take(k))
                && expr_code(*i, (#[trigger] ops.take(j)).skip(k)) && expr_code(*v, ops.subrange(j, ops.len() - 1)),
        Expr::Super(_) => false,
    }
}

/// `ops` is the code of the expressions `es`, one after the other.
pub open spec fn exprs_code(es: Seq<WithSpan<Expr>>, ops: Seq<Opcode>) -> bool
    decreases es, 0nat,
{
    if es.len() == 0 {
        ops.len() == 0
    } else {
        exists|k: int| 0 <= k <= ops.len() && exprs_code(es.drop_last(), #[trigger] ops.take(k))
            && expr_code(es.last(), ops.skip(k))
    }
}

/// The constants that compiling an expression adds to the module, in the
/// order they are added: one for each number or string literal, so that
/// equal literals each get one of their own.
pub open spec fn expr_constants(e: WithSpan<Expr>) -> Seq<Constant>
    decreases e, 1nat,
{
    match e.value {
        Expr::Number(n) => seq![Constant::Number(n)],
        Expr::String(s) => seq![Constant::String(s)],
        Expr::Grouping(x) => expr_constants(*x),
        Expr::Unary(_, r) => expr_constants(*r),
        Expr::Binary(l, _, r) => expr_constants(*l) + expr_constants(*r),
        Expr::Logical(l, _, r) => expr_constants(*l) + expr_constants(*r),
        Expr::Assign(_, v) => expr_constants(*v),
        Expr::Call(f, args) => expr_constants(*f) + exprs_constants(args@),
        Expr::Get(obj, _) => expr_constants(*obj),
        Expr::SetProperty(obj, _, v) => expr_constants(*obj) + expr_constants(*v),
        Expr::List(items) => exprs_constants(items@),
        Expr::ListGet(l, i) => expr_constants(*l) + expr_constants(*i),
        Expr::ListSet(l, i, v) => expr_constants(*l) + expr_constants(*i) + expr_constants(*v),
        _ => Seq::empty(),
    }
}

/// The constants of the expressions `es`, one after the other.
pub open spec fn exprs_constants(es: Seq<WithSpan<Expr>>) -> Seq<Constant>
    decreases es, 0nat,
{
    if es.len() == 0 {
        Seq::empty()
    } else {
        exprs_constants(es.drop_last()) + expr_constants(es.last())
    }
}

/// An expression whose compilation at the top level records no diagnostic:
/// built from literals, variables, assignments, operators, calls, lists and
/// properties, without `this`, `super`, or `and` and `or`.
pub open spec fn plain_expr(e: WithSpan<Expr>) -> bool
    decreases e, 1nat,
{
    match e.value {
        Expr::Number(_) => true,
        Expr::String(_) => true,
        Expr::Boolean(_) => true,
        Expr::Nil => true,
        Expr::Variable(_) => true,
        Expr::Assign(_, v) => plain_expr(*v),
        Expr::Grouping(x) => plain_expr(*x),
        Expr::Unary(_, r) => plain_expr(*r),
        Expr::Binary(l, _, r) => plain_expr(*l) && plain_expr(*r),
        Expr::Call(f, args) => plain_expr(*f) && plain_exprs(args@),
        Expr::Get(obj, _) => plain_expr(*obj),
        Expr::SetProperty(obj, _, v) => plain_expr(*obj) && plain_expr(*v),
        Expr::List(items) => plain_exprs(items@),
        Expr::ListGet(l, i) => plain_expr(*l) && plain_expr(*i),
        Expr::ListSet(l, i, v) => plain_expr(*l) && plain_expr(*i) && plain_expr(*v),
        _ => false,
    }
}

/// Each of the expressions `es` is plain.
pub open spec fn plain_exprs(es: Seq<WithSpan<Expr>>) -> bool
    decreases es, 0nat,
{
    if es.len() == 0 {
        true
    } else {
        plain_exprs(es.drop_last()) && plain_expr(es.last())
    }
}

/// Each expression of a plain list is plain.
proof fn lemma_plain_exprs(es: Seq<WithSpan<Expr>>, i: int)
    requires
        plain_exprs(es),
        0 <= i < es.len(),
    ensures
        plain_expr(es[i]),
    decreases es.len(),
{
    if i < es.len() - 1 {
        lemma_plain_exprs(es.drop_last(), i);
    }
}

/// `ops` is code for a top-level statement that prints, evaluates or
/// defines a global: the code of its expression (nil where a variable has
/// no initializer), then the print, the pop or the definition.
pub open spec fn plain_stmt_code(s: WithSpan<Stmt>, ops: Seq<Opcode>) -> bool {
    &&& ops.len() >= 1
    &&& match s.value {
        Stmt::Print(e) => ops.last() == Opcode::Print && expr_code(*e, ops.drop_last()),
        Stmt::Expression(e) => ops.last() == Opcode::Pop && expr_code(*e, ops.drop_last()),
        Stmt::Var(_, init) => ops.last() is DefineGlobal && match init {
            Some(e) => expr_code(*e, ops.drop_last()),
            None => ops.drop_last() == seq![Opcode::Nil],
        },
        _ => false,
    }
}

/// `ops` is the code of the top-level statements `ss`, one after the other.
pub open spec fn plain_stmts_code(ss: Seq<WithSpan<Stmt>>, ops: Seq<Opcode>) -> bool
    decreases ss.len(),
{
    if ss.len() == 0 {
        ops.len() == 0
    } else {
        exists|k: int| 0 <= k <= ops.len() && plain_stmts_code(ss.drop_last(), #[trigger] ops.take(k))
            && plain_stmt_code(ss.last(), ops.skip(k))
    }
}

/// A program of top-level statements that print, evaluate or define a
/// global from plain expressions: it always compiles.
pub open spec fn plain_program(ast: Seq<WithSpan<Stmt>>) -> bool {
    forall|i: int| 0 <= i < ast.len() ==> match (#[trigger] ast[i]).value {
        Stmt::Print(e) => plain_expr(*e),
        Stmt::Expression(e) => plain_expr(*e),
        Stmt::Var(_, init) => match init {
            Some(e) => plain_expr(*e),
            None => true,
        },
        _ => false,
    }
}

/// The kind of context a method named `name` is compiled in.
pub open spec fn method_context(name: String) -> ContextType {
    if name@ == seq!['i', 'n', 'i', 't'] {
        ContextType::Initializer
    } else {
        ContextType::Method
    }
}

/// The constants that compiling a statement in a context of kind `ctx` adds
/// to the module, in order.  A function body is compiled in a function
/// context, and a method body in a method or initializer context; a return
/// with a value where none is allowed compiles nothing.
pub open spec fn stmt_constants(s: WithSpan<Stmt>, ctx: ContextType) -> Seq<Constant>
    decreases s, 1nat,
{
    match s.value {
        Stmt::Expression(e) => expr_constants(*e),
        Stmt::Print(e) => expr_constants(*e),
        Stmt::Var(_, init) => match init {
            Some(e) => expr_constants(*e),
            None => Seq::empty(),
        },
        Stmt::Block(ss) => stmts_constants(ss@, ctx),
        Stmt::If(c, t, el) => expr_constants(*c) + stmt_constants(*t, ctx) + match el {
            Some(e) => stmt_constants(*e, ctx),
            None => Seq::empty(),
        },
        Stmt::While(c, b) => expr_constants(*c) + stmt_constants(*b, ctx),
        Stmt::Function(_, _, body) => stmts_constants(body@, ContextType::Function),
        Stmt::Return(v) => match v {
            Some(e) => if ctx == ContextType::Initializer || ctx == ContextType::TopLevel {
                Seq::empty()
            } else {
                expr_constants(*e)
            },
            None => Seq::empty(),
        },
        Stmt::Class(_, _, members) => methods_constants(members@),
        Stmt::Import(path, _) => seq![Constant::String(path.value)],
        Stmt::Error => Seq::empty(),
    }
}

/// The constants of the statements `ss`, one after the other.
pub open spec fn stmts_constants(ss: Seq<WithSpan<Stmt>>, ctx: ContextType) -> Seq<Constant>
    decreases ss, 0nat,
{
    if ss.len() == 0 {
        Seq::empty()
    } else {
        stmts_constants(ss.drop_last(), ctx) + stmt_constants(ss.last(), ctx)
    }
}

/// The constants of the methods among the members of a class body.
pub open spec fn methods_constants(ss: Seq<WithSpan<Stmt>>) -> Seq<Constant>
    decreases ss, 0nat,
{
    if ss.len() == 0 {
        Seq::empty()
    } else {
        methods_constants(ss.drop_last()) + match ss.last().value {
            Stmt::Function(id, _, body) => stmts_constants(body@, method_context(id.value)),
            _ => Seq::empty(),
        }
    }
}

/// An index as a `u32` operand: itself when it fits, and never larger.
fn index_u32(x: usize) -> (res: u32)
    ensures
        res <= x,
        x <= u32::MAX ==> res == x,
{
    #[verifier::truncate]
    let res = x as u32;
    assert(res <= x && (x <= 0xffff_ffffusize ==> res == x)) by (bit_vector)
        requires
            res == x as u32;
    res
}

/// A count or index as a `u8` operand: taken modulo 256, so never larger.
fn index_u8(x: usize) -> (res: u8)
    ensures
        res <= x,
        res == x % 256,
{
    #[verifier::truncate]
    let res = x as u8;
    assert(res <= x && res == x % 256) by (bit_vector)
        requires
            res == x as u8;
    res
}

impl Compiler {
    pub closed spec fn spec_module(&self) -> Module {
        self.module
    }

    pub closed spec fn spec_code(&self) -> Seq<Seq<Opcode>> {
        self.code@
    }

    pub closed spec fn spec_errors(&self) -> Seq<Diagnostic> {
        self.errors@
    }

    /// The number of contexts open.
    pub closed spec fn spec_depth(&self) -> nat {
        self.contexts@.len()
    }

    /// The chunks hold the encodings of the instructions emitted into them,
    /// which refer only to entries of the module; every open context and
    /// every closure has its chunk.
    pub closed spec fn inv(&self) -> bool {
        let m = self.module;
        &&& self.code@.len() == m.spec_chunks().len()
        &&& forall|i: int| 0 <= i < self.code@.len() ==> (#[trigger] m.spec_chunks()[i])@ == encode_all(self.code@[i])
        &&& forall|i: int, k: int| 0 <= i < self.code@.len() && 0 <= k < self.code@[i].len()
            ==> refers_into(#[trigger] self.code@[i][k], m)
        &&& forall|j: int| 0 <= j < self.contexts@.len() ==> (#[trigger] self.contexts@[j]).chunk_index < m.spec_chunks().len()
            && self.contexts@[j].locals@.len() >= 1
        &&& forall|c: int| 0 <= c < m.spec_closures().len()
            ==> (#[trigger] m.spec_closures()[c]).function.chunk_index < m.spec_chunks().len()
    }

    /// The chunk that the innermost context compiles into.
    pub closed spec fn spec_current(&self) -> int {
        self.contexts@.last().chunk_index as int
    }

    /// `self` extends `old`: the tables only grew, instructions already
    /// emitted stay in place, and the diagnostics only grew.
    pub closed spec fn extends(&self, old: &Compiler) -> bool {
        &&& self.code@.len() >= old.code@.len()
        &&& forall|i: int| 0 <= i < old.code@.len() ==> (#[trigger] self.code@[i]).len() >= old.code@[i].len()
            && self.code@[i].subrange(0, old.code@[i].len() as int) == old.code@[i]
        &&& self.module.spec_constants().len() >= old.module.spec_constants().len()
        &&& self.module.spec_identifiers().len() >= old.module.spec_identifiers().len()
        &&& self.module.spec_closures().len() >= old.module.spec_closures().len()
        &&& self.module.spec_classes().len() >= old.module.spec_classes().len()
        &&& forall|i: int| 0 <= i < old.module.spec_classes().len()
            ==> #[trigger] self.module.spec_classes()[i] == old.module.spec_classes()[i]
        &&& self.errors@.len() >= old.errors@.len()
        &&& self.errors@.subrange(0, old.errors@.len() as int) == old.errors@
    }

    /// The same contexts are open on the same chunks, at the same block
    /// depths.
    pub closed spec fn same_frames(&self, old: &Compiler) -> bool {
        &&& self.contexts@.len() == old.contexts@.len()
        &&& forall|j: int| 0 <= j < old.contexts@.len() ==> {
            &&& (#[trigger] self.contexts@[j]).chunk_index == old.contexts@[j].chunk_index
            &&& self.contexts@[j].context_type == old.contexts@[j].context_type
            &&& self.contexts@[j].scope_depth == old.contexts@[j].scope_depth
        }
    }

    /// The instructions emitted into the innermost chunk of `old` since
    /// `old`.
    pub closed spec fn emitted(&self, old: &Compiler) -> Seq<Opcode> {
        let ci = old.spec_current();
        self.code@[ci].subrange(old.code@[ci].len() as int, self.code@[ci].len() as int)
    }

    /// The kind of the innermost context.
    pub closed spec fn spec_context_type(&self) -> ContextType {
        self.contexts@.last().context_type
    }

    /// Compiling at the top level, outside any block, with every local
    /// initialized: no name can resolve to a local still being defined.
    pub closed spec fn settled_top(&self) -> bool {
        &&& self.contexts@.len() == 1
        &&& self.contexts@[0].scope_depth == 0
        &&& forall|k: int| 0 <= k < self.contexts@[0].locals@.len() ==> (#[trigger] self.contexts@[0].locals@[k]).depth is Some
    }

    /// The innermost context is inside a block.
    pub closed spec fn spec_scoped(&self) -> bool {
        self.contexts@.last().scope_depth > 0
    }

    /// A compiler that continues `old` compiles into a context of the same
    /// kind.
    proof fn lemma_same_context(&self, old: &Compiler)
        requires
            self.continues(old),
            old.spec_depth() > 0,
        ensures
            self.spec_context_type() == old.spec_context_type(),
            self.spec_scoped() == old.spec_scoped(),
            self.spec_depth() == old.spec_depth(),
    {
        assert(self.contexts@[old.contexts@.len() - 1].context_type == old.contexts@[old.contexts@.len() - 1].context_type);
        assert(self.contexts@[old.contexts@.len() - 1].scope_depth == old.contexts@[old.contexts@.len() - 1].scope_depth);
    }

    /// No error was recorded since `old`.
    pub closed spec fn clean_since(&self, old: &Compiler) -> bool {
        self.errors@.len() == old.errors@.len()
    }

    /// What is emitted from `base` to `self` is what was emitted up to
    /// `mid`, then from there; no error since `base` is none in either part.
    proof fn lemma_emitted_concat(&self, mid: &Compiler, base: &Compiler)
        requires
            base.inv(),
            base.spec_depth() > 0,
            mid.continues(base),
            self.continues(mid),
        ensures
            self.emitted(base) == mid.emitted(base) + self.emitted(mid),
            mid.spec_current() == base.spec_current(),
            mid.spec_depth() == base.spec_depth(),
            self.clean_since(base) ==> mid.clean_since(base) && self.clean_since(mid),
    {
        let ci = base.spec_current();
        let last = base.contexts@.len() - 1;
        assert(mid.contexts@[last].chunk_index == base.contexts@[last].chunk_index);
        assert(0 <= ci < base.code@.len());
        let a = base.code@[ci];
        let b = mid.code@[ci];
        let c = self.code@[ci];
        assert(b.subrange(0, a.len() as int) == a);
        assert(c.subrange(0, b.len() as int) == b);
        assert(c.subrange(a.len() as int, c.len() as int) =~= b.subrange(a.len() as int, b.len() as int)
            + c.subrange(b.len() as int, c.len() as int));
    }

    /// One instruction pushed onto the innermost chunk is what was emitted.
    proof fn lemma_emitted_push(&self, old: &Compiler, op: Opcode)
        requires
            old.inv(),
            old.spec_depth() > 0,
            self.code@ == old.code@.update(old.spec_current(), old.code@[old.spec_current()].push(op)),
        ensures
            self.emitted(old) == seq![op],
    {
        let ci = old.spec_current();
        assert(self.code@[ci].subrange(old.code@[ci].len() as int, self.code@[ci].len() as int) =~= seq![op]);
    }

    /// Patching jump `k`, emitted after `base`, changes only that one of
    /// the instructions emitted since `base`, and keeps its kind.
    proof fn lemma_emitted_patched(&self, mid: &Compiler, base: &Compiler, k: int)
        requires
            base.inv(),
            base.spec_depth() > 0,
            mid.continues(base),
            self.patches(mid, k),
            base.code@[base.spec_current()].len() <= k < mid.code@[base.spec_current()].len(),
        ensures
            ({
                let e = self.emitted(base);
                let m = mid.emitted(base);
                let j = k - base.code@[base.spec_current()].len();
                &&& e.len() == m.len()
                &&& forall|i: int| 0 <= i < m.len() && i != j ==> #[trigger] e[i] == m[i]
                &&& m[j] is JumpIfFalse ==> e[j] is JumpIfFalse
                &&& m[j] is Jump ==> e[j] is Jump
            }),
            self.clean_since(base) ==> mid.clean_since(base),
    {
        let ci = base.spec_current();
        let last = base.contexts@.len() - 1;
        assert(mid.contexts@[last].chunk_index == base.contexts@[last].chunk_index);
        assert(mid.spec_current() == ci);
        let a = base.code@[ci].len() as int;
        let e = self.emitted(base);
        let m = mid.emitted(base);
        assert forall|i: int| 0 <= i < m.len() && i != k - a implies #[trigger] e[i] == m[i] by {
            assert(e[i] == self.code@[ci][a + i]);
            assert(m[i] == mid.code@[ci][a + i]);
        }
    }

    /// With the code as it was, nothing was emitted.
    proof fn lemma_emitted_none(&self, old: &Compiler)
        requires
            old.inv(),
            old.spec_depth() > 0,
            self.code@ == old.code@,
        ensures
            self.emitted(old) == Seq::<Opcode>::empty(),
    {
        let ci = old.spec_current();
        assert(self.code@[ci].subrange(old.code@[ci].len() as int, self.code@[ci].len() as int) =~= Seq::<Opcode>::empty());
    }

    /// `self` continues `old`: the same contexts are open, and it extends it.
    pub closed spec fn continues(&self, old: &Compiler) -> bool {
        &&& self.extends(old)
        &&& self.same_frames(old)
    }

    /// `self` is `old` with the operand of jump `k` of the innermost chunk
    /// rewritten (or left as it was, with an error recorded).
    pub closed spec fn patches(&self, old: &Compiler, k: int) -> bool {
        let ci = old.spec_current();
        &&& self.contexts == old.contexts
        &&& self.module.spec_constants() == old.module.spec_constants()
        &&& self.module.spec_identifiers() == old.module.spec_identifiers()
        &&& self.module.spec_closures() == old.module.spec_closures()
        &&& self.module.spec_classes() == old.module.spec_classes()
        &&& self.code@.len() == old.code@.len()
        &&& forall|i: int| 0 <= i < old.code@.len() && i != ci ==> #[trigger] self.code@[i] == old.code@[i]
        &&& self.code@[ci] == old.code@[ci].update(k, self.code@[ci][k])
        &&& (old.code@[ci][k] is Jump ==> self.code@[ci][k] is Jump)
        &&& (old.code@[ci][k] is JumpIfFalse ==> self.code@[ci][k] is JumpIfFalse)
        &&& self.errors@.len() >= old.errors@.len()
        &&& self.errors@.subrange(0, old.errors@.len() as int) == old.errors@
    }

    /// Patching a jump emitted after `base` keeps continuing `base`.
    proof fn lemma_patch_continues(&self, mid: &Compiler, base: &Compiler, k: int)
        requires
            mid.continues(base),
            self.patches(mid, k),
            mid.spec_depth() > 0,
            0 <= k < mid.code@[mid.spec_current()].len(),
            mid.spec_current() < base.code@.len() ==> k >= base.code@[mid.spec_current()].len(),
        ensures
            self.continues(base),
    {
        let ci = mid.spec_current();
        assert forall|i: int| 0 <= i < base.code@.len() implies (#[trigger] self.code@[i]).len() >= base.code@[i].len()
            && self.code@[i].subrange(0, base.code@[i].len() as int) == base.code@[i] by {
            assert(mid.code@[i].len() >= base.code@[i].len());
            assert(mid.code@[i].subrange(0, base.code@[i].len() as int) == base.code@[i]);
            if i == ci {
                assert(self.code@[i].subrange(0, base.code@[i].len() as int) =~= mid.code@[i].subrange(0, base.code@[i].len() as int));
            }
        }
        assert(self.errors@.subrange(0, base.errors@.len() as int) =~= base.errors@) by {
            assert(mid.errors@.subrange(0, base.errors@.len() as int) == base.errors@);
            assert(self.errors@.subrange(0, mid.errors@.len() as int) == mid.errors@);
        }
    }

    /// Continuing is transitive.
    proof fn lemma_continues_trans(&self, mid: &Compiler, base: &Compiler)
        requires
            mid.continues(base),
            self.continues(mid),
        ensures
            self.continues(base),
    {
        assert forall|i: int| 0 <= i < base.code@.len() implies (#[trigger] self.code@[i]).len() >= base.code@[i].len()
            && self.code@[i].subrange(0, base.code@[i].len() as int) == base.code@[i] by {
            assert(mid.code@[i].subrange(0, base.code@[i].len() as int) == base.code@[i]);
            assert(self.code@[i].subrange(0, mid.code@[i].len() as int) == mid.code@[i]);
            assert(self.code@[i].subrange(0, base.code@[i].len() as int) =~= mid.code@[i].subrange(0, base.code@[i].len() as int));
        }
        assert(self.errors@.subrange(0, base.errors@.len() as int) =~= base.errors@) by {
            assert(mid.errors@.subrange(0, base.errors@.len() as int) == base.errors@);
            assert(self.errors@.subrange(0, mid.errors@.len() as int) == mid.errors@);
        }
        assert forall|j: int| 0 <= j < base.contexts@.len() implies {
            &&& (#[trigger] self.contexts@[j]).chunk_index == base.contexts@[j].chunk_index
            &&& self.contexts@[j].context_type == base.contexts@[j].context_type
            &&& self.contexts@[j].scope_depth == base.contexts@[j].scope_depth
        } by {
            assert(mid.contexts@[j].chunk_index == base.contexts@[j].chunk_index);
        }
    }

    /// A compiler with an empty module and no context open.
    pub fn new() -> (res: Compiler)
        ensures
            res.inv(),
            res.spec_depth() == 0,
            res.spec_errors().len() == 0,
            res.spec_module().spec_chunks().len() == 0,
            res.spec_module().spec_constants().len() == 0,
    {
        Compiler { module: Module::new(), contexts: Vec::new(), errors: Vec::new(), code: Ghost(Seq::empty()) }
    }

    /// Records an error at `span`.
    fn add_error(&mut self, message: &str, span: Span)
        ensures
            final(self).spec_errors() == old(self).spec_errors().push(Diagnostic { span, message: final(self).spec_errors().last().message }),
            final(self).spec_errors().last().message@ == message@,
            final(self).spec_module() == old(self).spec_module(),
            final(self).spec_code() == old(self).spec_code(),
            final(self).contexts == old(self).contexts,
    {
        self.errors.push(Diagnostic { span, message: message.to_string() });
    }

    /// Some error was recorded.
    pub fn has_errors(&self) -> (res: bool)
        ensures
            res == (self.spec_errors().len() > 0),
    {
        self.errors.len() > 0
    }

    /// The errors recorded.
    pub fn into_errors(self) -> (res: Vec<Diagnostic>)
        ensures
            res@ == self.spec_errors(),
    {
        self.errors
    }

    /// The module compiled.
    pub fn into_module(self) -> (res: Module)
        ensures
            res == self.spec_module(),
    {
        self.module
    }

    /// The kind of the innermost context.
    fn context_type(&self) -> (res: ContextType)
        requires
            self.spec_depth() > 0,
        ensures
            res == self.contexts@.last().context_type,
    {
        self.contexts[self.contexts.len() - 1].context_type
    }

    /// The innermost context is inside a block.
    fn is_scoped(&self) -> (res: bool)
        requires
            self.spec_depth() > 0,
        ensures
            res == (self.contexts@.last().scope_depth > 0),
    {
        self.contexts[self.contexts.len() - 1].scope_depth > 0
    }

    /// Some open context is a method or an initializer.
    fn in_method_or_initializer_nested(&self) -> (res: bool)
        ensures
            res == exists|j: int| 0 <= j < self.contexts@.len()
                && (#[trigger] self.contexts@[j].context_type == ContextType::Method
                    || self.contexts@[j].context_type == ContextType::Initializer),
    {
        let mut j: usize = 0;
        while j < self.contexts.len()
            invariant
                j <= self.contexts@.len(),
                forall|i: int| 0 <= i < j ==> !(#[trigger] self.contexts@[i].context_type == ContextType::Method
                    || self.contexts@[i].context_type == ContextType::Initializer),
            decreases self.contexts@.len() - j,
        {
            let t = self.contexts[j].context_type;
            if t == ContextType::Method || t == ContextType::Initializer {
                return true;
            }
            j = j + 1;
        }
        false
    }

    /// Appends `op` to the chunk of the innermost context.
    fn emit(&mut self, op: Opcode)
        requires
            old(self).inv(),
            old(self).spec_depth() > 0,
            refers_into(op, old(self).spec_module()),
        ensures
            final(self).inv(),
            final(self).continues(old(self)),
            final(self).spec_code() == old(self).spec_code().update(old(self).spec_current(),
                old(self).spec_code()[old(self).spec_current()].push(op)),
            final(self).spec_module().spec_constants() == old(self).spec_module().spec_constants(),
            final(self).spec_module().spec_identifiers() == old(self).spec_module().spec_identifiers(),
            final(self).spec_module().spec_closures() == old(self).spec_module().spec_closures(),
            final(self).spec_module().spec_classes() == old(self).spec_module().spec_classes(),
            final(self).spec_errors() == old(self).spec_errors(),
            final(self).contexts == old(self).contexts,
            final(self).emitted(old(self)) == seq![op],
            final(self).clean_since(old(self)),
    {
        let ci = self.contexts[self.contexts.len() - 1].chunk_index;
        let ghost before = self.code@[ci as int];
        {
            let chunk = self.module.chunk_mut(ci);
            chunk.add_opcode(op);
        }
        proof {
            lemma_encode_all_push(before, op);
            self.code@ = self.code@.update(ci as int, before.push(op));
            assert forall|i: int, k: int| 0 <= i < self.code@.len() && 0 <= k < self.code@[i].len()
                implies refers_into(#[trigger] self.code@[i][k], self.module) by {
                if i == ci {
                    if k < before.len() {
                        assert(self.code@[i][k] == old(self).code@[i][k]);
                    }
                } else {
                    assert(self.code@[i][k] == old(self).code@[i][k]);
                }
            }
            assert forall|i: int| 0 <= i < old(self).code@.len() implies (#[trigger] self.code@[i]).len() >= old(self).code@[i].len()
                && self.code@[i].subrange(0, old(self).code@[i].len() as int) == old(self).code@[i] by {
                if i == ci {
                    assert(self.code@[i].subrange(0, old(self).code@[i].len() as int) =~= old(self).code@[i]);
                }
            }
            assert(self.errors@.subrange(0, old(self).errors@.len() as int) =~= old(self).errors@);
        }
        proof {
            let ci = old(self).spec_current();
            assert(self.code@[ci].subrange(old(self).code@[ci].len() as int, self.code@[ci].len() as int) =~= seq![op]);
        }
    }

    /// The table operands of `op` still lie within the tables after they grew.
    proof fn lemma_tables_grew(&self, old: &Compiler)
        requires
            old.inv(),
            self.code@ == old.code@,
            self.module.spec_chunks() == old.module.spec_chunks(),
            self.module.spec_constants().len() >= old.module.spec_constants().len(),
            self.module.spec_identifiers().len() >= old.module.spec_identifiers().len(),
            self.module.spec_closures().len() >= old.module.spec_closures().len(),
            self.module.spec_classes().len() >= old.module.spec_classes().len(),
            self.contexts == old.contexts,
            forall|c: int| 0 <= c < self.module.spec_closures().len()
                ==> (#[trigger] self.module.spec_closures()[c]).function.chunk_index < self.module.spec_chunks().len(),
        ensures
            self.inv(),
    {
        assert forall|i: int, k: int| 0 <= i < self.code@.len() && 0 <= k < self.code@[i].len()
            implies refers_into(#[trigger] self.code@[i][k], self.module) by {
            assert(refers_into(old.code@[i][k], old.module));
        }
    }

    /// Adds a constant to the module.
    fn add_constant(&mut self, constant: Constant) -> (res: usize)
        requires
            old(self).inv(),
        ensures
            final(self).inv(),
            final(self).continues(old(self)),
            res < final(self).module.spec_constants().len(),
            final(self).module.spec_constants() == old(self).module.spec_constants().push(constant),
            final(self).module.spec_identifiers() == old(self).module.spec_identifiers(),
            final(self).code@ == old(self).code@,
            final(self).contexts == old(self).contexts,
            final(self).errors == old(self).errors,
    {
        let res = self.module.add_constant(constant);
        proof {
            self.lemma_tables_grew(old(self));
            assert(self.errors@.subrange(0, old(self).errors@.len() as int) =~= old(self).errors@);
            assert forall|i: int| 0 <= i < old(self).code@.len() implies (#[trigger] self.code@[i]).len() >= old(self).code@[i].len()
                && self.code@[i].subrange(0, old(self).code@[i].len() as int) == old(self).code@[i] by {
                assert(self.code@[i].subrange(0, old(self).code@[i].len() as int) =~= old(self).code@[i]);
            }
        }
        res
    }

    /// The index of identifier `name` in the module, adding it if it is not
    /// there yet.
    fn add_identifier(&mut self, name: &String) -> (res: usize)
        requires
            old(self).inv(),
        ensures
            final(self).inv(),
            final(self).continues(old(self)),
            res < final(self).module.spec_identifiers().len(),
            final(self).module.spec_identifiers()[res as int] == name@,
            old(self).module.spec_identifiers().contains(name@)
                ==> final(self).module.spec_identifiers() == old(self).module.spec_identifiers(),
            !old(self).module.spec_identifiers().contains(name@)
                ==> final(self).module.spec_identifiers() == old(self).module.spec_identifiers().push(name@),
            final(self).module.spec_constants() == old(self).module.spec_constants(),
            final(self).code@ == old(self).code@,
            final(self).contexts == old(self).contexts,
            final(self).errors == old(self).errors,
    {
        let identifiers = self.module.identifiers();
        let mut i: usize = 0;
        while i < identifiers.len()
            invariant
                self.inv(),
                *self == *old(self),
                identifiers@.map_values(|s: String| s@) == self.module.spec_identifiers(),
                i <= identifiers@.len(),
                forall|j: int| 0 <= j < i ==> #[trigger] self.module.spec_identifiers()[j] != name@,
            decreases identifiers@.len() - i,
        {
            if identifiers[i] == *name {
                proof {
                    assert(self.module.spec_identifiers()[i as int] == identifiers@[i as int]@);
                    assert(self.errors@.subrange(0, old(self).errors@.len() as int) =~= old(self).errors@);
                    assert forall|k: int| 0 <= k < old(self).code@.len() implies (#[trigger] self.code@[k]).len() >= old(self).code@[k].len()
                        && self.code@[k].subrange(0, old(self).code@[k].len() as int) == old(self).code@[k] by {
                        assert(self.code@[k].subrange(0, old(self).code@[k].len() as int) =~= old(self).code@[k]);
                    }
                }
                return i;
            }
            proof { assert(self.module.spec_identifiers()[i as int] == identifiers@[i as int]@); }
            i = i + 1;
        }
        proof {
            assert forall|j: int| 0 <= j < self.module.spec_identifiers().len() implies #[trigger] self.module.spec_identifiers()[j] != name@ by {}
        }
        let res = self.module.add_identifier(name.as_str());
        proof {
            self.lemma_tables_grew(old(self));
            assert(self.errors@.subrange(0, old(self).errors@.len() as int) =~= old(self).errors@);
            assert forall|k: int| 0 <= k < old(self).code@.len() implies (#[trigger] self.code@[k]).len() >= old(self).code@[k].len()
                && self.code@[k].subrange(0, old(self).code@[k].len() as int) == old(self).code@[k] by {
                assert(self.code@[k].subrange(0, old(self).code@[k].len() as int) =~= old(self).code@[k]);
            }
        }
        res
    }

    /// Adds a closure whose code is a chunk of the module.
    fn add_closure(&mut self, closure: Closure) -> (res: usize)
        requires
            old(self).inv(),
            closure.function.chunk_index < old(self).module.spec_chunks().len(),
        ensures
            final(self).inv(),
            final(self).continues(old(self)),
            res < final(self).module.spec_closures().len(),
            final(self).module.spec_closures() == old(self).module.spec_closures().push(closure),
            final(self).module.spec_constants() == old(self).module.spec_constants(),
            final(self).module.spec_identifiers() == old(self).module.spec_identifiers(),
            final(self).code@ == old(self).code@,
            final(self).contexts == old(self).contexts,
            final(self).errors == old(self).errors,
    {
        let res = self.module.add_closure(closure);
        proof {
            assert forall|c: int| 0 <= c < self.module.spec_closures().len()
                implies (#[trigger] self.module.spec_closures()[c]).function.chunk_index < self.module.spec_chunks().len() by {
                if c < old(self).module.spec_closures().len() {
                    assert(self.module.spec_closures()[c] == old(self).module.spec_closures()[c]);
                }
            }
            self.lemma_tables_grew(old(self));
            assert(self.errors@.subrange(0, old(self).errors@.len() as int) =~= old(self).errors@);
            assert forall|k: int| 0 <= k < old(self).code@.len() implies (#[trigger] self.code@[k]).len() >= old(self).code@[k].len()
                && self.code@[k].subrange(0, old(self).code@[k].len() as int) == old(self).code@[k] by {
                assert(self.code@[k].subrange(0, old(self).code@[k].len() as int) =~= old(self).code@[k]);
            }
        }
        res
    }

    /// Adds a class to the module.
    fn add_class(&mut self, class: Class) -> (res: usize)
        requires
            old(self).inv(),
        ensures
            final(self).inv(),
            final(self).continues(old(self)),
            res < final(self).module.spec_classes().len(),
            res == old(self).module.spec_classes().len(),
            final(self).module.spec_classes() == old(self).module.spec_classes().push(class),
            final(self).module.spec_constants() == old(self).module.spec_constants(),
            final(self).module.spec_identifiers() == old(self).module.spec_identifiers(),
            final(self).code@ == old(self).code@,
            final(self).contexts == old(self).contexts,
            final(self).errors == old(self).errors,
    {
        let res = self.module.add_class(class);
        proof {
            self.lemma_tables_grew(old(self));
            assert(self.errors@.subrange(0, old(self).errors@.len() as int) =~= old(self).errors@);
            assert forall|k: int| 0 <= k < old(self).code@.len() implies (#[trigger] self.code@[k]).len() >= old(self).code@[k].len()
                && self.code@[k].subrange(0, old(self).code@[k].len() as int) == old(self).code@[k] by {
                assert(self.code@[k].subrange(0, old(self).code@[k].len() as int) =~= old(self).code@[k]);
            }
        }
        res
    }

    /// The byte offset the next instruction of the innermost context gets.
    fn instruction_index(&self) -> (res: usize)
        requires
            self.inv(),
            self.spec_depth() > 0,
        ensures
            res == encode_all(self.code@[self.spec_current()]).len(),
            res == offset_of(self.code@[self.spec_current()], self.code@[self.spec_current()].len() as int),
    {
        let ci = self.contexts[self.contexts.len() - 1].chunk_index;
        proof { assert(self.code@[ci as int].take(self.code@[ci as int].len() as int) =~= self.code@[ci as int]); }
        self.module.chunk(ci).instruction_index()
    }

    /// Emits a jump with a placeholder target and returns the index of its
    /// operand, to be patched.
    fn emit_jump(&mut self, op: Opcode) -> (res: usize)
        requires
            old(self).inv(),
            old(self).spec_depth() > 0,
            op is Jump || op is JumpIfFalse,
        ensures
            final(self).inv(),
            final(self).continues(old(self)),
            final(self).spec_code() == old(self).spec_code().update(old(self).spec_current(),
                old(self).spec_code()[old(self).spec_current()].push(op)),
            res == offset_of(final(self).spec_code()[old(self).spec_current()], old(self).spec_code()[old(self).spec_current()].len() as int) + 1,
            final(self).module.spec_constants() == old(self).module.spec_constants(),
            final(self).module.spec_identifiers() == old(self).module.spec_identifiers(),
            final(self).spec_errors() == old(self).spec_errors(),
            final(self).contexts == old(self).contexts,
    {
        let ghost at = encode_all(self.code@[self.spec_current()]).len();
        self.emit(op);
        let end = self.instruction_index();
        proof {
            let ci = old(self).spec_current();
            let ops = self.code@[ci];
            assert(ops.take(old(self).code@[ci].len() as int) =~= old(self).code@[ci]);
            lemma_encode_all_push(old(self).code@[ci], op);
            assert(end == at + 3);
        }
        end - 2
    }

    /// Points the jump whose operand is at `index` (instruction `k` of the
    /// innermost chunk) to `target`, a byte offset of that chunk; records an
    /// error where the distance does not fit the operand.
    fn patch_jump_to(&mut self, index: usize, target: usize, span: Span, Ghost(k): Ghost<int>)
        requires
            old(self).inv(),
            old(self).spec_depth() > 0,
            0 <= k < old(self).spec_code()[old(self).spec_current()].len(),
            old(self).spec_code()[old(self).spec_current()][k] is Jump
                || old(self).spec_code()[old(self).spec_current()][k] is JumpIfFalse,
            index == offset_of(old(self).spec_code()[old(self).spec_current()], k) + 1,
            target <= encode_all(old(self).spec_code()[old(self).spec_current()]).len(),
        ensures
            final(self).inv(),
            final(self).patches(old(self), k),
            final(self).spec_code().len() == old(self).spec_code().len(),
            forall|i: int| 0 <= i < old(self).spec_code().len() && i != old(self).spec_current()
                ==> #[trigger] final(self).spec_code()[i] == old(self).spec_code()[i],
            final(self).spec_code()[old(self).spec_current()].len() == old(self).spec_code()[old(self).spec_current()].len(),
            forall|j: int| 0 <= j < old(self).spec_code()[old(self).spec_current()].len() && j != k
                ==> #[trigger] final(self).spec_code()[old(self).spec_current()][j] == old(self).spec_code()[old(self).spec_current()][j],
            final(self).module.spec_constants() == old(self).module.spec_constants(),
            final(self).module.spec_identifiers() == old(self).module.spec_identifiers(),
            final(self).contexts == old(self).contexts,
    {
        let ci = self.contexts[self.contexts.len() - 1].chunk_index;
        let ghost ops = self.code@[ci as int];
        proof {
            lemma_encode_all_split(ops, k);
            crate::opcode::lemma_offset_bound(ops, k);
        }
        let rel: i128 = target as i128 - (index as i128 + 2);
        if rel < -32768 || rel > 32767 {
            self.add_error("Too much code to jump over.", span);
            proof {
                assert(self.errors@.subrange(0, old(self).errors@.len() as int) =~= old(self).errors@);
                assert(self.code@[ci as int] =~= old(self).code@[ci as int].update(k, self.code@[ci as int][k]));
            }
            return;
        }
        let r = rel as i16;
        let ghost new_op = match ops[k] {
            Opcode::Jump(_) => Opcode::Jump(r),
            _ => Opcode::JumpIfFalse(r),
        };
        {
            let chunk = self.module.chunk_mut(ci);
            chunk.set_i16(index, r);
        }
        proof {
            let bytes = encode_all(ops);
            let off = offset_of(ops, k);
            lemma_encode_all_update(ops, k, new_op);
            assert(bytes.subrange(off, off + 3) =~= encode(ops[k]));
            assert(self.module.spec_chunks()[ci as int]@ =~= encode_all(ops.update(k, new_op)));
            self.code@ = self.code@.update(ci as int, ops.update(k, new_op));
            assert(self.code@[ci as int] =~= old(self).code@[ci as int].update(k, self.code@[ci as int][k]));
            assert forall|i: int, j: int| 0 <= i < self.code@.len() && 0 <= j < self.code@[i].len()
                implies refers_into(#[trigger] self.code@[i][j], self.module) by {
                if i == ci && j == k {
                } else {
                    assert(self.code@[i][j] == old(self).code@[i][j]);
                }
            }
            assert(self.errors@.subrange(0, old(self).errors@.len() as int) =~= old(self).errors@);
        }
    }

    /// Points the jump whose operand is at `index` (instruction `k`) to the
    /// next instruction of the innermost chunk.
    fn patch_jump(&mut self, index: usize, span: Span, Ghost(k): Ghost<int>)
        requires
            old(self).inv(),
            old(self).spec_depth() > 0,
            0 <= k < old(self).spec_code()[old(self).spec_current()].len(),
            old(self).spec_code()[old(self).spec_current()][k] is Jump
                || old(self).spec_code()[old(self).spec_current()][k] is JumpIfFalse,
            index == offset_of(old(self).spec_code()[old(self).spec_current()], k) + 1,
        ensures
            final(self).inv(),
            final(self).patches(old(self), k),
            final(self).spec_code().len() == old(self).spec_code().len(),
            forall|i: int| 0 <= i < old(self).spec_code().len() && i != old(self).spec_current()
                ==> #[trigger] final(self).spec_code()[i] == old(self).spec_code()[i],
            final(self).spec_code()[old(self).spec_current()].len() == old(self).spec_code()[old(self).spec_current()].len(),
            forall|j: int| 0 <= j < old(self).spec_code()[old(self).spec_current()].len() && j != k
                ==> #[trigger] final(self).spec_code()[old(self).spec_current()][j] == old(self).spec_code()[old(self).spec_current()][j],
            final(self).module.spec_constants() == old(self).module.spec_constants(),
            final(self).module.spec_identifiers() == old(self).module.spec_identifiers(),
            final(self).contexts == old(self).contexts,
    {
        let target = self.instruction_index();
        self.patch_jump_to(index, target, span, Ghost(k));
    }

    /// Extending is transitive.
    proof fn lemma_extends_trans(&self, mid: &Compiler, base: &Compiler)
        requires
            mid.extends(base),
            self.extends(mid),
        ensures
            self.extends(base),
    {
        assert forall|i: int| 0 <= i < base.code@.len() implies (#[trigger] self.code@[i]).len() >= base.code@[i].len()
            && self.code@[i].subrange(0, base.code@[i].len() as int) == base.code@[i] by {
            assert(mid.code@[i].subrange(0, base.code@[i].len() as int) == base.code@[i]);
            assert(self.code@[i].subrange(0, mid.code@[i].len() as int) == mid.code@[i]);
            assert(self.code@[i].subrange(0, base.code@[i].len() as int) =~= mid.code@[i].subrange(0, base.code@[i].len() as int));
        }
        assert(self.errors@.subrange(0, base.errors@.len() as int) =~= base.errors@) by {
            assert(mid.errors@.subrange(0, base.errors@.len() as int) == base.errors@);
            assert(self.errors@.subrange(0, mid.errors@.len() as int) == mid.errors@);
        }
    }

    /// Nothing changed: `self` extends itself.
    proof fn lemma_extends_refl(&self)
        ensures
            self.extends(self),
            self.continues(self),
    {
        assert forall|i: int| 0 <= i < self.code@.len() implies (#[trigger] self.code@[i]).len() >= self.code@[i].len()
            && self.code@[i].subrange(0, self.code@[i].len() as int) == self.code@[i] by {
            assert(self.code@[i].subrange(0, self.code@[i].len() as int) =~= self.code@[i]);
        }
        assert(self.errors@.subrange(0, self.errors@.len() as int) =~= self.errors@);
    }

    /// Opens a context of the given kind on a new chunk, with its first slot
    /// reserved (for the receiver in a method or initializer), and returns
    /// the chunk's index.
    fn begin_context(&mut self, context_type: ContextType) -> (res: usize)
        requires
            old(self).inv(),
        ensures
            final(self).inv(),
            final(self).extends(old(self)),
            final(self).contexts@.len() == old(self).contexts@.len() + 1,
            forall|j: int| 0 <= j < old(self).contexts@.len() ==> #[trigger] final(self).contexts@[j] == old(self).contexts@[j],
            final(self).contexts@.last().chunk_index == res,
            final(self).contexts@.last().context_type == context_type,
            final(self).contexts@.last().scope_depth == 0,
            final(self).contexts@.last().locals@.len() == 1,
            final(self).contexts@.last().locals@[0].depth is Some,
            res == old(self).code@.len(),
            final(self).code@ == old(self).code@.push(Seq::empty()),
            final(self).module.spec_constants() == old(self).module.spec_constants(),
            final(self).module.spec_identifiers() == old(self).module.spec_identifiers(),
            final(self).module.spec_closures() == old(self).module.spec_closures(),
            final(self).module.spec_classes() == old(self).module.spec_classes(),
            final(self).spec_errors() == old(self).spec_errors(),
    {
        let chunk_index = self.module.add_chunk();
        let name = if context_type == ContextType::Method || context_type == ContextType::Initializer {
            "this".to_string()
        } else {
            String::new()
        };
        let mut locals: Vec<Local> = Vec::new();
        locals.push(Local { name, depth: Some(0), captured: false });
        self.contexts.push(CompilerContext {
            context_type,
            chunk_index,
            scope_depth: 0,
            locals,
            upvalues: Vec::new(),
        });
        proof {
            self.code@ = self.code@.push(Seq::empty());
            assert(encode_all(Seq::<Opcode>::empty()) =~= Seq::<u8>::empty());
            assert forall|i: int| 0 <= i < self.code@.len() implies (#[trigger] self.module.spec_chunks()[i])@ == encode_all(self.code@[i]) by {
                if i < old(self).code@.len() {
                    assert(self.module.spec_chunks()[i] == old(self).module.spec_chunks()[i]);
                }
            }
            assert forall|i: int, k: int| 0 <= i < self.code@.len() && 0 <= k < self.code@[i].len()
                implies refers_into(#[trigger] self.code@[i][k], self.module) by {
                assert(self.code@[i][k] == old(self).code@[i][k]);
            }
            assert forall|i: int| 0 <= i < old(self).code@.len() implies (#[trigger] self.code@[i]).len() >= old(self).code@[i].len()
                && self.code@[i].subrange(0, old(self).code@[i].len() as int) == old(self).code@[i] by {
                assert(self.code@[i].subrange(0, old(self).code@[i].len() as int) =~= old(self).code@[i]);
            }
            assert(self.errors@.subrange(0, old(self).errors@.len() as int) =~= old(self).errors@);
        }
        chunk_index
    }

    /// Closes the innermost context and returns the variables it captured.
    fn end_context(&mut self) -> (res: Vec<Upvalue>)
        requires
            old(self).inv(),
            old(self).spec_depth() > 0,
        ensures
            final(self).inv(),
            final(self).extends(old(self)),
            final(self).contexts@ == old(self).contexts@.drop_last(),
            final(self).code@ == old(self).code@,
            final(self).module == old(self).module,
            final(self).errors == old(self).errors,
            res@ == old(self).contexts@.last().upvalues@,
    {
        let context = self.contexts.pop().unwrap();
        proof { self.lemma_extends_refl(); }
        context.upvalues
    }

    /// Enters a block; returns the block depth to come back to.
    fn begin_scope(&mut self) -> (res: usize)
        requires
            old(self).inv(),
            old(self).spec_depth() > 0,
        ensures
            final(self).inv(),
            final(self).extends(old(self)),
            res == old(self).contexts@.last().scope_depth,
            final(self).contexts@.len() == old(self).contexts@.len(),
            forall|j: int| 0 <= j < old(self).contexts@.len() - 1 ==> #[trigger] final(self).contexts@[j] == old(self).contexts@[j],
            final(self).contexts@.last().chunk_index == old(self).contexts@.last().chunk_index,
            final(self).contexts@.last().context_type == old(self).contexts@.last().context_type,
            final(self).contexts@.last().locals == old(self).contexts@.last().locals,
            final(self).code@ == old(self).code@,
            final(self).module == old(self).module,
            final(self).errors == old(self).errors,
    {
        let last = self.contexts.len() - 1;
        let depth = self.contexts[last].scope_depth;
        if depth < usize::MAX {
            self.contexts[last].scope_depth = depth + 1;
        }
        proof { self.lemma_extends_refl(); }
        depth
    }

    /// Leaves a block, back to block depth `saved`: each local declared in it
    /// is dropped from the stack, last first, closed over where a closure
    /// captured it.
    fn end_scope(&mut self, saved: usize)
        requires
            old(self).inv(),
            old(self).spec_depth() > 0,
        ensures
            final(self).inv(),
            final(self).extends(old(self)),
            final(self).contexts@.len() == old(self).contexts@.len(),
            forall|j: int| 0 <= j < old(self).contexts@.len() - 1 ==> #[trigger] final(self).contexts@[j] == old(self).contexts@[j],
            final(self).contexts@.last().chunk_index == old(self).contexts@.last().chunk_index,
            final(self).contexts@.last().context_type == old(self).contexts@.last().context_type,
            final(self).contexts@.last().scope_depth == saved,
            final(self).module.spec_constants() == old(self).module.spec_constants(),
            final(self).module.spec_identifiers() == old(self).module.spec_identifiers(),
            final(self).spec_errors() == old(self).spec_errors(),
    {
        let last = self.contexts.len() - 1;
        self.contexts[last].scope_depth = saved;
        proof { self.lemma_extends_refl(); }
        let ghost start = *self;
        while self.contexts[last].locals.len() > 1
            invariant
                self.inv(),
                self.extends(&start),
                start.inv(),
                start.extends(old(self)),
                last == self.contexts@.len() - 1,
                self.contexts@.len() == old(self).contexts@.len(),
                forall|j: int| 0 <= j < old(self).contexts@.len() - 1 ==> #[trigger] self.contexts@[j] == old(self).contexts@[j],
                self.contexts@.last().chunk_index == old(self).contexts@.last().chunk_index,
                self.contexts@.last().context_type == old(self).contexts@.last().context_type,
                self.contexts@.last().scope_depth == saved,
                self.module.spec_constants() == old(self).module.spec_constants(),
                self.module.spec_identifiers() == old(self).module.spec_identifiers(),
                self.spec_errors() == old(self).spec_errors(),
            decreases self.contexts@[last as int].locals@.len(),
        {
            let n = self.contexts[last].locals.len();
            let top_depth = self.contexts[last].locals[n - 1].depth;
            let deeper = match top_depth {
                Some(d) => d > saved,
                None => true,
            };
            if !deeper {
                break;
            }
            let captured = self.contexts[last].locals[n - 1].captured;
            let ghost before = *self;
            if captured {
                self.emit(Opcode::CloseUpvalue);
            } else {
                self.emit(Opcode::Pop);
            }
            proof { self.lemma_extends_trans(&before, &start); }
            let ghost before_pop = *self;
            self.contexts[last].locals.pop();
            proof {
                assert(self.code@ == before_pop.code@);
                assert(self.module == before_pop.module);
                assert(self.errors == before_pop.errors);
                before_pop.lemma_extends_refl();
                assert(self.extends(&before_pop));
                self.lemma_extends_trans(&before_pop, &start);
            }
        }
        proof { self.lemma_extends_trans(&start, old(self)); }
    }

    /// Only the locals and captured variables of the open contexts changed.
    pub closed spec fn only_locals_changed(&self, old: &Compiler) -> bool {
        &&& self.same_frames(old)
        &&& self.code@ == old.code@
        &&& self.module == old.module
        &&& self.errors == old.errors
        &&& forall|j: int| 0 <= j < old.contexts@.len() ==> (#[trigger] self.contexts@[j]).locals@.len() >= 1
    }

    proof fn lemma_only_locals(&self, old: &Compiler)
        requires
            old.inv(),
            self.only_locals_changed(old),
        ensures
            self.inv(),
            self.continues(old),
    {
        old.lemma_extends_refl();
        assert(self.extends(old));
    }

    /// Declares a local of the innermost context, not yet initialized.
    fn add_local(&mut self, name: &String)
        requires
            old(self).inv(),
            old(self).spec_depth() > 0,
        ensures
            final(self).inv(),
            final(self).continues(old(self)),
            final(self).only_locals_changed(old(self)),
    {
        let last = self.contexts.len() - 1;
        self.contexts[last].locals.push(Local { name: name.clone(), depth: None, captured: false });
        proof { self.lemma_only_locals(old(self)); }
    }

    /// The last local declared in the innermost context becomes usable at
    /// the current block depth.
    fn mark_local_initialized(&mut self)
        requires
            old(self).inv(),
            old(self).spec_depth() > 0,
        ensures
            final(self).inv(),
            final(self).continues(old(self)),
            final(self).only_locals_changed(old(self)),
    {
        let last = self.contexts.len() - 1;
        let n = self.contexts[last].locals.len();
        let depth = self.contexts[last].scope_depth;
        self.contexts[last].locals[n - 1].depth = Some(depth);
        proof { self.lemma_only_locals(old(self)); }
    }

    /// Local `j` of `locals` belongs to a block enclosing the one at
    /// `depth`.
    pub closed spec fn outer_local(locals: Seq<Local>, j: int, depth: usize) -> bool {
        locals[j].depth matches Some(d) && d < depth
    }

    /// A local named `name` is declared in the innermost block of the
    /// innermost context: some local of that name comes after every local
    /// of an enclosing block.
    fn has_local_in_current_scope(&self, name: &String) -> (res: bool)
        requires
            self.inv(),
            self.spec_depth() > 0,
        ensures
            ({
                let ctx = self.contexts@.last();
                let locals = ctx.locals@;
                res == exists|i: int| 0 <= i < locals.len() && (#[trigger] locals[i]).name@ == name@
                    && forall|j: int| i <= j < locals.len() ==> !Self::outer_local(locals, j, ctx.scope_depth)
            }),
    {
        let last = self.contexts.len() - 1;
        let depth = self.contexts[last].scope_depth;
        let mut i = self.contexts[last].locals.len();
        let ghost locals = self.contexts@[last as int].locals@;
        while i > 0
            invariant
                i <= self.contexts@[last as int].locals@.len(),
                last == self.contexts@.len() - 1,
                locals == self.contexts@[last as int].locals@,
                depth == self.contexts@[last as int].scope_depth,
                forall|j: int| i <= j < locals.len() ==> !Self::outer_local(locals, j, depth)
                    && (#[trigger] locals[j]).name@ != name@,
            decreases i,
        {
            i = i - 1;
            let local = &self.contexts[last].locals[i];
            if let Some(d) = local.depth {
                if d < depth {
                    proof {
                        assert(Self::outer_local(locals, i as int, depth));
                    }
                    return false;
                }
            }
            if local.name == *name {
                proof {
                    assert(locals[i as int].name@ == name@);
                }
                return true;
            }
        }
        false
    }

    /// The slot of the innermost local of context `ctx` named `name`, and
    /// whether it is initialized.
    fn resolve_local(&self, ctx: usize, name: &String) -> (res: Option<(usize, bool)>)
        requires
            ctx < self.contexts@.len(),
        ensures
            ({
                let locals = self.contexts@[ctx as int].locals@;
                &&& res is None <==> forall|j: int| 0 <= j < locals.len() ==> (#[trigger] locals[j]).name@ != name@
                &&& res matches Some((slot, initialized)) ==> {
                    &&& slot < locals.len()
                    &&& locals[slot as int].name@ == name@
                    &&& initialized == locals[slot as int].depth is Some
                    &&& forall|j: int| slot < j < locals.len() ==> (#[trigger] locals[j]).name@ != name@
                }
            }),
    {
        let mut i = self.contexts[ctx].locals.len();
        let ghost locals = self.contexts@[ctx as int].locals@;
        while i > 0
            invariant
                i <= self.contexts@[ctx as int].locals@.len(),
                ctx < self.contexts@.len(),
                locals == self.contexts@[ctx as int].locals@,
                forall|j: int| i <= j < locals.len() ==> (#[trigger] locals[j]).name@ != name@,
            decreases i,
        {
            i = i - 1;
            let local = &self.contexts[ctx].locals[i];
            if local.name == *name {
                proof {
                    assert(locals[i as int].name@ == name@);
                }
                return Some((i, local.depth.is_some()));
            }
        }
        None
    }

    /// The index of captured variable `upvalue` of context `ctx`, adding it
    /// if it is not captured yet.
    fn add_upvalue(&mut self, ctx: usize, upvalue: Upvalue) -> (res: usize)
        requires
            old(self).inv(),
            ctx < old(self).contexts@.len(),
        ensures
            final(self).inv(),
            final(self).continues(old(self)),
            final(self).only_locals_changed(old(self)),
            res < final(self).contexts@[ctx as int].upvalues@.len(),
    {
        let n = self.contexts[ctx].upvalues.len();
        let mut i: usize = 0;
        while i < n
            invariant
                n == self.contexts@[ctx as int].upvalues@.len(),
                ctx < self.contexts@.len(),
                i <= n,
                *self == *old(self),
                self.inv(),
            decreases n - i,
        {
            if self.contexts[ctx].upvalues[i] == upvalue {
                proof { self.lemma_only_locals(old(self)); }
                return i;
            }
            i = i + 1;
        }
        self.contexts[ctx].upvalues.push(upvalue);
        proof { self.lemma_only_locals(old(self)); }
        n
    }

    /// The captured variable of context `ctx` that `name` resolves to,
    /// capturing it through the enclosing contexts as needed.
    fn resolve_upvalue(&mut self, ctx: usize, name: &String) -> (res: Option<usize>)
        requires
            old(self).inv(),
            ctx < old(self).contexts@.len(),
        ensures
            final(self).inv(),
            final(self).continues(old(self)),
            final(self).only_locals_changed(old(self)),
            ctx == 0 ==> *final(self) == *old(self) && res is None,
        decreases ctx,
    {
        if ctx == 0 {
            proof { self.lemma_only_locals(old(self)); }
            return None;
        }
        match self.resolve_local(ctx - 1, name) {
            Some((slot, _)) => {
                self.contexts[ctx - 1].locals[slot].captured = true;
                proof { self.lemma_only_locals(old(self)); }
                let ghost mid = *self;
                let res = self.add_upvalue(ctx, Upvalue::Local(slot));
                proof {
                    assert(self.only_locals_changed(old(self)));
                    self.lemma_only_locals(old(self));
                }
                Some(res)
            },
            None => {
                match self.resolve_upvalue(ctx - 1, name) {
                    Some(up) => {
                        let res = self.add_upvalue(ctx, Upvalue::Upvalue(up));
                        proof {
                            assert(self.only_locals_changed(old(self)));
                            self.lemma_only_locals(old(self));
                        }
                        Some(res)
                    },
                    None => None,
                }
            },
        }
    }

    /// Recording an error keeps the compiler sound and continuing.
    proof fn lemma_add_error_continues(&self, old: &Compiler)
        requires
            old.inv(),
            self.errors@.len() == old.errors@.len() + 1,
            self.errors@.subrange(0, old.errors@.len() as int) == old.errors@,
            self.module == old.module,
            self.code@ == old.code@,
            self.contexts == old.contexts,
        ensures
            self.inv(),
            self.continues(old),
    {
        old.lemma_extends_refl();
    }

    /// A jump emitted before `old` keeps its place, its kind and its offset
    /// in any state that extends `old`.
    proof fn lemma_jump_kept(&self, old: &Compiler, ci: int, k: int)
        requires
            self.extends(old),
            0 <= ci < old.code@.len(),
            0 <= k < old.code@[ci].len(),
        ensures
            self.code@[ci][k] == old.code@[ci][k],
            k < self.code@[ci].len(),
            offset_of(self.code@[ci], k) == offset_of(old.code@[ci], k),
            encode_all(old.code@[ci]).len() <= encode_all(self.code@[ci]).len(),
    {
        let a = old.code@[ci];
        let b = self.code@[ci];
        assert(b.subrange(0, a.len() as int) == a);
        assert(b[k] == b.subrange(0, a.len() as int)[k]);
        assert(b.take(k) =~= a.take(k));
        assert(b =~= a + b.skip(a.len() as int));
        crate::opcode::lemma_encode_all_concat(a, b.skip(a.len() as int));
    }

    /// The encoding of a chunk only grows in a state that extends `old`.
    proof fn lemma_jump_len(&self, old: &Compiler, ci: int)
        requires
            self.extends(old),
            0 <= ci < old.code@.len(),
        ensures
            encode_all(old.code@[ci]).len() <= encode_all(self.code@[ci]).len(),
    {
        let a = old.code@[ci];
        let b = self.code@[ci];
        assert(b.subrange(0, a.len() as int) == a);
        assert(b =~= a + b.skip(a.len() as int));
        crate::opcode::lemma_encode_all_concat(a, b.skip(a.len() as int));
    }

    /// A jump keeps its offset when another jump is patched.
    proof fn lemma_jump_kept_patch(&self, old: &Compiler, j: int, k: int)
        requires
            self.patches(old, j),
            old.spec_depth() > 0,
            0 <= old.spec_current() < old.code@.len(),
            0 <= j < old.code@[old.spec_current()].len(),
            0 <= k < old.code@[old.spec_current()].len(),
            j != k,
            old.code@[old.spec_current()][j] is Jump || old.code@[old.spec_current()][j] is JumpIfFalse,
        ensures
            self.code@[old.spec_current()][k] == old.code@[old.spec_current()][k],
            offset_of(self.code@[old.spec_current()], k) == offset_of(old.code@[old.spec_current()], k),
            encode_all(self.code@[old.spec_current()]).len() == encode_all(old.code@[old.spec_current()]).len(),
    {
        let ci = old.spec_current();
        let a = old.code@[ci];
        let b = self.code@[ci];
        let op = b[j];
        assert(encode(op).len() == encode(a[j]).len());
        lemma_encode_all_update(a, j, op);
        if k <= j {
            assert(b.take(k) =~= a.take(k));
        } else {
            assert(b.take(k) =~= a.take(k).update(j, op));
            lemma_encode_all_update(a.take(k), j, op);
        }
    }
}

/// Compiles the statements of `ast` in order into the innermost context.
pub fn compile_ast(compiler: &mut Compiler, ast: &Vec<WithSpan<Stmt>>)
    requires
        old(compiler).inv(),
        old(compiler).spec_depth() > 0,
    ensures
        final(compiler).inv(),
        final(compiler).continues(old(compiler)),
        old(compiler).settled_top() && plain_program(ast@) ==> final(compiler).clean_since(old(compiler)) && final(compiler).settled_top()
            && plain_stmts_code(ast@, final(compiler).emitted(old(compiler))),
        final(compiler).spec_module().spec_constants() == old(compiler).spec_module().spec_constants() + stmts_constants(ast@, old(compiler).spec_context_type()),
    decreases ast@, 3int,
{
    proof {
        compiler.lemma_extends_refl();
        compiler.lemma_emitted_none(old(compiler));
        assert(ast@.take(0) =~= Seq::<WithSpan<Stmt>>::empty());
    }
    let mut i: usize = 0;
    while i < ast.len()
        invariant
            compiler.inv(),
            compiler.continues(old(compiler)),
            old(compiler).inv(),
            old(compiler).spec_depth() > 0,
            i <= ast@.len(),
            compiler.spec_module().spec_constants() == old(compiler).spec_module().spec_constants()
                + stmts_constants(ast@.take(i as int), old(compiler).spec_context_type()),
            old(compiler).settled_top() && plain_program(ast@) ==> compiler.clean_since(old(compiler)) && compiler.settled_top()
                && plain_stmts_code(ast@.take(i as int), compiler.emitted(old(compiler))),
        decreases ast@.len() - i,
    {
        let ghost before = *compiler;
        proof {
            before.lemma_same_context(old(compiler));
        }
        compile_stmt(compiler, &ast[i]);
        proof {
            compiler.lemma_continues_trans(&before, old(compiler));
            compiler.lemma_emitted_concat(&before, old(compiler));
            if old(compiler).settled_top() && plain_program(ast@) {
                assert(ast@[i as int] == ast@[i as int]);
                let ops = compiler.emitted(old(compiler));
                let k = before.emitted(old(compiler)).len() as int;
                assert(ops.take(k) =~= before.emitted(old(compiler)));
                assert(ops.skip(k) =~= compiler.emitted(&before));
                let ss = ast@.take(i + 1);
                assert(ss.drop_last() =~= ast@.take(i as int));
                assert(plain_stmts_code(ss.drop_last(), ops.take(k)) && plain_stmt_code(ss.last(), ops.skip(k)));
            }
            assert(ast@.take(i + 1).drop_last() =~= ast@.take(i as int));
            assert(ast@.take(i + 1).last() == ast@[i as int]);
        }
        i = i + 1;
    }
    proof { assert(ast@.take(ast@.len() as int) =~= ast@); }
}

/// Compiles one statement.
fn compile_stmt(compiler: &mut Compiler, stmt: &WithSpan<Stmt>)
    requires
        old(compiler).inv(),
        old(compiler).spec_depth() > 0,
    ensures
        final(compiler).inv(),
        final(compiler).continues(old(compiler)),
        old(compiler).settled_top() && match stmt.value {
            Stmt::Print(e) => plain_expr(*e),
            Stmt::Expression(e) => plain_expr(*e),
            Stmt::Var(_, init) => match init {
                Some(e) => plain_expr(*e),
                None => true,
            },
            _ => false,
        } ==> final(compiler).clean_since(old(compiler)) && final(compiler).settled_top()
            && plain_stmt_code(*stmt, final(compiler).emitted(old(compiler))),
        final(compiler).spec_module().spec_constants() == old(compiler).spec_module().spec_constants() + stmt_constants(*stmt, old(compiler).spec_context_type()),
        stmt.value matches Stmt::Class(identifier, _, _) ==> declares_class(*old(compiler), *final(compiler), identifier.value),
    decreases *stmt, 2int,
{
    match &stmt.value {
        Stmt::Print(expr) => compile_print(compiler, expr),
        Stmt::Var(identifier, expr) => compile_var_declaration(compiler, identifier, expr),
        Stmt::Block(stmts) => compile_block(compiler, stmts),
        Stmt::Expression(expr) => compile_expression_statement(compiler, expr),
        Stmt::If(_, _, _) => compile_if(compiler, stmt),
        Stmt::While(condition, body) => compile_while(compiler, condition, body),
        Stmt::Function(identifier, args, stmts) => compile_function(compiler, identifier, args, stmts),
        Stmt::Return(expr) => {
            let context_type = compiler.context_type();
            if context_type == ContextType::Initializer && expr.is_some() {
                compiler.add_error("Invalid return", stmt.span);
                proof {
                    assert(compiler.errors@.subrange(0, old(compiler).errors@.len() as int) =~= old(compiler).errors@);
                    compiler.lemma_add_error_continues(old(compiler));
                }
                return;
            }
            if context_type == ContextType::TopLevel && expr.is_some() {
                compiler.add_error("Invalid return", stmt.span);
                proof {
                    assert(compiler.errors@.subrange(0, old(compiler).errors@.len() as int) =~= old(compiler).errors@);
                    compiler.lemma_add_error_continues(old(compiler));
                }
                return;
            }
            compile_return(compiler, expr);
        },
        Stmt::Class(identifier, _extends, stmts) => compile_class(compiler, identifier, stmts),
        Stmt::Import(path, identifiers) => compile_import(compiler, path, identifiers),
        Stmt::Error => {
            proof { compiler.lemma_extends_refl(); }
        },
    }
}


/// Declares `identifier` as a local when inside a block; an error if the
/// block already declares it.
fn declare_variable(compiler: &mut Compiler, identifier: &WithSpan<Identifier>)
    requires
        old(compiler).inv(),
        old(compiler).spec_depth() > 0,
    ensures
        final(compiler).inv(),
        final(compiler).continues(old(compiler)),
        !old(compiler).spec_scoped() ==> final(compiler).clean_since(old(compiler)),
        old(compiler).settled_top() ==> final(compiler).settled_top(),
        final(compiler).emitted(old(compiler)) == Seq::<Opcode>::empty(),
        final(compiler).spec_module() == old(compiler).spec_module(),
        final(compiler).spec_module().spec_constants() == old(compiler).spec_module().spec_constants(),
{
    if compiler.is_scoped() {
        if compiler.has_local_in_current_scope(&identifier.value) {
            compiler.add_error("Local already defined", identifier.span);
            proof {
                assert(compiler.errors@.subrange(0, old(compiler).errors@.len() as int) =~= old(compiler).errors@);
                compiler.lemma_add_error_continues(old(compiler));
                compiler.lemma_emitted_none(old(compiler));
            }
            return;
        }
        compiler.add_local(&identifier.value);
        proof { compiler.lemma_emitted_none(old(compiler)); }
    } else {
        proof {
            compiler.lemma_extends_refl();
            compiler.lemma_emitted_none(old(compiler));
        }
    }
}

/// Makes the variable just declared usable: a local becomes initialized,
/// a global is defined from the value on the stack.
fn define_variable(compiler: &mut Compiler, identifier: &String)
    requires
        old(compiler).inv(),
        old(compiler).spec_depth() > 0,
    ensures
        final(compiler).inv(),
        final(compiler).continues(old(compiler)),
        !old(compiler).spec_scoped() ==> final(compiler).clean_since(old(compiler)),
        old(compiler).settled_top() ==> final(compiler).settled_top(),
        !old(compiler).spec_scoped() ==> final(compiler).emitted(old(compiler)).len() == 1
            && final(compiler).emitted(old(compiler))[0] is DefineGlobal,
        final(compiler).spec_module().spec_constants() == old(compiler).spec_module().spec_constants(),
{
    if compiler.is_scoped() {
        compiler.mark_local_initialized();
    } else {
        let constant = compiler.add_identifier(identifier);
        let ghost mid = *compiler;
        compiler.emit(Opcode::DefineGlobal(index_u32(constant)));
        proof {
            compiler.lemma_continues_trans(&mid, old(compiler));
            compiler.lemma_emitted_concat(&mid, old(compiler));
            mid.lemma_emitted_none(old(compiler));
        }
    }
}

/// Compiles `expr` and emits `op` after it.
fn compile_expr_then(compiler: &mut Compiler, expr: &WithSpan<Expr>, op: Opcode)
    requires
        old(compiler).inv(),
        old(compiler).spec_depth() > 0,
        refers_within(op, 0, 0, 0, 0),
    ensures
        final(compiler).inv(),
        final(compiler).continues(old(compiler)),
        old(compiler).settled_top() && plain_expr(*expr) ==> final(compiler).clean_since(old(compiler)) && final(compiler).settled_top(),
        final(compiler).spec_module().spec_constants() == old(compiler).spec_module().spec_constants() + expr_constants(*expr),
        final(compiler).emitted(old(compiler)).len() >= 1,
        final(compiler).emitted(old(compiler)).last() == op,
        final(compiler).clean_since(old(compiler)) ==> expr_code(*expr, final(compiler).emitted(old(compiler)).drop_last()),
    decreases *expr, 2int,
{
    compile_expr(compiler, expr);
    let ghost mid = *compiler;
    compiler.emit(op);
    proof {
        compiler.lemma_continues_trans(&mid, old(compiler));
        compiler.lemma_emitted_concat(&mid, old(compiler));
        assert(compiler.emitted(old(compiler)).drop_last() =~= mid.emitted(old(compiler)));
    }
}

fn compile_print(compiler: &mut Compiler, expr: &WithSpan<Expr>)
    requires
        old(compiler).inv(),
        old(compiler).spec_depth() > 0,
    ensures
        final(compiler).inv(),
        final(compiler).continues(old(compiler)),
        old(compiler).settled_top() && plain_expr(*expr) ==> final(compiler).clean_since(old(compiler)) && final(compiler).settled_top(),
        final(compiler).spec_module().spec_constants() == old(compiler).spec_module().spec_constants() + expr_constants(*expr),
        final(compiler).emitted(old(compiler)).len() >= 1,
        final(compiler).emitted(old(compiler)).last() == Opcode::Print,
        final(compiler).clean_since(old(compiler)) ==> expr_code(*expr, final(compiler).emitted(old(compiler)).drop_last()),
{
    compile_expr_then(compiler, expr, Opcode::Print);
}

fn compile_expression_statement(compiler: &mut Compiler, expr: &WithSpan<Expr>)
    requires
        old(compiler).inv(),
        old(compiler).spec_depth() > 0,
    ensures
        final(compiler).inv(),
        final(compiler).continues(old(compiler)),
        old(compiler).settled_top() && plain_expr(*expr) ==> final(compiler).clean_since(old(compiler)) && final(compiler).settled_top(),
        final(compiler).spec_module().spec_constants() == old(compiler).spec_module().spec_constants() + expr_constants(*expr),
        final(compiler).emitted(old(compiler)).len() >= 1,
        final(compiler).emitted(old(compiler)).last() == Opcode::Pop,
        final(compiler).clean_since(old(compiler)) ==> expr_code(*expr, final(compiler).emitted(old(compiler)).drop_last()),
{
    compile_expr_then(compiler, expr, Opcode::Pop);
}

fn compile_var_declaration(compiler: &mut Compiler, identifier: &WithSpan<Identifier>, expr: &Option<Box<WithSpan<Expr>>>)
    requires
        old(compiler).inv(),
        old(compiler).spec_depth() > 0,
    ensures
        final(compiler).inv(),
        final(compiler).continues(old(compiler)),
        old(compiler).settled_top() && match expr {
            Some(e) => plain_expr(**e),
            None => true,
        } ==> final(compiler).clean_since(old(compiler)) && final(compiler).settled_top(),
        final(compiler).spec_module().spec_constants() == old(compiler).spec_module().spec_constants() + match expr {
            Some(e) => expr_constants(**e),
            None => Seq::empty(),
        },
    old(compiler).settled_top() && final(compiler).clean_since(old(compiler)) ==> ({
            let ops = final(compiler).emitted(old(compiler));
            &&& ops.len() >= 1
            &&& ops.last() is DefineGlobal
            &&& match expr {
                Some(e) => expr_code(**e, ops.drop_last()),
                None => ops.drop_last() == seq![Opcode::Nil],
            }
        }),
{
    declare_variable(compiler, identifier);
    let ghost a = *compiler;
    match expr {
        Some(expr) => compile_expr(compiler, expr),
        None => compile_nil(compiler),
    }
    proof { compiler.lemma_continues_trans(&a, old(compiler)); }
    let ghost b = *compiler;
    define_variable(compiler, &identifier.value);
    proof {
        compiler.lemma_continues_trans(&b, old(compiler));
        if old(compiler).settled_top() && compiler.clean_since(old(compiler)) {
            b.lemma_emitted_concat(&a, old(compiler));
            compiler.lemma_emitted_concat(&b, old(compiler));
            b.lemma_same_context(old(compiler));
            assert(compiler.emitted(old(compiler)).drop_last() =~= b.emitted(old(compiler)));
            assert(b.emitted(old(compiler)) =~= b.emitted(&a));
        }
    }
}

/// Compiles a block: its statements in a new scope, whose locals are
/// dropped at its end.
fn compile_block(compiler: &mut Compiler, ast: &Vec<WithSpan<Stmt>>)
    requires
        old(compiler).inv(),
        old(compiler).spec_depth() > 0,
    ensures
        final(compiler).inv(),
        final(compiler).continues(old(compiler)),
        final(compiler).spec_module().spec_constants() == old(compiler).spec_module().spec_constants() + stmts_constants(ast@, old(compiler).spec_context_type()),
    decreases ast@, 4int,
{
    let saved = compiler.begin_scope();
    let ghost a = *compiler;
    compile_ast(compiler, ast);
    let ghost b = *compiler;
    compiler.end_scope(saved);
    proof {
        b.lemma_extends_trans(&a, old(compiler));
        compiler.lemma_extends_trans(&b, old(compiler));
        assert forall|j: int| 0 <= j < old(compiler).contexts@.len() implies {
            &&& (#[trigger] compiler.contexts@[j]).chunk_index == old(compiler).contexts@[j].chunk_index
            &&& compiler.contexts@[j].context_type == old(compiler).contexts@[j].context_type
            &&& compiler.contexts@[j].scope_depth == old(compiler).contexts@[j].scope_depth
        } by {
            if j < old(compiler).contexts@.len() - 1 {
                assert(compiler.contexts@[j] == b.contexts@[j]);
                assert(a.contexts@[j] == old(compiler).contexts@[j]);
            } else {
                assert(b.contexts@[j].chunk_index == a.contexts@[j].chunk_index);
                assert(b.contexts@[j].context_type == a.contexts@[j].context_type);
            }
        }
    }
}

fn compile_nil(compiler: &mut Compiler)
    requires
        old(compiler).inv(),
        old(compiler).spec_depth() > 0,
    ensures
        final(compiler).inv(),
        final(compiler).continues(old(compiler)),
        final(compiler).spec_module().spec_constants() == old(compiler).spec_module().spec_constants(),
        final(compiler).emitted(old(compiler)) == seq![Opcode::Nil],
        final(compiler).clean_since(old(compiler)),
        old(compiler).settled_top() ==> final(compiler).settled_top(),
{
    compiler.emit(Opcode::Nil);
}

/// Compiles a return: the value, or `this` from an initializer, or nil.
fn compile_return(compiler: &mut Compiler, expr: &Option<Box<WithSpan<Expr>>>)
    requires
        old(compiler).inv(),
        old(compiler).spec_depth() > 0,
    ensures
        final(compiler).inv(),
        final(compiler).continues(old(compiler)),
        expr is None ==> final(compiler).clean_since(old(compiler)),
        expr is None && old(compiler).spec_context_type() != ContextType::Initializer
            ==> final(compiler).emitted(old(compiler)) == seq![Opcode::Nil, Opcode::Return],
        final(compiler).spec_module().spec_constants() == old(compiler).spec_module().spec_constants() + match expr {
            Some(e) => expr_constants(**e),
            None => Seq::empty(),
        },
{
    match expr {
        Some(expr) => compile_expr(compiler, expr),
        None => {
            if compiler.context_type() == ContextType::Initializer {
                compiler.emit(Opcode::GetLocal(0));
            } else {
                compile_nil(compiler);
            }
        },
    }
    let ghost a = *compiler;
    compiler.emit(Opcode::Return);
    proof {
        compiler.lemma_continues_trans(&a, old(compiler));
        compiler.lemma_emitted_concat(&a, old(compiler));
    }
}


/// Compiles an `if` statement: the condition, a jump over the then-branch
/// when it is false, and the else-branch, if any, behind a jump.
fn compile_if(compiler: &mut Compiler, stmt: &WithSpan<Stmt>)
    requires
        old(compiler).inv(),
        old(compiler).spec_depth() > 0,
        stmt.value is If,
    ensures
        final(compiler).inv(),
        final(compiler).continues(old(compiler)),
        final(compiler).spec_module().spec_constants() == old(compiler).spec_module().spec_constants() + stmt_constants(*stmt, old(compiler).spec_context_type()),
    decreases *stmt, 1int,
{
    if let Stmt::If(condition, then_stmt, else_stmt) = &stmt.value {
        let ghost ci = old(compiler).spec_current();
        compile_expr(compiler, condition);
        let ghost s1 = *compiler;
        let ghost k1 = compiler.code@[ci].len() as int;
        let then_index = compiler.emit_jump(Opcode::JumpIfFalse(0));
        let ghost s2 = *compiler;
        compiler.emit(Opcode::Pop);
        let ghost s3 = *compiler;
        proof {
            s2.lemma_continues_trans(&s1, old(compiler));
            s3.lemma_continues_trans(&s2, old(compiler));
            s3.lemma_same_context(old(compiler));
        }
        compile_stmt(compiler, then_stmt);
        let ghost s4 = *compiler;
        proof {
            s2.lemma_continues_trans(&s1, old(compiler));
            s3.lemma_continues_trans(&s2, old(compiler));
            s4.lemma_continues_trans(&s3, old(compiler));
            s4.lemma_extends_trans(&s3, &s2);
            s4.lemma_jump_kept(&s2, ci, k1);
        }
        match else_stmt {
            Some(else_stmt) => {
                let ghost k2 = compiler.code@[ci].len() as int;
                let else_index = compiler.emit_jump(Opcode::Jump(0));
                let ghost s5 = *compiler;
                proof {
                    s5.lemma_continues_trans(&s4, old(compiler));
                    s5.lemma_jump_kept(&s4, ci, k1);
                }
                compiler.patch_jump(then_index, stmt.span, Ghost(k1));
                let ghost s6 = *compiler;
                proof {
                    s6.lemma_patch_continues(&s5, old(compiler), k1);
                    s6.lemma_jump_kept_patch(&s5, k1, k2);
                }
                compiler.emit(Opcode::Pop);
                let ghost s7 = *compiler;
                proof { s7.lemma_continues_trans(&s6, old(compiler)); s7.lemma_same_context(old(compiler)); }
                compile_stmt(compiler, else_stmt);
                let ghost s8 = *compiler;
                proof {
                    s7.lemma_continues_trans(&s6, old(compiler));
                    s8.lemma_continues_trans(&s7, old(compiler));
                    s8.lemma_extends_trans(&s7, &s6);
                    s8.lemma_jump_kept(&s6, ci, k2);
                }
                compiler.patch_jump(else_index, stmt.span, Ghost(k2));
                proof {
                    compiler.lemma_patch_continues(&s8, old(compiler), k2);
                    let cx = old(compiler).spec_context_type();
                    assert(stmt_constants(*stmt, cx) == expr_constants(**condition) + stmt_constants(**then_stmt, cx)
                        + stmt_constants(**else_stmt, cx));
                    assert(compiler.spec_module().spec_constants() =~= old(compiler).spec_module().spec_constants()
                        + stmt_constants(*stmt, cx));
                }
            },
            None => {
                compiler.patch_jump(then_index, stmt.span, Ghost(k1));
                proof {
                    compiler.lemma_patch_continues(&s4, old(compiler), k1);
                    let cx = old(compiler).spec_context_type();
                    assert(stmt_constants(*stmt, cx) == expr_constants(**condition) + stmt_constants(**then_stmt, cx)
                        + Seq::<Constant>::empty());
                    assert(compiler.spec_module().spec_constants() =~= old(compiler).spec_module().spec_constants()
                        + stmt_constants(*stmt, cx));
                }
            },
        }
    } else {
        proof { compiler.lemma_extends_refl(); }
    }
}

/// Compiles a `while` loop: the condition, a jump out when it is false, the
/// body, and a jump back to the condition.
fn compile_while(compiler: &mut Compiler, condition: &WithSpan<Expr>, body: &WithSpan<Stmt>)
    requires
        old(compiler).inv(),
        old(compiler).spec_depth() > 0,
    ensures
        final(compiler).inv(),
        final(compiler).continues(old(compiler)),
        final(compiler).spec_module().spec_constants() == old(compiler).spec_module().spec_constants() + expr_constants(*condition) + stmt_constants(*body, old(compiler).spec_context_type()),
    decreases *body, 3int,
{
    let ghost ci = old(compiler).spec_current();
    let loop_start = compiler.instruction_index();
    compile_expr(compiler, condition);
    let ghost s1 = *compiler;
    let ghost k1 = compiler.code@[ci].len() as int;
    let exit_index = compiler.emit_jump(Opcode::JumpIfFalse(0));
    let ghost s2 = *compiler;
    compiler.emit(Opcode::Pop);
    let ghost s3 = *compiler;
    compile_stmt(compiler, body);
    let ghost s4 = *compiler;
    let ghost k2 = compiler.code@[ci].len() as int;
    let loop_index = compiler.emit_jump(Opcode::Jump(0));
    let ghost s5 = *compiler;
    proof {
        s2.lemma_continues_trans(&s1, old(compiler));
        s3.lemma_continues_trans(&s2, old(compiler));
        s4.lemma_continues_trans(&s3, old(compiler));
        s5.lemma_continues_trans(&s4, old(compiler));
        s5.lemma_extends_trans(&s4, &s3);
        s5.lemma_extends_trans(&s3, &s2);
        s5.lemma_jump_kept(&s2, ci, k1);
        s5.lemma_extends_trans(&s2, old(compiler));
        assert(old(compiler).code@[ci].take(old(compiler).code@[ci].len() as int) =~= old(compiler).code@[ci]);
        s5.lemma_jump_len(old(compiler), ci);
    }
    compiler.patch_jump_to(loop_index, loop_start, body.span, Ghost(k2));
    let ghost s6 = *compiler;
    proof {
        s6.lemma_patch_continues(&s5, old(compiler), k2);
        s6.lemma_jump_kept_patch(&s5, k2, k1);
    }
    compiler.patch_jump(exit_index, body.span, Ghost(k1));
    let ghost s7 = *compiler;
    proof { s7.lemma_patch_continues(&s6, old(compiler), k1); }
    compiler.emit(Opcode::Pop);
    proof { compiler.lemma_continues_trans(&s7, old(compiler)); }
}


/// Compiles a function declaration: the variable, then its closure.
fn compile_function(compiler: &mut Compiler, identifier: &WithSpan<Identifier>, args: &Vec<WithSpan<Identifier>>,
    block: &Vec<WithSpan<Stmt>>)
    requires
        old(compiler).inv(),
        old(compiler).spec_depth() > 0,
    ensures
        final(compiler).inv(),
        final(compiler).continues(old(compiler)),
        final(compiler).spec_module().spec_constants() == old(compiler).spec_module().spec_constants() + stmts_constants(block@, ContextType::Function),
    decreases block@, 5int,
{
    declare_variable(compiler, identifier);
    let ghost a = *compiler;
    if compiler.is_scoped() {
        compiler.mark_local_initialized();
    } else {
        proof { compiler.lemma_extends_refl(); }
    }
    proof { compiler.lemma_continues_trans(&a, old(compiler)); }
    let ghost b = *compiler;
    compile_closure(compiler, &identifier.value, args, block, ContextType::Function);
    proof { compiler.lemma_continues_trans(&b, old(compiler)); }
    let ghost c = *compiler;
    define_variable(compiler, &identifier.value);
    proof { compiler.lemma_continues_trans(&c, old(compiler)); }
}

/// Compiles the body of a function into a chunk of its own, then emits the
/// closure over it.
fn compile_closure(compiler: &mut Compiler, name: &String, args: &Vec<WithSpan<Identifier>>,
    block: &Vec<WithSpan<Stmt>>, context_type: ContextType)
    requires
        old(compiler).inv(),
        old(compiler).spec_depth() > 0,
    ensures
        final(compiler).inv(),
        final(compiler).continues(old(compiler)),
        final(compiler).spec_module().spec_constants() == old(compiler).spec_module().spec_constants() + stmts_constants(block@, context_type),
    decreases block@, 4int,
{
    let chunk_index = compiler.begin_context(context_type);
    let ghost s1 = *compiler;
    let _ = compiler.begin_scope();
    let ghost s2 = *compiler;
    proof { s2.lemma_extends_refl(); }
    assert(s2.spec_context_type() == context_type);
    let mut i: usize = 0;
    while i < args.len()
        invariant
            compiler.inv(),
            compiler.continues(&s2),
            s2.spec_depth() > 0,
            i <= args@.len(),
            s2.spec_context_type() == context_type,
            compiler.spec_module().spec_constants() == s2.spec_module().spec_constants(),
        decreases args@.len() - i,
    {
        let ghost before = *compiler;
        declare_variable(compiler, &args[i]);
        proof { compiler.lemma_continues_trans(&before, &s2); }
        let ghost mid = *compiler;
        define_variable(compiler, &args[i].value);
        proof { compiler.lemma_continues_trans(&mid, &s2); }
        i = i + 1;
    }
    let ghost s3 = *compiler;
    proof { s3.lemma_same_context(&s2); }
    compile_ast(compiler, block);
    proof { compiler.lemma_continues_trans(&s3, &s2); }
    let ghost s4 = *compiler;
    let no_value: Option<Box<WithSpan<Expr>>> = None;
    compile_return(compiler, &no_value);
    proof { compiler.lemma_continues_trans(&s4, &s2); }
    let ghost s5 = *compiler;
    let upvalues = compiler.end_context();
    let ghost s6 = *compiler;
    proof {
        s2.lemma_extends_trans(&s1, old(compiler));
        s5.lemma_extends_trans(&s2, old(compiler));
        s6.lemma_extends_trans(&s5, old(compiler));
        assert forall|j: int| 0 <= j < old(compiler).contexts@.len() implies {
            &&& (#[trigger] s6.contexts@[j]).chunk_index == old(compiler).contexts@[j].chunk_index
            &&& s6.contexts@[j].context_type == old(compiler).contexts@[j].context_type
            &&& s6.contexts@[j].scope_depth == old(compiler).contexts@[j].scope_depth
        } by {
            assert(s6.contexts@[j] == s5.contexts@[j]);
            assert(s2.contexts@[j] == s1.contexts@[j]);
            assert(s1.contexts@[j] == old(compiler).contexts@[j]);
        }
        assert(s6.continues(old(compiler)));
        assert(chunk_index < s6.module.spec_chunks().len());
    }
    let function = Function { name: name.clone(), chunk_index, arity: args.len() };
    let closure = Closure { function, upvalues };
    let constant = compiler.add_closure(closure);
    let ghost s7 = *compiler;
    proof { s7.lemma_continues_trans(&s6, old(compiler)); }
    compiler.emit(Opcode::Closure(index_u32(constant)));
    proof { compiler.lemma_continues_trans(&s7, old(compiler)); }
}

/// Compiles a method: its closure, then the instruction that binds it to
/// the class on the stack under its name.
fn compile_method(compiler: &mut Compiler, method: &WithSpan<Stmt>)
    requires
        old(compiler).inv(),
        old(compiler).spec_depth() > 0,
    ensures
        final(compiler).inv(),
        final(compiler).continues(old(compiler)),
        final(compiler).spec_module().spec_constants() == old(compiler).spec_module().spec_constants() + match method.value {
            Stmt::Function(id, _, body) => stmts_constants(body@, method_context(id.value)),
            _ => Seq::empty(),
        },
    decreases *method, 5int,
{
    if let Stmt::Function(identifier, args, block) = &method.value {
        let init_name = "init".to_string();
        let context_type = if identifier.value == init_name {
            ContextType::Initializer
        } else {
            ContextType::Method
        };
        proof {
            broadcast use vstd::string::group_string_axioms;
            reveal_strlit("init");
            assert(init_name@ =~= seq!['i', 'n', 'i', 't']);
            assert(context_type == method_context(identifier.value));
        }
        compile_closure(compiler, &identifier.value, args, block, context_type);
        let ghost a = *compiler;
        let constant = compiler.add_identifier(&identifier.value);
        let ghost b = *compiler;
        compiler.emit(Opcode::Method(index_u32(constant)));
        proof {
            b.lemma_continues_trans(&a, old(compiler));
            compiler.lemma_continues_trans(&b, old(compiler));
        }
    } else {
        proof { compiler.lemma_extends_refl(); }
    }
}

/// From `before` to `after` a class named `name` was declared: it was added
/// to the class table at the first free index, and the first instruction
/// emitted makes a class from that entry.
pub open spec fn declares_class(before: Compiler, after: Compiler, name: String) -> bool {
    let n = before.spec_module().spec_classes().len();
    &&& after.spec_module().spec_classes().len() > n
    &&& after.spec_module().spec_classes()[n as int] == Class { name }
    &&& after.emitted(&before).len() > 0
    &&& after.emitted(&before)[0] == Opcode::Class((n % 256) as u8)
}

/// Two class declarations compiled one after the other get entries of their
/// own, in order, and (while the table holds fewer than 256 classes) their
/// instructions name different entries, each the class of its own
/// declaration.
pub proof fn law_classes_in_order(s0: Compiler, s1: Compiler, s2: Compiler, a: String, b: String)
    requires
        declares_class(s0, s1, a),
        declares_class(s1, s2, b),
        s1.continues(&s0),
        s2.continues(&s1),
    ensures
        s2.spec_module().spec_classes()[s0.spec_module().spec_classes().len() as int] == (Class { name: a }),
        s2.spec_module().spec_classes()[s1.spec_module().spec_classes().len() as int] == (Class { name: b }),
        s0.spec_module().spec_classes().len() < s1.spec_module().spec_classes().len(),
        s1.spec_module().spec_classes().len() < 256 ==> s1.emitted(&s0)[0] != s2.emitted(&s1)[0],
{
    let n0 = s0.spec_module().spec_classes().len() as int;
    assert(s2.module.spec_classes()[n0] == s1.module.spec_classes()[n0]);
}

/// Compiles a class declaration: the class, its variable, and each of its
/// methods bound to it.  A member that is not a method is an error.
fn compile_class(compiler: &mut Compiler, identifier: &WithSpan<Identifier>, stmts: &Vec<WithSpan<Stmt>>)
    requires
        old(compiler).inv(),
        old(compiler).spec_depth() > 0,
    ensures
        final(compiler).inv(),
        final(compiler).continues(old(compiler)),
        final(compiler).spec_module().spec_constants() == old(compiler).spec_module().spec_constants() + methods_constants(stmts@),
        declares_class(*old(compiler), *final(compiler), identifier.value),
    decreases stmts@, 6int,
{
    declare_variable(compiler, identifier);
    let ghost a = *compiler;
    let constant = compiler.add_class(Class { name: identifier.value.clone() });
    proof { compiler.lemma_continues_trans(&a, old(compiler)); }
    let ghost b = *compiler;
    let class_op = Opcode::Class(index_u8(constant));
    compiler.emit(class_op);
    proof {
        compiler.lemma_continues_trans(&b, old(compiler));
        compiler.lemma_emitted_concat(&b, old(compiler));
        b.lemma_emitted_concat(&a, old(compiler));
        b.lemma_emitted_none(&a);
        assert(compiler.emitted(old(compiler)) =~= seq![class_op]);
    }
    let ghost c = *compiler;
    define_variable(compiler, &identifier.value);
    proof { compiler.lemma_continues_trans(&c, old(compiler)); }
    let ghost d = *compiler;
    compile_variable(compiler, identifier);
    proof {
        compiler.lemma_continues_trans(&d, old(compiler));
        compiler.lemma_continues_trans(&d, &c);
    }
    let mut i: usize = 0;
    while i < stmts.len()
        invariant
            compiler.inv(),
            compiler.continues(old(compiler)),
            old(compiler).spec_depth() > 0,
            i <= stmts@.len(),
            compiler.spec_module().spec_constants() == old(compiler).spec_module().spec_constants()
                + methods_constants(stmts@.take(i as int)),
            c.continues(old(compiler)),
            compiler.continues(&c),
            old(compiler).inv(),
        decreases stmts@.len() - i,
    {
        let ghost before = *compiler;
        proof {
            assert(stmts@.take(i + 1).drop_last() =~= stmts@.take(i as int));
            assert(stmts@.take(i + 1).last() == stmts@[i as int]);
        }
        if let Stmt::Function(_, _, _) = &stmts[i].value {
            compile_method(compiler, &stmts[i]);
        } else {
            compiler.add_error("Only methods can stand in a class body", stmts[i].span);
            proof {
                assert(compiler.errors@.subrange(0, before.errors@.len() as int) =~= before.errors@);
                compiler.lemma_add_error_continues(&before);
            }
        }
        proof {
            compiler.lemma_continues_trans(&before, old(compiler));
            compiler.lemma_continues_trans(&before, &c);
        }
        i = i + 1;
    }
    proof { assert(stmts@.take(stmts@.len() as int) =~= stmts@); }
    let ghost e = *compiler;
    compiler.emit(Opcode::Pop);
    proof {
        compiler.lemma_continues_trans(&e, old(compiler));
        compiler.lemma_continues_trans(&e, &c);
        compiler.lemma_emitted_concat(&c, old(compiler));
    }
}

/// Compiles an import: the module, each name bound from it, then the module
/// popped.
fn compile_import(compiler: &mut Compiler, path: &WithSpan<String>, identifiers: &Option<Vec<WithSpan<String>>>)
    requires
        old(compiler).inv(),
        old(compiler).spec_depth() > 0,
    ensures
        final(compiler).inv(),
        final(compiler).continues(old(compiler)),
        final(compiler).spec_module().spec_constants() == old(compiler).spec_module().spec_constants() + seq![Constant::String(path.value)],
{
    let constant = compiler.add_constant(Constant::String(path.value.clone()));
    let ghost a = *compiler;
    compiler.emit(Opcode::Import(index_u32(constant)));
    proof { compiler.lemma_continues_trans(&a, old(compiler)); }
    if let Some(identifiers) = identifiers {
        let mut i: usize = 0;
        while i < identifiers.len()
            invariant
                compiler.inv(),
                compiler.continues(old(compiler)),
                old(compiler).spec_depth() > 0,
                i <= identifiers@.len(),
                compiler.spec_module().spec_constants() == old(compiler).spec_module().spec_constants()
                    + seq![Constant::String(path.value)],
            decreases identifiers@.len() - i,
        {
            let ghost s1 = *compiler;
            declare_variable(compiler, &identifiers[i]);
            let ghost s2 = *compiler;
            let constant = compiler.add_identifier(&identifiers[i].value);
            let ghost s3 = *compiler;
            compiler.emit(Opcode::ImportGlobal(index_u32(constant)));
            let ghost s4 = *compiler;
            define_variable(compiler, &identifiers[i].value);
            proof {
                s2.lemma_continues_trans(&s1, old(compiler));
                s3.lemma_continues_trans(&s2, old(compiler));
                s4.lemma_continues_trans(&s3, old(compiler));
                compiler.lemma_continues_trans(&s4, old(compiler));
            }
            i = i + 1;
        }
    }
    let ghost b = *compiler;
    compiler.emit(Opcode::Pop);
    proof { compiler.lemma_continues_trans(&b, old(compiler)); }
}


/// Compiles one expression, leaving its value on the stack.
fn compile_expr(compiler: &mut Compiler, expr: &WithSpan<Expr>)
    requires
        old(compiler).inv(),
        old(compiler).spec_depth() > 0,
    ensures
        final(compiler).inv(),
        final(compiler).continues(old(compiler)),
        old(compiler).settled_top() && plain_expr(*expr) ==> final(compiler).clean_since(old(compiler)) && final(compiler).settled_top(),
        final(compiler).spec_module().spec_constants() == old(compiler).spec_module().spec_constants() + expr_constants(*expr),
        final(compiler).clean_since(old(compiler)) ==> expr_code(*expr, final(compiler).emitted(old(compiler))),
    decreases *expr, 1int,
{
    match &expr.value {
        Expr::Number(num) => {
            let constant = compiler.add_constant(Constant::Number(num.duplicate()));
            let ghost a = *compiler;
            let op = Opcode::Constant(index_u32(constant));
            compiler.emit(op);
            proof {
                compiler.lemma_continues_trans(&a, old(compiler));
                compiler.lemma_emitted_concat(&a, old(compiler));
                a.lemma_emitted_none(old(compiler));
                assert(compiler.emitted(old(compiler)) =~= seq![op]);
            }
        },
        Expr::String(string) => {
            let constant = compiler.add_constant(Constant::String(string.clone()));
            let ghost a = *compiler;
            let op = Opcode::Constant(index_u32(constant));
            compiler.emit(op);
            proof {
                compiler.lemma_continues_trans(&a, old(compiler));
                compiler.lemma_emitted_concat(&a, old(compiler));
                a.lemma_emitted_none(old(compiler));
                assert(compiler.emitted(old(compiler)) =~= seq![op]);
            }
        },
        Expr::Binary(_, _, _) => compile_binary(compiler, expr),
        Expr::Variable(identifier) => compile_variable(compiler, identifier),
        Expr::Nil => compile_nil(compiler),
        Expr::Boolean(boolean) => {
            if *boolean {
                compiler.emit(Opcode::True);
            } else {
                compiler.emit(Opcode::False);
            }
        },
        Expr::Assign(identifier, value) => compile_assign(compiler, identifier, value),
        Expr::Logical(_, _, _) => compile_logical(compiler, expr),
        Expr::Call(_, _) => compile_call(compiler, expr),
        Expr::Grouping(inner) => compile_expr(compiler, inner),
        Expr::Unary(operator, operand) => {
            let op = match operator.value {
                UnaryOperator::Minus => Opcode::Negate,
                UnaryOperator::Bang => Opcode::Not,
            };
            compile_expr(compiler, operand);
            let ghost a = *compiler;
            compiler.emit(op);
            proof {
                compiler.lemma_continues_trans(&a, old(compiler));
                compiler.lemma_emitted_concat(&a, old(compiler));
                assert(op == unary_opcode(operator.value));
                assert(compiler.emitted(old(compiler)).drop_last() =~= a.emitted(old(compiler)));
            }
        },
        Expr::SetProperty(_, _, _) => compile_set(compiler, expr),
        Expr::Get(object, identifier) => {
            compile_expr(compiler, object);
            let ghost a = *compiler;
            let constant = compiler.add_identifier(&identifier.value);
            let ghost b = *compiler;
            compiler.emit(Opcode::GetProperty(index_u32(constant)));
            proof {
                b.lemma_continues_trans(&a, old(compiler));
                compiler.lemma_continues_trans(&b, old(compiler));
                b.lemma_emitted_concat(&a, old(compiler));
                compiler.lemma_emitted_concat(&b, old(compiler));
                b.lemma_emitted_none(&a);
                assert(compiler.emitted(old(compiler)).drop_last() =~= a.emitted(old(compiler)));
            }
        },
        Expr::This => {
            if !compiler.in_method_or_initializer_nested() {
                compiler.add_error("Invalid 'this'", expr.span);
                proof {
                    assert(compiler.errors@.subrange(0, old(compiler).errors@.len() as int) =~= old(compiler).errors@);
                    compiler.lemma_add_error_continues(old(compiler));
                }
                return;
            }
            let name = "this".to_string();
            compile_named_variable(compiler, &name, expr.span, false);
        },
        Expr::List(items) => {
            compile_exprs(compiler, items);
            let ghost a = *compiler;
            compiler.emit(Opcode::List(index_u8(items.len())));
            proof {
                compiler.lemma_continues_trans(&a, old(compiler));
                compiler.lemma_emitted_concat(&a, old(compiler));
                assert(compiler.emitted(old(compiler)).drop_last() =~= a.emitted(old(compiler)));
            }
        },
        Expr::ListGet(_, _) => compile_list_get(compiler, expr),
        Expr::ListSet(_, _, _) => compile_list_set(compiler, expr),
        Expr::Super(_) => {
            compiler.add_error("'super' is not supported", expr.span);
            proof {
                assert(compiler.errors@.subrange(0, old(compiler).errors@.len() as int) =~= old(compiler).errors@);
                compiler.lemma_add_error_continues(old(compiler));
            }
        },
    }
}

/// Compiles expressions in order.
fn compile_exprs(compiler: &mut Compiler, exprs: &Vec<WithSpan<Expr>>)
    requires
        old(compiler).inv(),
        old(compiler).spec_depth() > 0,
    ensures
        final(compiler).inv(),
        final(compiler).continues(old(compiler)),
        old(compiler).settled_top() && plain_exprs(exprs@) ==> final(compiler).clean_since(old(compiler)) && final(compiler).settled_top(),
        final(compiler).spec_module().spec_constants() == old(compiler).spec_module().spec_constants() + exprs_constants(exprs@),
        final(compiler).clean_since(old(compiler)) ==> exprs_code(exprs@, final(compiler).emitted(old(compiler))),
    decreases exprs@, 2int,
{
    proof {
        compiler.lemma_extends_refl();
        compiler.lemma_emitted_none(old(compiler));
    }
    let mut i: usize = 0;
    while i < exprs.len()
        invariant
            compiler.inv(),
            compiler.continues(old(compiler)),
            old(compiler).inv(),
            old(compiler).spec_depth() > 0,
            i <= exprs@.len(),
            compiler.clean_since(old(compiler)) ==> exprs_code(exprs@.take(i as int), compiler.emitted(old(compiler))),
            compiler.spec_module().spec_constants() == old(compiler).spec_module().spec_constants()
                + exprs_constants(exprs@.take(i as int)),
            old(compiler).settled_top() && plain_exprs(exprs@) ==> compiler.clean_since(old(compiler)) && compiler.settled_top(),
        decreases exprs@.len() - i,
    {
        let ghost before = *compiler;
        proof {
            if plain_exprs(exprs@) {
                lemma_plain_exprs(exprs@, i as int);
            }
        }
        compile_expr(compiler, &exprs[i]);
        proof {
            assert(exprs@.take(i + 1).drop_last() =~= exprs@.take(i as int));
            assert(exprs@.take(i + 1).last() == exprs@[i as int]);
            compiler.lemma_continues_trans(&before, old(compiler));
            compiler.lemma_emitted_concat(&before, old(compiler));
            if compiler.clean_since(old(compiler)) {
                let es = exprs@.take(i + 1);
                let ops = compiler.emitted(old(compiler));
                let k = before.emitted(old(compiler)).len() as int;
                assert(es.drop_last() =~= exprs@.take(i as int));
                assert(ops.take(k) =~= before.emitted(old(compiler)));
                assert(ops.skip(k) =~= compiler.emitted(&before));
                assert(es.last() == exprs@[i as int]);
                assert(exprs_code(es.drop_last(), ops.take(k)) && expr_code(es.last(), ops.skip(k)));
            }
        }
        i = i + 1;
    }
    proof {
        assert(exprs@.take(exprs@.len() as int) =~= exprs@);
    }
}

/// Compiles two operands, then the instructions of a binary operator.
fn compile_binary(compiler: &mut Compiler, expr: &WithSpan<Expr>)
    requires
        old(compiler).inv(),
        old(compiler).spec_depth() > 0,
        expr.value is Binary,
    ensures
        final(compiler).inv(),
        final(compiler).continues(old(compiler)),
        old(compiler).settled_top() && plain_expr(*expr) ==> final(compiler).clean_since(old(compiler)) && final(compiler).settled_top(),
        final(compiler).spec_module().spec_constants() == old(compiler).spec_module().spec_constants() + expr_constants(*expr),
        final(compiler).clean_since(old(compiler)) ==> expr_code(*expr, final(compiler).emitted(old(compiler))),
    decreases *expr, 0int,
{
    if let Expr::Binary(left, operator, right) = &expr.value {
        compile_expr(compiler, left);
        let ghost a = *compiler;
        compile_expr(compiler, right);
        proof { compiler.lemma_continues_trans(&a, old(compiler)); }
        let (first, second) = match operator.value {
            BinaryOperator::Plus => (Opcode::Add, None),
            BinaryOperator::Minus => (Opcode::Subtract, None),
            BinaryOperator::Less => (Opcode::Less, None),
            BinaryOperator::LessEqual => (Opcode::Greater, Some(Opcode::Not)),
            BinaryOperator::Star => (Opcode::Multiply, None),
            BinaryOperator::EqualEqual => (Opcode::Equal, None),
            BinaryOperator::BangEqual => (Opcode::Equal, Some(Opcode::Not)),
            BinaryOperator::Greater => (Opcode::Greater, None),
            BinaryOperator::GreaterEqual => (Opcode::Less, Some(Opcode::Not)),
            BinaryOperator::Slash => (Opcode::Divide, None),
        };
        let ghost b = *compiler;
        compiler.emit(first);
        proof {
            compiler.lemma_continues_trans(&b, old(compiler));
            b.lemma_emitted_concat(&a, old(compiler));
            compiler.lemma_emitted_concat(&b, old(compiler));
        }
        let ghost c = *compiler;
        if let Some(second) = second {
            compiler.emit(second);
            proof {
                compiler.lemma_continues_trans(&c, old(compiler));
                compiler.lemma_emitted_concat(&c, old(compiler));
            }
        } else {
            proof {
                compiler.lemma_extends_refl();
                compiler.lemma_emitted_none(&c);
                compiler.lemma_emitted_concat(&c, old(compiler));
            }
        }
        proof {
            if compiler.clean_since(old(compiler)) {
                let ops = compiler.emitted(old(compiler));
                let l = a.emitted(old(compiler));
                let r = b.emitted(&a);
                let tail = binary_opcodes(operator.value);
                assert(tail =~= c.emitted(&b) + compiler.emitted(&c));
                assert(ops =~= l + r + tail);
                let n = ops.len() - tail.len();
                assert(ops.skip(n) =~= tail);
                assert(ops.take(l.len() as int) =~= l);
                assert(ops.subrange(l.len() as int, n) =~= r);
            }
        }
    } else {
        proof { compiler.lemma_extends_refl(); }
    }
}

/// Compiles `and` and `or`: the left operand, then the right one only where
/// it decides the value.
fn compile_logical(compiler: &mut Compiler, expr: &WithSpan<Expr>)
    requires
        old(compiler).inv(),
        old(compiler).spec_depth() > 0,
        expr.value is Logical,
    ensures
        final(compiler).inv(),
        final(compiler).continues(old(compiler)),
        final(compiler).spec_module().spec_constants() == old(compiler).spec_module().spec_constants() + expr_constants(*expr),
        final(compiler).clean_since(old(compiler)) ==> expr_code(*expr, final(compiler).emitted(old(compiler))),
    decreases *expr, 0int,
{
    if let Expr::Logical(left, operator, right) = &expr.value {
        let ghost ci = old(compiler).spec_current();
        compile_expr(compiler, left);
        let ghost s1 = *compiler;
        let ghost k1 = compiler.code@[ci].len() as int;
        let first_jump = compiler.emit_jump(Opcode::JumpIfFalse(0));
        let ghost s2 = *compiler;
        proof { s2.lemma_continues_trans(&s1, old(compiler)); }
        match operator.value {
            LogicalOperator::And => {
                compiler.emit(Opcode::Pop);
                let ghost s3 = *compiler;
                compile_expr(compiler, right);
                let ghost s4 = *compiler;
                proof {
                    s3.lemma_continues_trans(&s2, old(compiler));
                    s4.lemma_continues_trans(&s3, old(compiler));
                    s4.lemma_extends_trans(&s3, &s2);
                    s4.lemma_jump_kept(&s2, ci, k1);
                }
                compiler.patch_jump(first_jump, expr.span, Ghost(k1));
                proof {
                    compiler.lemma_patch_continues(&s4, old(compiler), k1);
                    s2.lemma_emitted_push(&s1, Opcode::JumpIfFalse(0));
                    s2.lemma_emitted_concat(&s1, old(compiler));
                    s3.lemma_emitted_concat(&s2, old(compiler));
                    s4.lemma_emitted_concat(&s3, old(compiler));
                    let l = s1.emitted(old(compiler));
                    let r = s4.emitted(&s3);
                    let m = s4.emitted(old(compiler));
                    assert(m =~= l + seq![Opcode::JumpIfFalse(0), Opcode::Pop] + r);
                    assert(k1 == old(compiler).code@[ci].len() + l.len());
                    compiler.lemma_emitted_patched(&s4, old(compiler), k1);
                    if compiler.clean_since(old(compiler)) {
                        let ops = compiler.emitted(old(compiler));
                        let k = l.len() as int;
                        assert(ops.take(k) =~= l);
                        assert(ops.skip(k + 2) =~= r);
                        assert(ops[k + 1] == m[k + 1]);
                        assert(ops[k] is JumpIfFalse && ops[k + 1] == Opcode::Pop);
                    }
                }
            },
            LogicalOperator::Or => {
                let ghost k2 = compiler.code@[ci].len() as int;
                let end_jump = compiler.emit_jump(Opcode::Jump(0));
                let ghost s3 = *compiler;
                proof {
                    s3.lemma_continues_trans(&s2, old(compiler));
                    s3.lemma_jump_kept(&s2, ci, k1);
                }
                compiler.patch_jump(first_jump, expr.span, Ghost(k1));
                let ghost s4 = *compiler;
                proof {
                    s4.lemma_patch_continues(&s3, old(compiler), k1);
                    s4.lemma_jump_kept_patch(&s3, k1, k2);
                }
                compiler.emit(Opcode::Pop);
                let ghost s5 = *compiler;
                compile_expr(compiler, right);
                let ghost s6 = *compiler;
                proof {
                    s5.lemma_continues_trans(&s4, old(compiler));
                    s6.lemma_continues_trans(&s5, old(compiler));
                    s6.lemma_extends_trans(&s5, &s4);
                    s6.lemma_jump_kept(&s4, ci, k2);
                }
                compiler.patch_jump(end_jump, expr.span, Ghost(k2));
                proof {
                    compiler.lemma_patch_continues(&s6, old(compiler), k2);
                    s2.lemma_emitted_push(&s1, Opcode::JumpIfFalse(0));
                    s3.lemma_emitted_push(&s2, Opcode::Jump(0));
                    s2.lemma_emitted_concat(&s1, old(compiler));
                    s3.lemma_emitted_concat(&s2, old(compiler));
                    let l = s1.emitted(old(compiler));
                    let m3 = s3.emitted(old(compiler));
                    assert(m3 =~= l + seq![Opcode::JumpIfFalse(0), Opcode::Jump(0)]);
                    assert(k1 == old(compiler).code@[ci].len() + l.len());
                    assert(k2 == k1 + 1);
                    s4.lemma_emitted_patched(&s3, old(compiler), k1);
                    s5.lemma_emitted_concat(&s4, old(compiler));
                    s6.lemma_emitted_concat(&s5, old(compiler));
                    let m4 = s4.emitted(old(compiler));
                    let r = s6.emitted(&s5);
                    let m6 = s6.emitted(old(compiler));
                    assert(m6 =~= m4 + seq![Opcode::Pop] + r);
                    compiler.lemma_emitted_patched(&s6, old(compiler), k2);
                    if compiler.clean_since(old(compiler)) {
                        let ops = compiler.emitted(old(compiler));
                        let k = l.len() as int;
                        assert(ops.take(k) =~= l) by {
                            assert forall|i: int| 0 <= i < k implies ops[i] == l[i] by {
                                assert(ops[i] == m6[i]);
                                assert(m6[i] == m4[i]);
                                assert(m4[i] == m3[i]);
                            }
                        }
                        assert(ops.skip(k + 3) =~= r) by {
                            assert forall|i: int| 0 <= i < r.len() implies ops[k + 3 + i] == r[i] by {
                                assert(ops[k + 3 + i] == m6[k + 3 + i]);
                            }
                        }
                        assert(m6[k] == m4[k]);
                        assert(ops[k] == m6[k]);
                        assert(ops[k + 2] == m6[k + 2]);
                        assert(m6[k + 1] == m4[k + 1]);
                        assert(m4[k + 1] == m3[k + 1]);
                        assert(ops[k] is JumpIfFalse && ops[k + 1] is Jump && ops[k + 2] == Opcode::Pop);
                    }
                }
            },
        }
    } else {
        proof { compiler.lemma_extends_refl(); }
    }
}

/// Compiles a call: a method invocation where the callee is a property,
/// otherwise the callee and a call, each with the arguments in order.
fn compile_call(compiler: &mut Compiler, expr: &WithSpan<Expr>)
    requires
        old(compiler).inv(),
        old(compiler).spec_depth() > 0,
        expr.value is Call,
    ensures
        final(compiler).inv(),
        final(compiler).continues(old(compiler)),
        old(compiler).settled_top() && plain_expr(*expr) ==> final(compiler).clean_since(old(compiler)) && final(compiler).settled_top(),
        final(compiler).spec_module().spec_constants() == old(compiler).spec_module().spec_constants() + expr_constants(*expr),
        final(compiler).clean_since(old(compiler)) ==> expr_code(*expr, final(compiler).emitted(old(compiler))),
    decreases *expr, 0int,
{
    if let Expr::Call(callee, args) = &expr.value {
        if let Expr::Get(object, identifier) = &callee.value {
            assert(expr_constants(**callee) == expr_constants(**object));
            assert(plain_expr(**callee) == plain_expr(**object));
            compile_expr(compiler, object);
            let ghost a = *compiler;
            compile_exprs(compiler, args);
            let ghost b = *compiler;
            let constant = compiler.add_identifier(&identifier.value);
            let ghost c = *compiler;
            let op = Opcode::Invoke(index_u8(args.len()), index_u32(constant));
            compiler.emit(op);
            proof {
                b.lemma_continues_trans(&a, old(compiler));
                c.lemma_continues_trans(&b, old(compiler));
                compiler.lemma_continues_trans(&c, old(compiler));
                b.lemma_emitted_concat(&a, old(compiler));
                c.lemma_emitted_concat(&b, old(compiler));
                c.lemma_emitted_none(&b);
                compiler.lemma_emitted_concat(&c, old(compiler));
                if compiler.clean_since(old(compiler)) {
                    let ops = compiler.emitted(old(compiler));
                    let k = a.emitted(old(compiler)).len() as int;
                    assert(ops =~= a.emitted(old(compiler)) + b.emitted(&a) + seq![op]);
                    assert(ops.take(k) =~= a.emitted(old(compiler)));
                    assert(ops.subrange(k, ops.len() - 1) =~= b.emitted(&a));
                }
            }
        } else {
            compile_expr(compiler, callee);
            let ghost a = *compiler;
            compile_exprs(compiler, args);
            let ghost b = *compiler;
            let op = Opcode::Call(index_u8(args.len()));
            compiler.emit(op);
            proof {
                b.lemma_continues_trans(&a, old(compiler));
                compiler.lemma_continues_trans(&b, old(compiler));
                b.lemma_emitted_concat(&a, old(compiler));
                compiler.lemma_emitted_concat(&b, old(compiler));
                if compiler.clean_since(old(compiler)) {
                    let ops = compiler.emitted(old(compiler));
                    let k = a.emitted(old(compiler)).len() as int;
                    assert(ops =~= a.emitted(old(compiler)) + b.emitted(&a) + seq![op]);
                    assert(ops.take(k) =~= a.emitted(old(compiler)));
                    assert(ops.subrange(k, ops.len() - 1) =~= b.emitted(&a));
                }
            }
        }
    } else {
        proof { compiler.lemma_extends_refl(); }
    }
}

/// Compiles a property assignment: the object, the value, then the store.
fn compile_set(compiler: &mut Compiler, expr: &WithSpan<Expr>)
    requires
        old(compiler).inv(),
        old(compiler).spec_depth() > 0,
        expr.value is SetProperty,
    ensures
        final(compiler).inv(),
        final(compiler).continues(old(compiler)),
        old(compiler).settled_top() && plain_expr(*expr) ==> final(compiler).clean_since(old(compiler)) && final(compiler).settled_top(),
        final(compiler).spec_module().spec_constants() == old(compiler).spec_module().spec_constants() + expr_constants(*expr),
        final(compiler).clean_since(old(compiler)) ==> expr_code(*expr, final(compiler).emitted(old(compiler))),
    decreases *expr, 0int,
{
    if let Expr::SetProperty(object, identifier, value) = &expr.value {
        compile_expr(compiler, object);
        let ghost a = *compiler;
        compile_expr(compiler, value);
        let ghost b = *compiler;
        let constant = compiler.add_identifier(&identifier.value);
        let ghost c = *compiler;
        let op = Opcode::SetProperty(index_u32(constant));
        compiler.emit(op);
        proof {
            b.lemma_continues_trans(&a, old(compiler));
            c.lemma_continues_trans(&b, old(compiler));
            compiler.lemma_continues_trans(&c, old(compiler));
            b.lemma_emitted_concat(&a, old(compiler));
            c.lemma_emitted_concat(&b, old(compiler));
            c.lemma_emitted_none(&b);
            compiler.lemma_emitted_concat(&c, old(compiler));
            if compiler.clean_since(old(compiler)) {
                let ops = compiler.emitted(old(compiler));
                let k = a.emitted(old(compiler)).len() as int;
                assert(ops =~= a.emitted(old(compiler)) + b.emitted(&a) + seq![op]);
                assert(ops.take(k) =~= a.emitted(old(compiler)));
                assert(ops.subrange(k, ops.len() - 1) =~= b.emitted(&a));
            }
        }
    } else {
        proof { compiler.lemma_extends_refl(); }
    }
}

/// Compiles reading an element of a list.
fn compile_list_get(compiler: &mut Compiler, expr: &WithSpan<Expr>)
    requires
        old(compiler).inv(),
        old(compiler).spec_depth() > 0,
        expr.value is ListGet,
    ensures
        final(compiler).inv(),
        final(compiler).continues(old(compiler)),
        old(compiler).settled_top() && plain_expr(*expr) ==> final(compiler).clean_since(old(compiler)) && final(compiler).settled_top(),
        final(compiler).spec_module().spec_constants() == old(compiler).spec_module().spec_constants() + expr_constants(*expr),
        final(compiler).clean_since(old(compiler)) ==> expr_code(*expr, final(compiler).emitted(old(compiler))),
    decreases *expr, 0int,
{
    if let Expr::ListGet(list, index) = &expr.value {
        compile_expr(compiler, list);
        let ghost a = *compiler;
        compile_expr_then(compiler, index, Opcode::GetIndex);
        proof {
            compiler.lemma_continues_trans(&a, old(compiler));
            compiler.lemma_emitted_concat(&a, old(compiler));
            if compiler.clean_since(old(compiler)) {
                let ops = compiler.emitted(old(compiler));
                let k = a.emitted(old(compiler)).len() as int;
                assert(ops.take(k) =~= a.emitted(old(compiler)));
                assert(ops.subrange(k, ops.len() - 1) =~= compiler.emitted(&a).drop_last());
            }
        }
    } else {
        proof { compiler.lemma_extends_refl(); }
    }
}

/// Compiles writing an element of a list.
fn compile_list_set(compiler: &mut Compiler, expr: &WithSpan<Expr>)
    requires
        old(compiler).inv(),
        old(compiler).spec_depth() > 0,
        expr.value is ListSet,
    ensures
        final(compiler).inv(),
        final(compiler).continues(old(compiler)),
        old(compiler).settled_top() && plain_expr(*expr) ==> final(compiler).clean_since(old(compiler)) && final(compiler).settled_top(),
        final(compiler).spec_module().spec_constants() == old(compiler).spec_module().spec_constants() + expr_constants(*expr),
        final(compiler).clean_since(old(compiler)) ==> expr_code(*expr, final(compiler).emitted(old(compiler))),
    decreases *expr, 0int,
{
    if let Expr::ListSet(list, index, value) = &expr.value {
        compile_expr(compiler, list);
        let ghost a = *compiler;
        compile_expr(compiler, index);
        let ghost b = *compiler;
        compile_expr_then(compiler, value, Opcode::SetIndex);
        proof {
            b.lemma_continues_trans(&a, old(compiler));
            compiler.lemma_continues_trans(&b, old(compiler));
            b.lemma_emitted_concat(&a, old(compiler));
            compiler.lemma_emitted_concat(&b, old(compiler));
            if compiler.clean_since(old(compiler)) {
                let ops = compiler.emitted(old(compiler));
                let k = a.emitted(old(compiler)).len() as int;
                let j = k + b.emitted(&a).len();
                assert(ops =~= a.emitted(old(compiler)) + b.emitted(&a) + compiler.emitted(&b));
                assert(ops.take(k) =~= a.emitted(old(compiler)));
                assert(ops.take(j).skip(k) =~= b.emitted(&a));
                assert(ops.subrange(j, ops.len() - 1) =~= compiler.emitted(&b).drop_last());
            }
        }
    } else {
        proof { compiler.lemma_extends_refl(); }
    }
}

/// Compiles an assignment: the value, then the store into the local,
/// captured or global variable the name resolves to.
fn compile_assign(compiler: &mut Compiler, identifier: &WithSpan<Identifier>, value: &WithSpan<Expr>)
    requires
        old(compiler).inv(),
        old(compiler).spec_depth() > 0,
    ensures
        final(compiler).inv(),
        final(compiler).continues(old(compiler)),
        old(compiler).settled_top() && plain_expr(*value) ==> final(compiler).clean_since(old(compiler)) && final(compiler).settled_top(),
        final(compiler).spec_module().spec_constants() == old(compiler).spec_module().spec_constants() + expr_constants(*value),
        final(compiler).clean_since(old(compiler)) ==> final(compiler).emitted(old(compiler)).len() >= 1
            && writes_variable(final(compiler).emitted(old(compiler)).last())
            && expr_code(*value, final(compiler).emitted(old(compiler)).drop_last()),
    decreases *value, 2int,
{
    compile_expr(compiler, value);
    let ghost a = *compiler;
    compile_named_variable(compiler, &identifier.value, identifier.span, true);
    proof {
        compiler.lemma_continues_trans(&a, old(compiler));
        compiler.lemma_emitted_concat(&a, old(compiler));
        if compiler.clean_since(old(compiler)) {
            assert(compiler.emitted(old(compiler)).drop_last() =~= a.emitted(old(compiler)));
        }
    }
}

/// Compiles reading a variable.
fn compile_variable(compiler: &mut Compiler, identifier: &WithSpan<Identifier>)
    requires
        old(compiler).inv(),
        old(compiler).spec_depth() > 0,
    ensures
        final(compiler).inv(),
        final(compiler).continues(old(compiler)),
        old(compiler).settled_top() ==> final(compiler).clean_since(old(compiler)) && final(compiler).settled_top(),
        final(compiler).spec_module().spec_constants() == old(compiler).spec_module().spec_constants(),
        final(compiler).clean_since(old(compiler)) ==> final(compiler).emitted(old(compiler)).len() == 1
            && reads_variable(final(compiler).emitted(old(compiler))[0]),
{
    compile_named_variable(compiler, &identifier.value, identifier.span, false);
}

/// Emits the read (or, with `store`, the write) of the variable `name`
/// resolves to: a local of the innermost context, a variable it captures,
/// or a global.  Reading a local in its own initializer is an error.
fn compile_named_variable(compiler: &mut Compiler, name: &String, span: Span, store: bool)
    requires
        old(compiler).inv(),
        old(compiler).spec_depth() > 0,
    ensures
        final(compiler).inv(),
        final(compiler).continues(old(compiler)),
        old(compiler).settled_top() ==> final(compiler).clean_since(old(compiler)) && final(compiler).settled_top(),
        final(compiler).spec_module().spec_constants() == old(compiler).spec_module().spec_constants(),
        final(compiler).clean_since(old(compiler)) ==> final(compiler).emitted(old(compiler)).len() == 1
            && if store {
                writes_variable(final(compiler).emitted(old(compiler))[0])
            } else {
                reads_variable(final(compiler).emitted(old(compiler))[0])
            },
{
    let ctx = compiler.contexts.len() - 1;
    match compiler.resolve_local(ctx, name) {
        Some((slot, initialized)) => {
            let ghost a = *compiler;
            if !initialized && !store {
                compiler.add_error("Cannot read local variable in its own initializer", span);
                proof {
                    assert(compiler.errors@.subrange(0, a.errors@.len() as int) =~= a.errors@);
                    compiler.lemma_add_error_continues(&a);
                }
            } else {
                proof { compiler.lemma_extends_refl(); }
            }
            let ghost b = *compiler;
            let op = if store { Opcode::SetLocal(index_u32(slot)) } else { Opcode::GetLocal(index_u32(slot)) };
            compiler.emit(op);
            proof {
                compiler.lemma_continues_trans(&b, old(compiler));
                compiler.lemma_emitted_concat(&b, old(compiler));
                b.lemma_emitted_none(old(compiler));
            }
        },
        None => {
            match compiler.resolve_upvalue(ctx, name) {
                Some(upvalue) => {
                    let ghost a = *compiler;
                    let op = if store { Opcode::SetUpvalue(index_u32(upvalue)) } else { Opcode::GetUpvalue(index_u32(upvalue)) };
                    compiler.emit(op);
                    proof {
                        compiler.lemma_continues_trans(&a, old(compiler));
                        compiler.lemma_emitted_concat(&a, old(compiler));
                        a.lemma_emitted_none(old(compiler));
                    }
                },
                None => {
                    let ghost a = *compiler;
                    let constant = compiler.add_identifier(name);
                    let ghost b = *compiler;
                    let op = if store {
                        Opcode::SetGlobal(index_u32(constant))
                    } else {
                        Opcode::GetGlobal(index_u32(constant))
                    };
                    compiler.emit(op);
                    proof {
                        b.lemma_continues_trans(&a, old(compiler));
                        compiler.lemma_continues_trans(&b, old(compiler));
                        compiler.lemma_emitted_concat(&b, old(compiler));
                        b.lemma_emitted_none(old(compiler));
                    }
                },
            }
        },
    }
}

/// Every chunk of a sound compiler's module is whole instructions that refer
/// into the module.
proof fn lemma_sound(compiler: &Compiler)
    requires
        compiler.inv(),
    ensures
        sound_module(compiler.spec_module()),
{
    let m = compiler.spec_module();
    assert forall|i: int| 0 <= i < m.spec_chunks().len() implies well_formed_from(#[trigger] m.spec_chunks()[i]@, 0) by {
        let ops = compiler.spec_code()[i];
        lemma_encoded_well_formed(ops, 0);
        assert(ops.take(0) =~= Seq::<Opcode>::empty());
        assert(encode_all(Seq::<Opcode>::empty()).len() == 0);
    }
    assert forall|i: int, k: int| 0 <= i < m.spec_chunks().len() && 0 <= k < decoded(m.spec_chunks()[i]@).len()
        implies refers_into(#[trigger] decoded(m.spec_chunks()[i]@)[k], m) by {
        crate::bytecode::lemma_decoded_of(m.spec_chunks()[i]@, compiler.spec_code()[i]);
        assert(refers_into(compiler.spec_code()[i][k], m));
    }
}

/// Compiles a program into a module: its top level into the first chunk,
/// ending with a return of nil, each function into a chunk of its own.
/// The diagnostics when any error was found.  The constants of the module
/// are those of the program's literals (and import paths) in source order,
/// one for each, equal ones not shared.
pub fn compile(ast: &Ast) -> (res: Result<Module, Vec<Diagnostic>>)
    ensures
        res matches Ok(m) ==> sound_module(m) && m.spec_chunks().len() >= 1,
        res matches Ok(m) ==> m.spec_constants() == stmts_constants(ast@, ContextType::TopLevel),
        res matches Err(errors) ==> errors@.len() > 0,
        plain_program(ast@) ==> res is Ok,
        res matches Ok(m) ==> ({
            let ops = decoded(m.spec_chunks()[0]@);
            &&& ops.len() >= 2
            &&& ops.skip(ops.len() - 2) == seq![Opcode::Nil, Opcode::Return]
            &&& plain_program(ast@) ==> plain_stmts_code(ast@, ops.take(ops.len() - 2))
        }),
{
    let mut compiler = Compiler::new();
    let _ = compiler.begin_context(ContextType::TopLevel);
    let ghost s0 = compiler;
    proof {
        assert(compiler.spec_context_type() == ContextType::TopLevel);
        assert(compiler.settled_top());
        assert(compiler.spec_module().spec_constants() =~= Seq::<Constant>::empty());
        assert(compiler.spec_current() == 0);
    }
    compile_ast(&mut compiler, ast);
    let ghost s1 = compiler;
    let no_value: Option<Box<WithSpan<Expr>>> = None;
    proof { s1.lemma_same_context(&s0); }
    compile_return(&mut compiler, &no_value);
    let ghost s2 = compiler;
    proof {
        s2.lemma_continues_trans(&s1, &s0);
        s2.lemma_emitted_concat(&s1, &s0);
    }
    let _ = compiler.end_context();
    if compiler.has_errors() {
        Err(compiler.into_errors())
    } else {
        proof {
            lemma_sound(&compiler);
            let code = s2.code@[0];
            assert(s0.code@[0].len() == 0);
            assert(code =~= s2.emitted(&s0));
            assert(compiler.code@[0] == code);
            crate::bytecode::lemma_decoded_of(compiler.module.spec_chunks()[0]@, code);
            let ops = decoded(compiler.module.spec_chunks()[0]@);
            let e1 = s1.emitted(&s0);
            assert(ops == e1 + seq![Opcode::Nil, Opcode::Return]);
            assert(ops.skip(ops.len() - 2) =~= seq![Opcode::Nil, Opcode::Return]);
            assert(ops.take(ops.len() - 2) =~= e1);
            if plain_program(ast@) {
                assert(s1.clean_since(&s0)) by {
                    s2.lemma_emitted_concat(&s1, &s0);
                }
            }
        }
        Ok(compiler.into_module())
    }
}

} // verus!
