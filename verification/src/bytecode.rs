use vstd::prelude::*;
use crate::number::Number;
use crate::opcode::{u32_le, i16_le, encode, encode_all, well_formed_from, offset_of, lemma_encode_all_concat,
    lemma_encode_all_split, lemma_offset_step, lemma_offset_bound, Opcode};
use crate::opcode::{CONSTANT, TRUE, FALSE, NIL, NEGATE, ADD, SUBTRACT, MULTIPLY, DIVIDE, NOT, EQUAL, GREATER,
    LESS, POP, RETURN, PRINT, DEFINE_GLOBAL, GET_GLOBAL, SET_GLOBAL, GET_LOCAL, SET_LOCAL, GET_UPVALUE, SET_UPVALUE,
    GET_PROPERTY, SET_PROPERTY, JUMP, JUMP_IF_FALSE, CALL, INVOKE, CLOSE_UPVALUE, CLASS, CLOSURE, METHOD, IMPORT,
    IMPORT_GLOBAL, LIST, GET_INDEX, SET_INDEX, NUMBER, STRING};

verus! {

pub type InstructionIndex = usize;
pub type ConstantIndex = usize;
pub type StackIndex = usize;
pub type ChunkIndex = usize;
pub type ArgumentCount = usize;
pub type UpvalueIndex = usize;
pub type ClosureIndex = usize;
pub type ClassIndex = usize;
pub type IdentifierIndex = usize;
/// An instruction, as the chunks of a module hold them.
pub type Instruction = Opcode;

/// A class declared in a module.
#[derive(Clone, Debug, PartialEq, Eq)]
pub struct Class {
    pub name: String,
}

/// A closure: a function and where each of its captured variables comes from.
#[derive(Clone, Debug, PartialEq, Eq)]
pub struct Closure {
    pub function: Function,
    pub upvalues: Vec<Upvalue>,
}

/// Where a captured variable lives: a local slot of the enclosing function,
/// or one of the enclosing function's own upvalues.
#[derive(Copy, Clone, Debug, PartialEq, Eq, Structural)]
pub enum Upvalue {
    Local(StackIndex),
    Upvalue(UpvalueIndex),
}

/// A compiled function: its name, the chunk holding its code, and its arity.
#[derive(Clone, Debug, PartialEq, Eq)]
pub struct Function {
    pub name: String,
    pub chunk_index: ChunkIndex,
    pub arity: usize,
}

/// A constant of a module.
#[derive(Clone, Debug, PartialEq, Eq)]
pub enum Constant {
    Number(Number),
    String(String),
}

impl Constant {
    /// A string constant.
    pub fn from_str(item: &str) -> (res: Constant)
        ensures
            res matches Constant::String(s) && s@ == item@,
    {
        Constant::String(item.to_string())
    }
}

impl Closure {
    /// A closure that captures nothing.
    pub fn from_function(item: Function) -> (res: Closure)
        ensures
            res.function == item,
            res.upvalues@.len() == 0,
    {
        Closure { function: item, upvalues: Vec::new() }
    }
}

/// The code of one function, as bytes.
#[derive(Clone, Debug)]
pub struct Chunk {
    instructions: Vec<u8>,
}

impl View for Chunk {
    type V = Seq<u8>;

    closed spec fn view(&self) -> Seq<u8> {
        self.instructions@
    }
}

impl Chunk {
    /// An empty chunk.
    pub fn new() -> (res: Chunk)
        ensures
            res@ == Seq::<u8>::empty(),
    {
        Chunk { instructions: Vec::new() }
    }

    /// Appends one byte and returns its index.
    pub fn add_u8(&mut self, value: u8) -> (res: InstructionIndex)
        ensures
            final(self)@ == old(self)@.push(value),
            res == old(self)@.len(),
    {
        self.instructions.push(value);
        self.instructions.len() - 1
    }

    /// Appends the four little-endian bytes of `value` and returns the index
    /// of the first one.
    pub fn add_u32(&mut self, value: u32) -> (res: InstructionIndex)
        ensures
            final(self)@ == old(self)@ + u32_le(value),
            res == old(self)@.len(),
    {
        let bytes = u32_to_le_bytes(value);
        let mut i: usize = 0;
        while i < 4
            invariant
                i <= 4,
                bytes@ == u32_le(value),
                self@ == old(self)@ + u32_le(value).subrange(0, i as int),
            decreases 4 - i,
        {
            self.instructions.push(bytes[i]);
            assert(u32_le(value).subrange(0, i + 1) =~= u32_le(value).subrange(0, i as int).push(u32_le(value)[i as int]));
            assert(self@ =~= old(self)@ + u32_le(value).subrange(0, i + 1));
            i = i + 1;
        }
        assert(u32_le(value).subrange(0, 4) =~= u32_le(value));
        self.instructions.len() - 4
    }

    /// Overwrites the four bytes at `index` with the little-endian bytes of
    /// `value`.
    pub fn set_u32(&mut self, index: InstructionIndex, value: u32)
        requires
            index + 4 <= old(self)@.len(),
        ensures
            final(self)@ == old(self)@.subrange(0, index as int) + u32_le(value)
                + old(self)@.subrange(index + 4, old(self)@.len() as int),
    {
        let bytes = u32_to_le_bytes(value);
        let n = self.instructions.len();
        let mut i: usize = 0;
        while i < 4
            invariant
                i <= 4,
                n == old(self)@.len(),
                index + 4 <= old(self)@.len(),
                bytes@ == u32_le(value),
                self@.len() == old(self)@.len(),
                forall|j: int| 0 <= j < self@.len() ==> #[trigger] self@[j] == if index <= j < index + i {
                    u32_le(value)[j - index]
                } else {
                    old(self)@[j]
                },
            decreases 4 - i,
        {
            self.instructions.set(index + i, bytes[i]);
            i = i + 1;
        }
        assert(self@ =~= old(self)@.subrange(0, index as int) + u32_le(value)
            + old(self)@.subrange(index + 4, old(self)@.len() as int));
    }

    /// The index the next byte will get.
    pub fn instruction_index(&self) -> (res: InstructionIndex)
        ensures
            res == self@.len(),
    {
        self.instructions.len()
    }

    /// Points the four-byte operand at `index` to the current end of the
    /// chunk (taken modulo 2^32).
    pub fn patch_instruction(&mut self, index: InstructionIndex)
        requires
            index + 4 <= old(self)@.len(),
        ensures
            final(self)@ == old(self)@.subrange(0, index as int) + u32_le(old(self)@.len() as u32)
                + old(self)@.subrange(index + 4, old(self)@.len() as int),
    {
        let current = self.instruction_index();
        self.patch_instruction_to(index, current)
    }

    /// Points the four-byte operand at `index` to `to` (taken modulo 2^32).
    pub fn patch_instruction_to(&mut self, index: InstructionIndex, to: InstructionIndex)
        requires
            index + 4 <= old(self)@.len(),
        ensures
            final(self)@ == old(self)@.subrange(0, index as int) + u32_le(to as u32)
                + old(self)@.subrange(index + 4, old(self)@.len() as int),
    {
        self.set_u32(index, to as u32);
    }

    /// The bytes of the chunk.
    pub fn as_slice(&self) -> (res: &[u8])
        ensures
            res@ == self@,
    {
        self.instructions.as_slice()
    }

    /// The byte at `pc`.
    pub fn get_u8(&self, pc: usize) -> (res: u8)
        requires
            pc < self@.len(),
        ensures
            res == self@[pc as int],
    {
        self.instructions[pc]
    }

    /// The `u32` whose little-endian bytes stand at `pc`.
    pub fn get_u32(&self, pc: usize) -> (res: u32)
        requires
            pc + 4 <= self@.len(),
        ensures
            u32_le(res) == self@.subrange(pc as int, pc + 4),
    {
        let n = self.instructions.len();
        u32_from_le_bytes(self.instructions[pc], self.instructions[pc + 1], self.instructions[pc + 2], self.instructions[pc + 3])
    }

    /// Appends the encoding of `op`.
    pub fn add_opcode(&mut self, op: Opcode)
        ensures
            final(self)@ == old(self)@ + encode(op),
    {
        let code = opcode_byte(op);
        self.instructions.push(code);
        let ghost after_code = self@;
        match op {
            Opcode::Constant(x) | Opcode::DefineGlobal(x) | Opcode::GetGlobal(x) | Opcode::SetGlobal(x)
            | Opcode::GetLocal(x) | Opcode::SetLocal(x) | Opcode::GetUpvalue(x) | Opcode::SetUpvalue(x)
            | Opcode::GetProperty(x) | Opcode::SetProperty(x) | Opcode::Closure(x) | Opcode::Method(x)
            | Opcode::Import(x) | Opcode::ImportGlobal(x) => {
                self.add_u32(x);
            },
            Opcode::Jump(x) | Opcode::JumpIfFalse(x) => {
                let v = x as u16;
                self.instructions.push((v & 0xff) as u8);
                self.instructions.push(((v >> 8u16) & 0xff) as u8);
            },
            Opcode::Number(v) | Opcode::String(v) => {
                self.instructions.push((v & 0xff) as u8);
                self.instructions.push(((v >> 8u16) & 0xff) as u8);
            },
            Opcode::Call(x) | Opcode::Class(x) | Opcode::List(x) => {
                self.instructions.push(x);
            },
            Opcode::Invoke(a, x) => {
                self.instructions.push(a);
                self.add_u32(x);
            },
            _ => {},
        }
        assert(self@ =~= old(self)@ + encode(op));
    }

    /// Overwrites the two bytes at `index` with the little-endian bytes of
    /// `value`.
    pub fn set_i16(&mut self, index: InstructionIndex, value: i16)
        requires
            index + 2 <= old(self)@.len(),
        ensures
            final(self)@ == old(self)@.subrange(0, index as int) + i16_le(value)
                + old(self)@.subrange(index + 2, old(self)@.len() as int),
    {
        let n = self.instructions.len();
        #[verifier::truncate]
        let v = value as u16;
        let lo = (v & 0xff) as u8;
        let hi = ((v >> 8u16) & 0xff) as u8;
        self.instructions.set(index, lo);
        self.instructions.set(index + 1, hi);
        assert(self@ =~= old(self)@.subrange(0, index as int) + i16_le(value)
            + old(self)@.subrange(index + 2, old(self)@.len() as int));
    }

    /// The instructions of a chunk whose bytes are whole instructions, each
    /// jump given with the index of the instruction it lands on (where one
    /// starts there, up to index `i16::MAX`) in place of its byte offset.
    pub fn instructions(&self) -> (res: Vec<Opcode>)
        requires
            well_formed_from(self@, 0),
        ensures
            jumps_by_index(decoded(self@), res@),
    {
        let ops = crate::opcode::decode_all(self.instructions.as_slice());
        proof { lemma_decoded_of(self@, ops@); }
        let n = ops.len();
        // The offset of each instruction, and of the end.
        let total = self.instructions.len();
        let mut offsets: Vec<usize> = Vec::new();
        offsets.push(0);
        proof { assert(ops@.take(0) =~= Seq::<Opcode>::empty()); }
        let mut k: usize = 0;
        while k < n
            invariant
                n == ops@.len(),
                k <= n,
                offsets@.len() == k + 1,
                total == self@.len(),
                encode_all(ops@).len() == self@.len(),
                forall|j: int| 0 <= j <= k ==> #[trigger] offsets@[j] == offset_of(ops@, j),
            decreases n - k,
        {
            proof {
                lemma_offset_step(ops@, k as int);
                lemma_offset_bound(ops@, k as int + 1);
            }
            let next = offsets[k] + crate::opcode::encoded_len(ops[k]);
            offsets.push(next);
            k = k + 1;
        }
        let mut res: Vec<Opcode> = Vec::new();
        let mut k: usize = 0;
        while k < n
            invariant
                n == ops@.len(),
                k <= n,
                offsets@.len() == n + 1,
                forall|j: int| #![trigger offsets@[j]] #![trigger offset_of(ops@, j)]
                    0 <= j <= n ==> offsets@[j] == offset_of(ops@, j),
                res@.len() == k,
                forall|j: int| 0 <= j < k ==> #[trigger] indexed_at(ops@, j, res@[j]),
            decreases n - k,
        {
            let op = ops[k];
            let indexed = match op {
                Opcode::Jump(r) => match find_instruction(&offsets, offsets[k], r) {
                    Some(j) => Opcode::Jump(j),
                    None => op,
                },
                Opcode::JumpIfFalse(r) => match find_instruction(&offsets, offsets[k], r) {
                    Some(j) => Opcode::JumpIfFalse(j),
                    None => op,
                },
                _ => op,
            };
            proof {
                match op {
                    Opcode::Jump(r) => {
                        if let Opcode::Jump(j) = indexed {
                            if indexed != op {
                                assert(offset_of(ops@, j as int) == jump_target(ops@, k as int, r));
                            }
                        }
                    },
                    Opcode::JumpIfFalse(r) => {
                        if let Opcode::JumpIfFalse(j) = indexed {
                            if indexed != op {
                                assert(offset_of(ops@, j as int) == jump_target(ops@, k as int, r));
                            }
                        }
                    },
                    _ => {},
                }
            }
            res.push(indexed);
            k = k + 1;
        }
        res
    }
}

/// The instructions that a well-formed chunk decodes into.
pub open spec fn decoded(bytes: Seq<u8>) -> Seq<Opcode> {
    choose|ops: Seq<Opcode>| encode_all(ops) == bytes
}

/// The instructions a chunk decodes into are those whose encoding it is.
pub proof fn lemma_decoded_of(bytes: Seq<u8>, ops: Seq<Opcode>)
    requires
        encode_all(ops) == bytes,
    ensures
        decoded(bytes) == ops,
{
    let d = decoded(bytes);
    assert(encode_all(d) == bytes);
    lemma_encode_all_injective(d, ops);
}

/// Two instruction sequences with the same encoding are equal.
pub proof fn lemma_encode_all_injective(a: Seq<Opcode>, b: Seq<Opcode>)
    requires
        encode_all(a) == encode_all(b),
    ensures
        a == b,
    decreases a.len() + b.len(),
{
    if a.len() == 0 || b.len() == 0 {
        if a.len() != 0 {
            lemma_encode_all_split(a, 0);
            crate::opcode::lemma_encode_len(a[0]);
        }
        if b.len() != 0 {
            lemma_encode_all_split(b, 0);
            crate::opcode::lemma_encode_len(b[0]);
        }
        assert(a =~= b);
    } else {
        let bytes = encode_all(a);
        lemma_encode_all_split(a, 0);
        lemma_encode_all_split(b, 0);
        assert(a.take(0) =~= Seq::<Opcode>::empty());
        assert(b.take(0) =~= Seq::<Opcode>::empty());
        assert(encode_all(Seq::<Opcode>::empty()) =~= Seq::<u8>::empty());
        crate::opcode::lemma_encode_len(a[0]);
        crate::opcode::lemma_encode_len(b[0]);
        assert(bytes.subrange(0, encode(a[0]).len() as int) =~= encode(a[0]));
        assert(bytes.subrange(0, encode(b[0]).len() as int) =~= encode(b[0]));
        crate::opcode::lemma_encoding_unique(bytes, 0, a[0], b[0]);
        let ra = a.skip(1);
        let rb = b.skip(1);
        let la = encode(a[0]).len() as int;
        assert(encode_all(ra) =~= bytes.subrange(la, bytes.len() as int));
        assert(encode_all(rb) =~= bytes.subrange(la, bytes.len() as int));
        lemma_encode_all_injective(ra, rb);
        assert(a =~= seq![a[0]] + ra);
        assert(b =~= seq![b[0]] + rb);
    }
}

/// The byte offset a jump at instruction `k` with relative operand `r`
/// lands on: the end of the jump instruction, moved by `r`.
pub open spec fn jump_target(ops: Seq<Opcode>, k: int, r: i16) -> int {
    offset_of(ops, k) + 3 + r
}

/// Instruction `k` of `ops` shown with its jump landing given by index:
/// a jump to the start of instruction `j` (`j` up to `i16::MAX`, the end
/// counting as instruction `ops.len()`) becomes a jump to `j`; any other
/// instruction, and a jump that lands on no such start, stays as it is.
pub open spec fn indexed_at(ops: Seq<Opcode>, k: int, shown: Opcode) -> bool {
    match ops[k] {
        Opcode::Jump(r) => if exists|j: int| 0 <= j <= ops.len() && j <= 0x7fff && #[trigger] offset_of(ops, j) == jump_target(ops, k, r) {
            shown matches Opcode::Jump(j) && 0 <= j <= ops.len() && offset_of(ops, j as int) == jump_target(ops, k, r)
        } else {
            shown == ops[k]
        },
        Opcode::JumpIfFalse(r) => if exists|j: int| 0 <= j <= ops.len() && j <= 0x7fff && #[trigger] offset_of(ops, j) == jump_target(ops, k, r) {
            shown matches Opcode::JumpIfFalse(j) && 0 <= j <= ops.len() && offset_of(ops, j as int) == jump_target(ops, k, r)
        } else {
            shown == ops[k]
        },
        _ => shown == ops[k],
    }
}

/// `shown` is `ops` with each jump given by the index it lands on.
pub open spec fn jumps_by_index(ops: Seq<Opcode>, shown: Seq<Opcode>) -> bool {
    &&& shown.len() == ops.len()
    &&& forall|k: int| 0 <= k < ops.len() ==> #[trigger] indexed_at(ops, k, shown[k])
}

/// The index, up to `i16::MAX`, of the offset in `offsets` that a jump
/// starting at `start` with operand `r` lands on.
fn find_instruction(offsets: &Vec<usize>, start: usize, r: i16) -> (res: Option<i16>)
    ensures
        res matches Some(j) ==> 0 <= j < offsets@.len() && offsets@[j as int] == start + 3 + r,
        res is None ==> forall|j: int| 0 <= j < offsets@.len() && j <= 0x7fff ==> #[trigger] offsets@[j] != start + 3 + r,
{
    let target: i128 = start as i128 + 3 + r as i128;
    let mut j: usize = 0;
    while j < offsets.len() && j <= 0x7fff
        invariant
            target == start + 3 + r,
            forall|i: int| 0 <= i < j && i < offsets@.len() ==> #[trigger] offsets@[i] != start + 3 + r,
        decreases offsets@.len() - j,
    {
        if offsets[j] as i128 == target {
            return Some(j as i16);
        }
        j = j + 1;
    }
    None
}

/// The opcode byte of an instruction.
pub fn opcode_byte(op: Opcode) -> (res: u8)
    ensures
        res == encode(op)[0],
{
    match op {
        Opcode::Constant(_) => CONSTANT,
        Opcode::True => TRUE,
        Opcode::False => FALSE,
        Opcode::Nil => NIL,
        Opcode::Negate => NEGATE,
        Opcode::Add => ADD,
        Opcode::Subtract => SUBTRACT,
        Opcode::Multiply => MULTIPLY,
        Opcode::Divide => DIVIDE,
        Opcode::Not => NOT,
        Opcode::Equal => EQUAL,
        Opcode::Greater => GREATER,
        Opcode::Less => LESS,
        Opcode::Pop => POP,
        Opcode::Return => RETURN,
        Opcode::Print => PRINT,
        Opcode::DefineGlobal(_) => DEFINE_GLOBAL,
        Opcode::GetGlobal(_) => GET_GLOBAL,
        Opcode::SetGlobal(_) => SET_GLOBAL,
        Opcode::GetLocal(_) => GET_LOCAL,
        Opcode::SetLocal(_) => SET_LOCAL,
        Opcode::GetUpvalue(_) => GET_UPVALUE,
        Opcode::SetUpvalue(_) => SET_UPVALUE,
        Opcode::GetProperty(_) => GET_PROPERTY,
        Opcode::SetProperty(_) => SET_PROPERTY,
        Opcode::Jump(_) => JUMP,
        Opcode::JumpIfFalse(_) => JUMP_IF_FALSE,
        Opcode::Call(_) => CALL,
        Opcode::Invoke(_, _) => INVOKE,
        Opcode::CloseUpvalue => CLOSE_UPVALUE,
        Opcode::Class(_) => CLASS,
        Opcode::Closure(_) => CLOSURE,
        Opcode::Method(_) => METHOD,
        Opcode::Import(_) => IMPORT,
        Opcode::ImportGlobal(_) => IMPORT_GLOBAL,
        Opcode::List(_) => LIST,
        Opcode::GetIndex => GET_INDEX,
        Opcode::SetIndex => SET_INDEX,
        Opcode::Number(_) => NUMBER,
        Opcode::String(_) => STRING,
    }
}

/// The four little-endian bytes of `v`.
pub fn u32_to_le_bytes(v: u32) -> (res: [u8; 4])
    ensures
        res@ == u32_le(v),
{
    let res = [(v & 0xff) as u8, ((v >> 8u32) & 0xff) as u8, ((v >> 16u32) & 0xff) as u8, ((v >> 24u32) & 0xff) as u8];
    assert(res@ =~= u32_le(v));
    res
}

/// The `u32` with little-endian bytes `b0, b1, b2, b3`.
pub fn u32_from_le_bytes(b0: u8, b1: u8, b2: u8, b3: u8) -> (res: u32)
    ensures
        u32_le(res) == seq![b0, b1, b2, b3],
{
    let res: u32 = (b0 as u32) | ((b1 as u32) << 8u32) | ((b2 as u32) << 16u32) | ((b3 as u32) << 24u32);
    assert((res & 0xff) as u8 == b0 && ((res >> 8u32) & 0xff) as u8 == b1 && ((res >> 16u32) & 0xff) as u8 == b2
        && ((res >> 24u32) & 0xff) as u8 == b3) by (bit_vector)
        requires
            res == (b0 as u32) | ((b1 as u32) << 8u32) | ((b2 as u32) << 16u32) | ((b3 as u32) << 24u32);
    assert(u32_le(res) =~= seq![b0, b1, b2, b3]);
    res
}

/// A compiled program: its chunks and the tables its instructions refer to.
#[derive(Debug)]
pub struct Module {
    chunks: Vec<Chunk>,
    constants: Vec<Constant>,
    closures: Vec<Closure>,
    classes: Vec<Class>,
    identifiers: Vec<String>,
}

impl Module {
    pub closed spec fn spec_chunks(&self) -> Seq<Chunk> {
        self.chunks@
    }

    pub closed spec fn spec_constants(&self) -> Seq<Constant> {
        self.constants@
    }

    pub closed spec fn spec_closures(&self) -> Seq<Closure> {
        self.closures@
    }

    pub closed spec fn spec_classes(&self) -> Seq<Class> {
        self.classes@
    }

    pub closed spec fn spec_identifiers(&self) -> Seq<Seq<char>> {
        self.identifiers@.map_values(|s: String| s@)
    }

    /// An empty module.
    pub fn new() -> (res: Module)
        ensures
            res.spec_chunks().len() == 0,
            res.spec_constants().len() == 0,
            res.spec_closures().len() == 0,
            res.spec_classes().len() == 0,
            res.spec_identifiers().len() == 0,
    {
        Module {
            chunks: Vec::new(),
            constants: Vec::new(),
            closures: Vec::new(),
            classes: Vec::new(),
            identifiers: Vec::new(),
        }
    }

    /// The chunk at `index`.
    pub fn chunk(&self, index: ChunkIndex) -> (res: &Chunk)
        requires
            index < self.spec_chunks().len(),
        ensures
            *res == self.spec_chunks()[index as int],
    {
        &self.chunks[index]
    }

    /// The chunk at `index`, for writing.
    pub fn chunk_mut(&mut self, index: ChunkIndex) -> (res: &mut Chunk)
        requires
            index < old(self).spec_chunks().len(),
        ensures
            *res == old(self).spec_chunks()[index as int],
            final(self).spec_chunks() == old(self).spec_chunks().update(index as int, *final(res)),
            final(self).spec_constants() == old(self).spec_constants(),
            final(self).spec_closures() == old(self).spec_closures(),
            final(self).spec_classes() == old(self).spec_classes(),
            final(self).spec_identifiers() == old(self).spec_identifiers(),
    {
        &mut self.chunks[index]
    }

    /// Adds an empty chunk and returns its index.
    pub fn add_chunk(&mut self) -> (res: ChunkIndex)
        ensures
            final(self).spec_chunks() == old(self).spec_chunks().push(final(self).spec_chunks().last()),
            final(self).spec_chunks().last()@.len() == 0,
            res == old(self).spec_chunks().len(),
            final(self).spec_constants() == old(self).spec_constants(),
            final(self).spec_closures() == old(self).spec_closures(),
            final(self).spec_classes() == old(self).spec_classes(),
            final(self).spec_identifiers() == old(self).spec_identifiers(),
    {
        self.chunks.push(Chunk::new());
        self.chunks.len() - 1
    }

    /// Adds a constant and returns its index.
    pub fn add_constant(&mut self, constant: Constant) -> (res: ConstantIndex)
        ensures
            final(self).spec_constants() == old(self).spec_constants().push(constant),
            res == old(self).spec_constants().len(),
            final(self).spec_chunks() == old(self).spec_chunks(),
            final(self).spec_closures() == old(self).spec_closures(),
            final(self).spec_classes() == old(self).spec_classes(),
            final(self).spec_identifiers() == old(self).spec_identifiers(),
    {
        self.constants.push(constant);
        self.constants.len() - 1
    }

    /// Adds a closure and returns its index.
    pub fn add_closure(&mut self, closure: Closure) -> (res: ClosureIndex)
        ensures
            final(self).spec_closures() == old(self).spec_closures().push(closure),
            res == old(self).spec_closures().len(),
            final(self).spec_chunks() == old(self).spec_chunks(),
            final(self).spec_constants() == old(self).spec_constants(),
            final(self).spec_classes() == old(self).spec_classes(),
            final(self).spec_identifiers() == old(self).spec_identifiers(),
    {
        self.closures.push(closure);
        self.closures.len() - 1
    }

    /// Adds a class and returns its index.
    pub fn add_class(&mut self, class: Class) -> (res: ClassIndex)
        ensures
            final(self).spec_classes() == old(self).spec_classes().push(class),
            res == old(self).spec_classes().len(),
            final(self).spec_chunks() == old(self).spec_chunks(),
            final(self).spec_constants() == old(self).spec_constants(),
            final(self).spec_closures() == old(self).spec_closures(),
            final(self).spec_identifiers() == old(self).spec_identifiers(),
    {
        self.classes.push(class);
        self.classes.len() - 1
    }

    /// Adds an identifier and returns its index.
    pub fn add_identifier(&mut self, identifier: &str) -> (res: IdentifierIndex)
        ensures
            final(self).spec_identifiers() == old(self).spec_identifiers().push(identifier@),
            res == old(self).spec_identifiers().len(),
            final(self).spec_chunks() == old(self).spec_chunks(),
            final(self).spec_constants() == old(self).spec_constants(),
            final(self).spec_closures() == old(self).spec_closures(),
            final(self).spec_classes() == old(self).spec_classes(),
    {
        let ghost before = self.identifiers@;
        self.identifiers.push(identifier.to_string());
        assert(self.identifiers@.map_values(|s: String| s@) =~= before.map_values(|s: String| s@).push(identifier@));
        self.identifiers.len() - 1
    }

    /// All constants.
    pub fn constants(&self) -> (res: &[Constant])
        ensures
            res@ == self.spec_constants(),
    {
        self.constants.as_slice()
    }

    /// All closures.
    pub fn closures(&self) -> (res: &[Closure])
        ensures
            res@ == self.spec_closures(),
    {
        self.closures.as_slice()
    }

    /// All classes.
    pub fn classes(&self) -> (res: &[Class])
        ensures
            res@ == self.spec_classes(),
    {
        self.classes.as_slice()
    }

    /// All identifiers.
    pub fn identifiers(&self) -> (res: &[String])
        ensures
            res@.map_values(|s: String| s@) == self.spec_identifiers(),
    {
        self.identifiers.as_slice()
    }

    /// The constant at `index`.
    pub fn constant(&self, index: ConstantIndex) -> (res: &Constant)
        requires
            index < self.spec_constants().len(),
        ensures
            *res == self.spec_constants()[index as int],
    {
        &self.constants[index]
    }

    /// The closure at `index`.
    pub fn closure(&self, index: ClosureIndex) -> (res: &Closure)
        requires
            index < self.spec_closures().len(),
        ensures
            *res == self.spec_closures()[index as int],
    {
        &self.closures[index]
    }

    /// The class at `index`.
    pub fn class(&self, index: ClassIndex) -> (res: &Class)
        requires
            index < self.spec_classes().len(),
        ensures
            *res == self.spec_classes()[index as int],
    {
        &self.classes[index]
    }

    /// The identifier at `index`.
    pub fn identifier(&self, index: IdentifierIndex) -> (res: &str)
        requires
            index < self.spec_identifiers().len(),
        ensures
            res@ == self.spec_identifiers()[index as int],
    {
        self.identifiers[index].as_str()
    }

    /// All chunks.
    pub fn chunks(&self) -> (res: &[Chunk])
        ensures
            res@ == self.spec_chunks(),
    {
        self.chunks.as_slice()
    }
}

/// Reading back a `u32` written by `set_u32` gives the value written.
pub proof fn law_set_then_get_u32(before: Seq<u8>, index: int, value: u32)
    requires
        0 <= index,
        index + 4 <= before.len(),
    ensures
        ({
            let after = before.subrange(0, index) + u32_le(value) + before.subrange(index + 4, before.len() as int);
            &&& after.len() == before.len()
            &&& after.subrange(index, index + 4) == u32_le(value)
            &&& forall|j: int| 0 <= j < before.len() && !(index <= j < index + 4) ==> after[j] == before[j]
        }),
{
    let after = before.subrange(0, index) + u32_le(value) + before.subrange(index + 4, before.len() as int);
    assert(after.subrange(index, index + 4) =~= u32_le(value));
}

/// One append to a chunk: a byte, or a four-byte number.
pub enum Append {
    Byte(u8),
    Word(u32),
}

/// The bytes one append adds.
pub open spec fn append_bytes(a: Append) -> Seq<u8> {
    match a {
        Append::Byte(b) => seq![b],
        Append::Word(v) => u32_le(v),
    }
}

/// The bytes the appends `appends` add, in order.
pub open spec fn appends_bytes(appends: Seq<Append>) -> Seq<u8>
    decreases appends.len(),
{
    if appends.len() == 0 {
        Seq::empty()
    } else {
        appends_bytes(appends.drop_last()) + append_bytes(appends.last())
    }
}

/// A chunk built from an empty one by appends alone (`add_u8` and
/// `add_u32`, each adding the bytes its contract gives, the chunk seen
/// through `as_slice` after each) holds exactly the bytes of those appends
/// in the order made.
pub proof fn law_chunk_appends(chunks: Seq<Seq<u8>>, appends: Seq<Append>)
    requires
        chunks.len() == appends.len() + 1,
        chunks[0] == Seq::<u8>::empty(),
        forall|k: int| 0 <= k < appends.len() ==> #[trigger] chunks[k + 1] == chunks[k] + append_bytes(appends[k]),
    ensures
        chunks.last() == appends_bytes(appends),
    decreases appends.len(),
{
    if appends.len() == 0 {
        assert(chunks.last() =~= appends_bytes(appends));
    } else {
        let n = appends.len() - 1;
        let c = chunks.drop_last();
        let a = appends.drop_last();
        assert forall|k: int| 0 <= k < a.len() implies #[trigger] c[k + 1] == c[k] + append_bytes(a[k]) by {
            assert(chunks[k + 1] == chunks[k] + append_bytes(appends[k]));
        }
        law_chunk_appends(c, a);
        assert(chunks[n + 1] == chunks[n] + append_bytes(appends[n]));
    }
}

} // verus!
