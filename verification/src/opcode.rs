use vstd::prelude::*;

verus! {

/// Pushes a constant from the module's constant table.
pub const CONSTANT: u8 = 0;
pub const TRUE: u8 = 1;
pub const FALSE: u8 = 2;
pub const NIL: u8 = 3;

pub const NEGATE: u8 = 4;
pub const ADD: u8 = 5;
pub const SUBTRACT: u8 = 6;
pub const MULTIPLY: u8 = 7;
pub const DIVIDE: u8 = 8;

pub const NOT: u8 = 9;
pub const EQUAL: u8 = 10;
pub const GREATER: u8 = 11;
pub const LESS: u8 = 12;

pub const POP: u8 = 13;

pub const RETURN: u8 = 14;
pub const PRINT: u8 = 15;

pub const DEFINE_GLOBAL: u8 = 16;
pub const GET_GLOBAL: u8 = 17;
pub const SET_GLOBAL: u8 = 18;
pub const GET_LOCAL: u8 = 19;
pub const SET_LOCAL: u8 = 20;
pub const GET_UPVALUE: u8 = 21;
pub const SET_UPVALUE: u8 = 22;
pub const SET_PROPERTY: u8 = 23;
pub const GET_PROPERTY: u8 = 24;

pub const JUMP: u8 = 25;
pub const JUMP_IF_FALSE: u8 = 26;
pub const CALL: u8 = 27;
pub const INVOKE: u8 = 28;
pub const CLOSE_UPVALUE: u8 = 29;

pub const CLASS: u8 = 30;
pub const CLOSURE: u8 = 31;
pub const METHOD: u8 = 32;

pub const IMPORT: u8 = 33;
pub const IMPORT_GLOBAL: u8 = 34;

pub const LIST: u8 = 35;
pub const GET_INDEX: u8 = 36;
pub const SET_INDEX: u8 = 37;

pub const NUMBER: u8 = 38;
pub const STRING: u8 = 39;

/// A decoded instruction.
#[derive(Copy, Clone, Debug, PartialEq, Eq)]
pub enum Opcode {
    Constant(u32),
    True,
    False,
    Nil,

    Negate,
    Add,
    Subtract,
    Multiply,
    Divide,

    Not,
    Equal,
    Greater,
    Less,

    Pop,

    Return,
    Print,

    DefineGlobal(u32),
    GetGlobal(u32),
    SetGlobal(u32),
    GetLocal(u32),
    SetLocal(u32),
    GetUpvalue(u32),
    SetUpvalue(u32),
    GetProperty(u32),
    SetProperty(u32),

    Jump(i16),
    JumpIfFalse(i16),
    Call(u8),
    Invoke(u8, u32),
    CloseUpvalue,

    Class(u8),
    Closure(u32),
    Method(u32),

    Import(u32),
    ImportGlobal(u32),

    List(u8),
    GetIndex,
    SetIndex,

    Number(u16),
    String(u16),
}

/// The little-endian bytes of a `u32`.
pub open spec fn u32_le(v: u32) -> Seq<u8> {
    seq![(v & 0xff) as u8, ((v >> 8u32) & 0xff) as u8, ((v >> 16u32) & 0xff) as u8, ((v >> 24u32) & 0xff) as u8]
}

/// The little-endian bytes of a `u16`.
pub open spec fn u16_le(v: u16) -> Seq<u8> {
    seq![(v & 0xff) as u8, ((v >> 8u16) & 0xff) as u8]
}

/// The little-endian two's complement bytes of an `i16`.
pub open spec fn i16_le(v: i16) -> Seq<u8> {
    u16_le(v as u16)
}

/// The bytes that stand for one instruction: its opcode byte, then its
/// operands in little-endian order.
pub open spec fn encode(op: Opcode) -> Seq<u8> {
    match op {
        Opcode::Constant(x) => seq![CONSTANT] + u32_le(x),
        Opcode::True => seq![TRUE],
        Opcode::False => seq![FALSE],
        Opcode::Nil => seq![NIL],
        Opcode::Negate => seq![NEGATE],
        Opcode::Add => seq![ADD],
        Opcode::Subtract => seq![SUBTRACT],
        Opcode::Multiply => seq![MULTIPLY],
        Opcode::Divide => seq![DIVIDE],
        Opcode::Not => seq![NOT],
        Opcode::Equal => seq![EQUAL],
        Opcode::Greater => seq![GREATER],
        Opcode::Less => seq![LESS],
        Opcode::Pop => seq![POP],
        Opcode::Return => seq![RETURN],
        Opcode::Print => seq![PRINT],
        Opcode::DefineGlobal(x) => seq![DEFINE_GLOBAL] + u32_le(x),
        Opcode::GetGlobal(x) => seq![GET_GLOBAL] + u32_le(x),
        Opcode::SetGlobal(x) => seq![SET_GLOBAL] + u32_le(x),
        Opcode::GetLocal(x) => seq![GET_LOCAL] + u32_le(x),
        Opcode::SetLocal(x) => seq![SET_LOCAL] + u32_le(x),
        Opcode::GetUpvalue(x) => seq![GET_UPVALUE] + u32_le(x),
        Opcode::SetUpvalue(x) => seq![SET_UPVALUE] + u32_le(x),
        Opcode::GetProperty(x) => seq![GET_PROPERTY] + u32_le(x),
        Opcode::SetProperty(x) => seq![SET_PROPERTY] + u32_le(x),
        Opcode::Jump(x) => seq![JUMP] + i16_le(x),
        Opcode::JumpIfFalse(x) => seq![JUMP_IF_FALSE] + i16_le(x),
        Opcode::Call(x) => seq![CALL, x],
        Opcode::Invoke(a, x) => seq![INVOKE, a] + u32_le(x),
        Opcode::CloseUpvalue => seq![CLOSE_UPVALUE],
        Opcode::Class(x) => seq![CLASS, x],
        Opcode::Closure(x) => seq![CLOSURE] + u32_le(x),
        Opcode::Method(x) => seq![METHOD] + u32_le(x),
        Opcode::Import(x) => seq![IMPORT] + u32_le(x),
        Opcode::ImportGlobal(x) => seq![IMPORT_GLOBAL] + u32_le(x),
        Opcode::List(x) => seq![LIST, x],
        Opcode::GetIndex => seq![GET_INDEX],
        Opcode::SetIndex => seq![SET_INDEX],
        Opcode::Number(x) => seq![NUMBER] + u16_le(x),
        Opcode::String(x) => seq![STRING] + u16_le(x),
    }
}

/// The length of the instruction that starts with opcode byte `b`
/// (0 for a byte that is no opcode).
pub open spec fn instruction_len(b: u8) -> nat {
    if b == CONSTANT { 5 }
    else if 1 <= b <= 15 { 1 }
    else if 16 <= b <= 24 { 5 }
    else if b == JUMP || b == JUMP_IF_FALSE { 3 }
    else if b == CALL || b == CLASS || b == LIST { 2 }
    else if b == INVOKE { 6 }
    else if b == CLOSE_UPVALUE || b == GET_INDEX || b == SET_INDEX { 1 }
    else if 31 <= b <= 34 { 5 }
    else if b == NUMBER || b == STRING { 3 }
    else { 0 }
}

/// An instruction can be read at `pos`: its opcode byte is known and all of
/// its operand bytes are there.
pub open spec fn decodable_at(bytes: Seq<u8>, pos: int) -> bool {
    0 <= pos < bytes.len() && instruction_len(bytes[pos]) > 0 && pos + instruction_len(bytes[pos]) <= bytes.len()
}

/// The bytes from `pos` on are a sequence of whole instructions.
pub open spec fn well_formed_from(bytes: Seq<u8>, pos: int) -> bool
    decreases bytes.len() - pos,
{
    if pos < 0 || pos > bytes.len() {
        false
    } else if pos == bytes.len() {
        true
    } else {
        decodable_at(bytes, pos) && well_formed_from(bytes, pos + instruction_len(bytes[pos]))
    }
}

/// The concatenated encoding of a sequence of instructions.
pub open spec fn encode_all(ops: Seq<Opcode>) -> Seq<u8>
    decreases ops.len(),
{
    if ops.len() == 0 {
        Seq::empty()
    } else {
        encode_all(ops.drop_last()) + encode(ops.last())
    }
}

/// The instruction `op` is encoded in `bytes` at `pos`.
pub open spec fn encoded_at(bytes: Seq<u8>, pos: int, op: Opcode) -> bool {
    0 <= pos && pos + encode(op).len() <= bytes.len()
        && bytes.subrange(pos, pos + encode(op).len()) == encode(op)
}

proof fn lemma_u32_le_inj(a: u32, b: u32)
    requires
        u32_le(a) == u32_le(b),
    ensures
        a == b,
{
    let sa = u32_le(a);
    let sb = u32_le(b);
    assert(sa[0] == sb[0] && sa[1] == sb[1] && sa[2] == sb[2] && sa[3] == sb[3]);
    assert(((a & 0xff) as u8 == (b & 0xff) as u8 && ((a >> 8u32) & 0xff) as u8 == ((b >> 8u32) & 0xff) as u8
        && ((a >> 16u32) & 0xff) as u8 == ((b >> 16u32) & 0xff) as u8 && ((a >> 24u32) & 0xff) as u8 == ((b >> 24u32) & 0xff) as u8)
        ==> a == b) by (bit_vector);
}

proof fn lemma_u16_le_inj(a: u16, b: u16)
    requires
        u16_le(a) == u16_le(b),
    ensures
        a == b,
{
    let sa = u16_le(a);
    let sb = u16_le(b);
    assert(sa[0] == sb[0] && sa[1] == sb[1]);
    assert(((a & 0xff) as u8 == (b & 0xff) as u8 && ((a >> 8u16) & 0xff) as u8 == ((b >> 8u16) & 0xff) as u8)
        ==> a == b) by (bit_vector);
}

proof fn lemma_i16_le_inj(a: i16, b: i16)
    requires
        i16_le(a) == i16_le(b),
    ensures
        a == b,
{
    lemma_u16_le_inj(a as u16, b as u16);
    assert((a as u16 == b as u16) ==> a == b) by (bit_vector);
}

/// The length of an instruction's encoding is fixed by its opcode byte.
pub proof fn lemma_encode_len(op: Opcode)
    ensures
        encode(op).len() == instruction_len(encode(op)[0]),
        encode(op).len() >= 1,
{
}

/// Decoding is unambiguous: at most one instruction is encoded at a given
/// position, so the bytes of a chunk determine its instructions.
pub proof fn lemma_encoding_unique(bytes: Seq<u8>, pos: int, a: Opcode, b: Opcode)
    requires
        encoded_at(bytes, pos, a),
        encoded_at(bytes, pos, b),
    ensures
        a == b,
{
    let ea = encode(a);
    let eb = encode(b);
    assert(ea[0] == bytes[pos]);
    assert(eb[0] == bytes[pos]);
    lemma_encode_len(a);
    lemma_encode_len(b);
    assert(ea.len() == eb.len());
    assert(ea =~= eb);
    match a {
        Opcode::Jump(x) => { if let Opcode::Jump(y) = b { assert(ea.subrange(1, 3) =~= i16_le(x)); assert(eb.subrange(1, 3) =~= i16_le(y)); lemma_i16_le_inj(x, y); } },
        Opcode::JumpIfFalse(x) => { if let Opcode::JumpIfFalse(y) = b { assert(ea.subrange(1, 3) =~= i16_le(x)); assert(eb.subrange(1, 3) =~= i16_le(y)); lemma_i16_le_inj(x, y); } },
        Opcode::Number(x) => { if let Opcode::Number(y) = b { assert(ea.subrange(1, 3) =~= u16_le(x)); assert(eb.subrange(1, 3) =~= u16_le(y)); lemma_u16_le_inj(x, y); } },
        Opcode::String(x) => { if let Opcode::String(y) = b { assert(ea.subrange(1, 3) =~= u16_le(x)); assert(eb.subrange(1, 3) =~= u16_le(y)); lemma_u16_le_inj(x, y); } },
        Opcode::Invoke(c, x) => { if let Opcode::Invoke(d, y) = b { assert(ea[1] == eb[1]); assert(ea.subrange(2, 6) =~= u32_le(x)); assert(eb.subrange(2, 6) =~= u32_le(y)); lemma_u32_le_inj(x, y); } },
        Opcode::Call(x) => { assert(ea[1] == eb[1]); },
        Opcode::Class(x) => { assert(ea[1] == eb[1]); },
        Opcode::List(x) => { assert(ea[1] == eb[1]); },
        _ => {
            if ea.len() == 5 {
                assert(ea.subrange(1, 5) == eb.subrange(1, 5));
                match (a, b) {
                    (Opcode::Constant(x), Opcode::Constant(y)) => { assert(ea.subrange(1, 5) =~= u32_le(x)); assert(eb.subrange(1, 5) =~= u32_le(y)); lemma_u32_le_inj(x, y); },
                    (Opcode::DefineGlobal(x), Opcode::DefineGlobal(y)) => { assert(ea.subrange(1, 5) =~= u32_le(x)); assert(eb.subrange(1, 5) =~= u32_le(y)); lemma_u32_le_inj(x, y); },
                    (Opcode::GetGlobal(x), Opcode::GetGlobal(y)) => { assert(ea.subrange(1, 5) =~= u32_le(x)); assert(eb.subrange(1, 5) =~= u32_le(y)); lemma_u32_le_inj(x, y); },
                    (Opcode::SetGlobal(x), Opcode::SetGlobal(y)) => { assert(ea.subrange(1, 5) =~= u32_le(x)); assert(eb.subrange(1, 5) =~= u32_le(y)); lemma_u32_le_inj(x, y); },
                    (Opcode::GetLocal(x), Opcode::GetLocal(y)) => { assert(ea.subrange(1, 5) =~= u32_le(x)); assert(eb.subrange(1, 5) =~= u32_le(y)); lemma_u32_le_inj(x, y); },
                    (Opcode::SetLocal(x), Opcode::SetLocal(y)) => { assert(ea.subrange(1, 5) =~= u32_le(x)); assert(eb.subrange(1, 5) =~= u32_le(y)); lemma_u32_le_inj(x, y); },
                    (Opcode::GetUpvalue(x), Opcode::GetUpvalue(y)) => { assert(ea.subrange(1, 5) =~= u32_le(x)); assert(eb.subrange(1, 5) =~= u32_le(y)); lemma_u32_le_inj(x, y); },
                    (Opcode::SetUpvalue(x), Opcode::SetUpvalue(y)) => { assert(ea.subrange(1, 5) =~= u32_le(x)); assert(eb.subrange(1, 5) =~= u32_le(y)); lemma_u32_le_inj(x, y); },
                    (Opcode::GetProperty(x), Opcode::GetProperty(y)) => { assert(ea.subrange(1, 5) =~= u32_le(x)); assert(eb.subrange(1, 5) =~= u32_le(y)); lemma_u32_le_inj(x, y); },
                    (Opcode::SetProperty(x), Opcode::SetProperty(y)) => { assert(ea.subrange(1, 5) =~= u32_le(x)); assert(eb.subrange(1, 5) =~= u32_le(y)); lemma_u32_le_inj(x, y); },
                    (Opcode::Closure(x), Opcode::Closure(y)) => { assert(ea.subrange(1, 5) =~= u32_le(x)); assert(eb.subrange(1, 5) =~= u32_le(y)); lemma_u32_le_inj(x, y); },
                    (Opcode::Method(x), Opcode::Method(y)) => { assert(ea.subrange(1, 5) =~= u32_le(x)); assert(eb.subrange(1, 5) =~= u32_le(y)); lemma_u32_le_inj(x, y); },
                    (Opcode::Import(x), Opcode::Import(y)) => { assert(ea.subrange(1, 5) =~= u32_le(x)); assert(eb.subrange(1, 5) =~= u32_le(y)); lemma_u32_le_inj(x, y); },
                    (Opcode::ImportGlobal(x), Opcode::ImportGlobal(y)) => { assert(ea.subrange(1, 5) =~= u32_le(x)); assert(eb.subrange(1, 5) =~= u32_le(y)); lemma_u32_le_inj(x, y); },
                    _ => {},
                }
            }
        },
    }
}


fn read_u32(bytes: &[u8], pos: usize) -> (res: u32)
    requires
        pos + 4 <= bytes@.len(),
    ensures
        u32_le(res) == bytes@.subrange(pos as int, pos + 4),
{
    let res = crate::bytecode::u32_from_le_bytes(bytes[pos], bytes[pos + 1], bytes[pos + 2], bytes[pos + 3]);
    assert(bytes@.subrange(pos as int, pos + 4) =~= seq![bytes@[pos as int], bytes@[pos + 1], bytes@[pos + 2], bytes@[pos + 3]]);
    res
}

fn read_u16(bytes: &[u8], pos: usize) -> (res: u16)
    requires
        pos + 2 <= bytes@.len(),
    ensures
        u16_le(res) == bytes@.subrange(pos as int, pos + 2),
{
    let b0 = bytes[pos];
    let b1 = bytes[pos + 1];
    let res: u16 = (b0 as u16) | ((b1 as u16) << 8u16);
    assert((res & 0xff) as u8 == b0 && ((res >> 8u16) & 0xff) as u8 == b1) by (bit_vector)
        requires
            res == (b0 as u16) | ((b1 as u16) << 8u16);
    assert(bytes@.subrange(pos as int, pos + 2) =~= u16_le(res));
    res
}

fn read_i16(bytes: &[u8], pos: usize) -> (res: i16)
    requires
        pos + 2 <= bytes@.len(),
    ensures
        i16_le(res) == bytes@.subrange(pos as int, pos + 2),
{
    let u = read_u16(bytes, pos);
    let res = u as i16;
    assert(res as u16 == u) by (bit_vector)
        requires
            res == u as i16;
    res
}

/// Reads the instruction that starts at `pos`; returns it with its length.
pub fn decode_at(bytes: &[u8], pos: usize) -> (res: (Opcode, usize))
    requires
        decodable_at(bytes@, pos as int),
    ensures
        encoded_at(bytes@, pos as int, res.0),
        res.1 == encode(res.0).len(),
        res.1 == instruction_len(bytes@[pos as int]),
{
    let b = bytes[pos];
    let p = pos + 1;
    let op = if b == CONSTANT {
        Opcode::Constant(read_u32(bytes, p))
    } else if b == TRUE {
        Opcode::True
    } else if b == FALSE {
        Opcode::False
    } else if b == NIL {
        Opcode::Nil
    } else if b == NEGATE {
        Opcode::Negate
    } else if b == ADD {
        Opcode::Add
    } else if b == SUBTRACT {
        Opcode::Subtract
    } else if b == MULTIPLY {
        Opcode::Multiply
    } else if b == DIVIDE {
        Opcode::Divide
    } else if b == NOT {
        Opcode::Not
    } else if b == EQUAL {
        Opcode::Equal
    } else if b == GREATER {
        Opcode::Greater
    } else if b == LESS {
        Opcode::Less
    } else if b == POP {
        Opcode::Pop
    } else if b == RETURN {
        Opcode::Return
    } else if b == PRINT {
        Opcode::Print
    } else if b == DEFINE_GLOBAL {
        Opcode::DefineGlobal(read_u32(bytes, p))
    } else if b == GET_GLOBAL {
        Opcode::GetGlobal(read_u32(bytes, p))
    } else if b == SET_GLOBAL {
        Opcode::SetGlobal(read_u32(bytes, p))
    } else if b == GET_LOCAL {
        Opcode::GetLocal(read_u32(bytes, p))
    } else if b == SET_LOCAL {
        Opcode::SetLocal(read_u32(bytes, p))
    } else if b == GET_UPVALUE {
        Opcode::GetUpvalue(read_u32(bytes, p))
    } else if b == SET_UPVALUE {
        Opcode::SetUpvalue(read_u32(bytes, p))
    } else if b == GET_PROPERTY {
        Opcode::GetProperty(read_u32(bytes, p))
    } else if b == SET_PROPERTY {
        Opcode::SetProperty(read_u32(bytes, p))
    } else if b == JUMP {
        Opcode::Jump(read_i16(bytes, p))
    } else if b == JUMP_IF_FALSE {
        Opcode::JumpIfFalse(read_i16(bytes, p))
    } else if b == CALL {
        Opcode::Call(bytes[p])
    } else if b == INVOKE {
        let a = bytes[p];
        Opcode::Invoke(a, read_u32(bytes, p + 1))
    } else if b == CLOSE_UPVALUE {
        Opcode::CloseUpvalue
    } else if b == CLASS {
        Opcode::Class(bytes[p])
    } else if b == CLOSURE {
        Opcode::Closure(read_u32(bytes, p))
    } else if b == METHOD {
        Opcode::Method(read_u32(bytes, p))
    } else if b == IMPORT {
        Opcode::Import(read_u32(bytes, p))
    } else if b == IMPORT_GLOBAL {
        Opcode::ImportGlobal(read_u32(bytes, p))
    } else if b == LIST {
        Opcode::List(bytes[p])
    } else if b == GET_INDEX {
        Opcode::GetIndex
    } else if b == SET_INDEX {
        Opcode::SetIndex
    } else if b == NUMBER {
        Opcode::Number(read_u16(bytes, p))
    } else {
        Opcode::String(read_u16(bytes, p))
    };
    let len = instruction_len_of(b);
    proof {
        let e = encode(op);
        let s = bytes@.subrange(pos as int, pos + len);
        assert(e.len() == len);
        assert forall|i: int| 0 <= i < len implies s[i] == e[i] by {
            if i >= 1 {
                assert(s.subrange(1, len as int) =~= bytes@.subrange(p as int, pos + len));
            }
            if b == INVOKE && i >= 2 {
                assert(s.subrange(2, 6) =~= bytes@.subrange(p + 1, p + 5));
            }
        }
        assert(s =~= e);
    }
    (op, len)
}

/// The length of the instruction with opcode byte `b`; 0 for a byte that is
/// no opcode.
pub fn instruction_len_of(b: u8) -> (res: usize)
    ensures
        res == instruction_len(b),
{
    if b == CONSTANT { 5 }
    else if 1 <= b && b <= 15 { 1 }
    else if 16 <= b && b <= 24 { 5 }
    else if b == JUMP || b == JUMP_IF_FALSE { 3 }
    else if b == CALL || b == CLASS || b == LIST { 2 }
    else if b == INVOKE { 6 }
    else if b == CLOSE_UPVALUE || b == GET_INDEX || b == SET_INDEX { 1 }
    else if 31 <= b && b <= 34 { 5 }
    else if b == NUMBER || b == STRING { 3 }
    else { 0 }
}

pub proof fn lemma_encode_all_push(ops: Seq<Opcode>, op: Opcode)
    ensures
        encode_all(ops.push(op)) == encode_all(ops) + encode(op),
{
    assert(ops.push(op).drop_last() =~= ops);
}

/// Encoding a concatenation encodes each part in turn.
pub proof fn lemma_encode_all_concat(a: Seq<Opcode>, b: Seq<Opcode>)
    ensures
        encode_all(a + b) == encode_all(a) + encode_all(b),
    decreases b.len(),
{
    if b.len() == 0 {
        assert(a + b =~= a);
        assert(encode_all(b) =~= Seq::<u8>::empty());
        assert(encode_all(a) + encode_all(b) =~= encode_all(a));
    } else {
        lemma_encode_all_concat(a, b.drop_last());
        assert((a + b).drop_last() =~= a + b.drop_last());
        assert((a + b).last() == b.last());
        assert(encode_all(a) + encode_all(b) =~= encode_all(a) + encode_all(b.drop_last()) + encode(b.last()));
    }
}

/// The byte offset at which instruction `k` of `ops` starts.
pub open spec fn offset_of(ops: Seq<Opcode>, k: int) -> int {
    encode_all(ops.take(k)).len() as int
}

/// The encoding of `ops` is that of the instructions before `k`, then that of
/// instruction `k`, then that of the rest.
pub proof fn lemma_encode_all_split(ops: Seq<Opcode>, k: int)
    requires
        0 <= k < ops.len(),
    ensures
        encode_all(ops) == encode_all(ops.take(k)) + encode(ops[k]) + encode_all(ops.skip(k + 1)),
{
    assert(ops =~= ops.take(k).push(ops[k]) + ops.skip(k + 1));
    lemma_encode_all_concat(ops.take(k).push(ops[k]), ops.skip(k + 1));
    lemma_encode_all_push(ops.take(k), ops[k]);
}

/// Replacing instruction `k` by one of the same length rewrites only its
/// bytes.
pub proof fn lemma_encode_all_update(ops: Seq<Opcode>, k: int, op: Opcode)
    requires
        0 <= k < ops.len(),
        encode(op).len() == encode(ops[k]).len(),
    ensures
        encode_all(ops.update(k, op)) == encode_all(ops).subrange(0, offset_of(ops, k)) + encode(op)
            + encode_all(ops).subrange(offset_of(ops, k) + encode(op).len(), encode_all(ops).len() as int),
        encode_all(ops.update(k, op)).len() == encode_all(ops).len(),
{
    let u = ops.update(k, op);
    lemma_encode_all_split(ops, k);
    lemma_encode_all_split(u, k);
    assert(u.take(k) =~= ops.take(k));
    assert(u.skip(k + 1) =~= ops.skip(k + 1));
    let pre = encode_all(ops.take(k));
    let post = encode_all(ops.skip(k + 1));
    let all = encode_all(ops);
    assert(all.subrange(0, offset_of(ops, k)) =~= pre);
    assert(all.subrange(offset_of(ops, k) + encode(op).len(), all.len() as int) =~= post);
}

/// Offsets grow by the length of each instruction.
pub proof fn lemma_offset_step(ops: Seq<Opcode>, k: int)
    requires
        0 <= k < ops.len(),
    ensures
        offset_of(ops, k + 1) == offset_of(ops, k) + encode(ops[k]).len(),
{
    assert(ops.take(k + 1) =~= ops.take(k).push(ops[k]));
    lemma_encode_all_push(ops.take(k), ops[k]);
}

/// Offsets fit in the encoding.
pub proof fn lemma_offset_bound(ops: Seq<Opcode>, k: int)
    requires
        0 <= k <= ops.len(),
    ensures
        offset_of(ops, k) <= encode_all(ops).len(),
{
    if k < ops.len() {
        assert(ops =~= ops.take(k) + ops.skip(k));
        lemma_encode_all_concat(ops.take(k), ops.skip(k));
    } else {
        assert(ops.take(k) =~= ops);
    }
}

/// The length of the encoding of `op`.
pub fn encoded_len(op: Opcode) -> (res: usize)
    ensures
        res == encode(op).len(),
{
    match op {
        Opcode::Constant(_) => 5,
        Opcode::DefineGlobal(_) | Opcode::GetGlobal(_) | Opcode::SetGlobal(_) | Opcode::GetLocal(_)
        | Opcode::SetLocal(_) | Opcode::GetUpvalue(_) | Opcode::SetUpvalue(_) | Opcode::GetProperty(_)
        | Opcode::SetProperty(_) | Opcode::Closure(_) | Opcode::Method(_) | Opcode::Import(_)
        | Opcode::ImportGlobal(_) => 5,
        Opcode::Jump(_) | Opcode::JumpIfFalse(_) | Opcode::Number(_) | Opcode::String(_) => 3,
        Opcode::Call(_) | Opcode::Class(_) | Opcode::List(_) => 2,
        Opcode::Invoke(_, _) => 6,
        _ => 1,
    }
}

/// Decodes a whole chunk.
pub fn decode_all(bytes: &[u8]) -> (res: Vec<Opcode>)
    requires
        well_formed_from(bytes@, 0),
    ensures
        encode_all(res@) == bytes@,
{
    let mut res: Vec<Opcode> = Vec::new();
    let mut pos: usize = 0;
    while pos < bytes.len()
        invariant
            pos <= bytes@.len(),
            well_formed_from(bytes@, pos as int),
            encode_all(res@) == bytes@.subrange(0, pos as int),
        decreases bytes.len() - pos,
    {
        let (op, len) = decode_at(bytes, pos);
        proof {
            lemma_encode_all_push(res@, op);
            assert(bytes@.subrange(0, pos + len) =~= bytes@.subrange(0, pos as int) + bytes@.subrange(pos as int, pos + len));
        }
        res.push(op);
        pos = pos + len;
    }
    assert(bytes@.subrange(0, bytes@.len() as int) =~= bytes@);
    res
}

/// The bytes are a sequence of whole instructions.
pub fn well_formed(bytes: &[u8]) -> (res: bool)
    ensures
        res == well_formed_from(bytes@, 0),
{
    let mut pos: usize = 0;
    while pos < bytes.len()
        invariant
            pos <= bytes@.len(),
            well_formed_from(bytes@, 0) == well_formed_from(bytes@, pos as int),
        decreases bytes.len() - pos,
    {
        let len = instruction_len_of(bytes[pos]);
        if len == 0 || len > bytes.len() - pos {
            return false;
        }
        pos = pos + len;
    }
    true
}

/// The byte offset that a jump at `offset` with operand `relative` lands on:
/// just past its three bytes, moved by `relative`.
pub fn absolute(offset: usize, relative: i16) -> (res: usize)
    requires
        0 <= offset + 3 + relative <= usize::MAX,
    ensures
        res == offset + 3 + relative,
{
    if relative >= 0 {
        offset + 3 + relative as usize
    } else {
        let back = (-(relative as i32)) as usize;
        if back >= 3 {
            offset - (back - 3)
        } else {
            offset + (3 - back)
        }
    }
}

/// Walks the instructions of a chunk, yielding each with its offset.
pub struct OpcodeIterator<'a> {
    offset: usize,
    inner: &'a [u8],
}

impl<'a> OpcodeIterator<'a> {
    pub closed spec fn spec_offset(&self) -> int {
        self.offset as int
    }

    pub closed spec fn spec_bytes(&self) -> Seq<u8> {
        self.inner@
    }

    /// An iterator at the start of `inner`.
    pub fn new(inner: &'a [u8]) -> (res: Self)
        ensures
            res.spec_offset() == 0,
            res.spec_bytes() == inner@,
    {
        OpcodeIterator { offset: 0, inner }
    }

    /// The next instruction and its offset, or `None` at the end.
    pub fn next(&mut self) -> (res: Option<(usize, Opcode)>)
        requires
            old(self).spec_offset() < old(self).spec_bytes().len() ==> decodable_at(old(self).spec_bytes(), old(self).spec_offset()),
        ensures
            final(self).spec_bytes() == old(self).spec_bytes(),
            old(self).spec_offset() >= old(self).spec_bytes().len() ==> res is None,
            old(self).spec_offset() < old(self).spec_bytes().len() ==> {
                &&& res matches Some((o, op))
                &&& o == old(self).spec_offset()
                &&& encoded_at(old(self).spec_bytes(), o as int, op)
                &&& final(self).spec_offset() == o + encode(op).len()
            },
    {
        if self.offset >= self.inner.len() {
            return None;
        }
        let offset = self.offset;
        let (op, len) = decode_at(self.inner, offset);
        self.offset = offset + len;
        Some((offset, op))
    }
}

} // verus!
