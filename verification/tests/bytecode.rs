use lox::bytecode::{Chunk, Module};
use lox::opcode::{decode_all, Opcode, OpcodeIterator};

#[test]
fn chunk_bytes_and_patching() {
    let mut chunk = Chunk::new();
    assert_eq!(chunk.add_u8(7), 0);
    assert_eq!(chunk.add_u32(0x0403_0201), 1);
    assert_eq!(chunk.as_slice(), &[7, 1, 2, 3, 4]);
    assert_eq!(chunk.get_u32(1), 0x0403_0201);
    chunk.set_u32(1, 9);
    assert_eq!(chunk.get_u32(1), 9);
    assert_eq!(chunk.instruction_index(), 5);
    chunk.patch_instruction(1);
    assert_eq!(chunk.get_u32(1), 5);
    chunk.patch_instruction_to(1, 77);
    assert_eq!(chunk.get_u8(1), 77);
}

#[test]
fn encoded_instructions_decode_back() {
    let ops = vec![
        Opcode::Constant(3),
        Opcode::GetLocal(1),
        Opcode::JumpIfFalse(-4),
        Opcode::Invoke(2, 300),
        Opcode::Call(1),
        Opcode::Number(513),
        Opcode::Return,
    ];
    let mut chunk = Chunk::new();
    for op in &ops {
        chunk.add_opcode(*op);
    }
    assert_eq!(decode_all(chunk.as_slice()), ops);
    let mut it = OpcodeIterator::new(chunk.as_slice());
    assert_eq!(it.next(), Some((0, Opcode::Constant(3))));
    assert_eq!(it.next(), Some((5, Opcode::GetLocal(1))));
    assert_eq!(it.next(), Some((10, Opcode::JumpIfFalse(-4))));
}

#[test]
fn instructions_show_jumps_by_index() {
    let mut chunk = Chunk::new();
    chunk.add_opcode(Opcode::False);
    chunk.add_opcode(Opcode::JumpIfFalse(1));
    chunk.add_opcode(Opcode::Pop);
    chunk.add_opcode(Opcode::Jump(-8));
    chunk.add_opcode(Opcode::Nil);
    assert_eq!(
        chunk.instructions(),
        vec![Opcode::False, Opcode::JumpIfFalse(3), Opcode::Pop, Opcode::Jump(0), Opcode::Nil]
    );
}

#[test]
fn module_tables() {
    let mut module = Module::new();
    assert_eq!(module.add_chunk(), 0);
    assert_eq!(module.add_identifier("x"), 0);
    assert_eq!(module.add_identifier("y"), 1);
    assert_eq!(module.identifier(1), "y");
    assert_eq!(module.chunks().len(), 1);
}

#[test]
fn compile_source_end_to_end() {
    let module = lox::compile("var a = 1; print a;").unwrap();
    assert_eq!(module.chunk(0).instructions().last(), Some(&Opcode::Return));
    let errors = lox::compile("print ;").unwrap_err();
    assert!(!errors.is_empty());
    let errors = lox::compile("return 1;").unwrap_err();
    assert_eq!(errors[0].message, "Invalid return");
    let errors = lox::compile("{ var a = 1; var a = 2; }").unwrap_err();
    assert_eq!(errors[0].message, "Local already defined");
    let errors = lox::compile("print this;").unwrap_err();
    assert_eq!(errors[0].message, "Invalid 'this'");
    let errors = lox::compile("{ var a = a; }").unwrap_err();
    assert_eq!(errors[0].message, "Cannot read local variable in its own initializer");
}
