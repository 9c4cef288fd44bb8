# lox

A Lox toolchain written in Verus: a tokenizer, a parser to an AST, a
compiler to bytecode, and a bytecode interpreter, together with the data
structures a runtime needs (a page allocator, a mark-and-sweep collector,
hash tables keyed by interned symbols, growable arrays and strings).  The
library states what each function does in `requires`/`ensures` contracts and
Verus proves them.

## Layout

- `src/` — the verified library.
  - `tokenizer.rs`, `token.rs`, `parser.rs`, `expr_parser.rs`,
    `stmt_parser.rs`, `syntax.rs`, `ast.rs`, `position.rs`: source text to
    tokens to an AST, with diagnostics.
  - `compiler.rs`: AST to a `Module` of bytecode chunks; every module it
    produces is well formed (`sound_module`).
  - `opcode.rs`, `bytecode.rs`: the instruction encoding, decoding and the
    module tables.
  - `memory.rs`, `vm.rs`, `ops.rs`, `interpret.rs`, `collect.rs`: the
    interpreter.  Its values are generic over the host's number type; each
    `step` runs one instruction and returns an `Action` for the host
    (compute on numbers, print, call a host function, load an import).
    Every step keeps the interpreter well formed, and `collect_garbage`
    frees only objects the interpreter cannot reach.
  - `gc.rs`, `heap.rs`, `table.rs`, `stack.rs`, `array.rs`, `string.rs`,
    `interner.rs`, `bettervm.rs`, `runtime.rs`, `runtime_error.rs`: runtime
    data structures.
- `app/` — the command-line program: reads a file, compiles it, and runs it
  with `f64` numbers (or prints the compiled module with `--dump`).
- `tests/` — tests of the library.
