use lox::bytecode::{Chunk, Class, Closure, Constant, Function, Instruction, Module, Upvalue};
use lox::compiler::compile;
use lox::number::Number;
use lox::syntax::parse;
use lox::opcode::Opcode::{
    Add, Call, Class as ClassOp, CloseUpvalue, Closure as ClosureOp, Constant as ConstantOp, DefineGlobal, False,
    GetGlobal, GetLocal, GetProperty, GetUpvalue, Import, ImportGlobal, Jump, JumpIfFalse, Less, Nil, Pop, Print,
    Return, SetGlobal, SetLocal, SetProperty, True,
};

fn num(value: f64) -> Constant {
    Constant::Number(Number::from_literal(&format!("{}", value)).unwrap())
}

fn text(value: &str) -> Constant {
    Constant::from_str(value)
}

fn assert_first_chunk(data: &str, constants: Vec<Constant>, identifiers: Vec<&str>, instructions: Vec<Instruction>) {
    let ast = parse(data).unwrap();
    let module = compile(&ast).unwrap();
    let chunk = module.chunk(0);
    assert_eq!(instructions, chunk.instructions());
    assert_eq!(constants, module.constants());
    assert_eq!(identifiers, module.identifiers());
}

fn compile_code(data: &str) -> Module {
    let ast = parse(data).unwrap();
    compile(&ast).unwrap()
}

fn assert_instructions(chunk: &Chunk, instructions: Vec<Instruction>) {
    assert_eq!(instructions, chunk.instructions());
}

fn assert_constants(module: &Module, constants: Vec<Constant>) {
    assert_eq!(constants, module.constants());
}

fn assert_closures(module: &Module, closures: Vec<Closure>) {
    assert_eq!(closures, module.closures());
}

fn assert_classes(module: &Module, classes: Vec<Class>) {
    assert_eq!(classes, module.classes());
}

fn assert_identifiers(module: &Module, identifiers: Vec<&str>) {
    assert_eq!(identifiers, module.identifiers());
}

fn make_fun(name: &str, index: usize, arity: usize) -> Closure {
    Closure::from_function(Function { name: name.to_string(), chunk_index: index, arity })
}

fn make_closure(name: &str, index: usize, arity: usize, upvalues: Vec<Upvalue>) -> Closure {
    let function = Function { name: name.to_string(), chunk_index: index, arity };
    Closure { function, upvalues }
}

fn make_class(name: &str) -> Class {
    Class { name: name.to_string() }
}

#[test]
fn test_stmt_print_numbers() {
    assert_first_chunk(
        "print 3;",
        vec![num(3.0)],
        vec![],
        vec![
            Instruction::Constant(0),
            Instruction::Print,
            Instruction::Nil,
            Instruction::Return,
        ],
    );
    assert_first_chunk(
        "print 1+2;",
        vec![num(1.0), num(2.0)],
        vec![],
        vec![
            Instruction::Constant(0),
            Instruction::Constant(1),
            Instruction::Add,
            Instruction::Print,
            Instruction::Nil,
            Instruction::Return,
        ],
    );
    assert_first_chunk(
        "print 1-2;",
        vec![num(1.0), num(2.0)],
        vec![],
        vec![
            Instruction::Constant(0),
            Instruction::Constant(1),
            Instruction::Subtract,
            Instruction::Print,
            Instruction::Nil,
            Instruction::Return,
        ],
    );
    assert_first_chunk(
        "print nil;",
        vec![],
        vec![],
        vec![
            Instruction::Nil,
            Instruction::Print,
            Instruction::Nil,
            Instruction::Return,
        ],
    );
}

#[test]
fn test_stmt_print_strings() {
    assert_first_chunk(
        "print \"Hello, World!\";",
        vec![text("Hello, World!")],
        vec![],
        vec![
            Instruction::Constant(0),
            Instruction::Print,
            Instruction::Nil,
            Instruction::Return,
        ],
    );
    assert_first_chunk(
        "print \"Hello, \" + \"World!\";",
        vec![text("Hello, "), text("World!")],
        vec![],
        vec![
            Instruction::Constant(0),
            Instruction::Constant(1),
            Instruction::Add,
            Instruction::Print,
            Instruction::Nil,
            Instruction::Return,
        ],
    );
}

#[test]
fn test_global_variables() {
    
    assert_first_chunk(
        "var x=3;",
        vec![num(3.0)],
        vec!["x"],
        vec![
            Instruction::Constant(0),
            Instruction::DefineGlobal(0),
            Instruction::Nil,
            Instruction::Return,
        ],
    );
    assert_first_chunk(
        "var x;",
        vec![],
        vec!["x"],
        vec![
            Instruction::Nil,
            Instruction::DefineGlobal(0),
            Instruction::Nil,
            Instruction::Return,
        ],
    );
    assert_first_chunk(
        "var x=3; print x;",
        vec![num(3.0)],
        vec!["x"],
        vec![
            Instruction::Constant(0),
            Instruction::DefineGlobal(0),
            Instruction::GetGlobal(0),
            Instruction::Print,
            Instruction::Nil,
            Instruction::Return,
        ],
    );
    assert_first_chunk(
        "var x=3;x=2;",
        vec![num(3.0), num(2.0)],
        vec!["x"],
        vec![
            ConstantOp(0),
            DefineGlobal(0),
            ConstantOp(1),
            SetGlobal(0),
            Pop,
            Instruction::Nil,
            Instruction::Return,
        ],
    );
}

#[test]
fn test_local_variables() {
    
    assert_first_chunk(
        "{var x=3;}",
        vec![num(3.0)],
        vec![],
        vec![
            Instruction::Constant(0),
            Instruction::Pop,
            Instruction::Nil,
            Instruction::Return,
        ],
    );
    assert_first_chunk(
        "{var x=3; print x;}",
        vec![num(3.0)],
        vec![],
        vec![
            Instruction::Constant(0),
            Instruction::GetLocal(1),
            Instruction::Print,
            Instruction::Pop,
            Instruction::Nil,
            Instruction::Return,
        ],
    );
    assert_first_chunk(
        "var x=2; {var x=3; { var x=4; print x; } print x;} print x;",
        vec![num(2.0), num(3.0), num(4.0)],
        vec!["x"],
        vec![
            ConstantOp(0),
            DefineGlobal(0),
            ConstantOp(1),
            ConstantOp(2),
            GetLocal(2),
            Print,
            Pop,
            GetLocal(1),
            Print,
            Pop,
            GetGlobal(0),
            Print,
            Instruction::Nil,
            Instruction::Return,
        ],
    );
    assert_first_chunk(
        "{var x;}",
        vec![],
        vec![],
        vec![
            Instruction::Nil,
            Instruction::Pop,
            Instruction::Nil,
            Instruction::Return,
        ],
    );
    assert_first_chunk(
        "{var x;x=2;}",
        vec![num(2.0)],
        vec![],
        vec![
            Nil,
            ConstantOp(0),
            SetLocal(1),
            Pop,
            Pop,
            Instruction::Nil,
            Instruction::Return,
        ],
    );
}

#[test]
fn test_expression() {
    
    assert_first_chunk("3;", vec![num(3.0)], vec![],vec![ConstantOp(0), Pop, Nil, Return]);

    assert_first_chunk("true;", vec![],  vec![],vec![True, Pop, Nil, Return]);

    assert_first_chunk("false;", vec![],  vec![],vec![False, Pop, Nil, Return]);

    assert_first_chunk("nil;", vec![],  vec![],vec![Nil, Pop, Nil, Return]);
}

#[test]
fn test_if() {
    

    assert_first_chunk(
        "if(false) 3;4;",
        vec![num(3.0), num(4.0)],
        vec![],
        vec![
            False,
            JumpIfFalse(5),
            Pop,
            ConstantOp(0),
            Pop,
            ConstantOp(1),
            Pop,
            Nil,
            Return,
        ],
    );

    assert_first_chunk(
        "if(false) 3; else 4;5;",
        vec![num(3.0), num(4.0), num(5.0)],
        vec![],
        vec![
            False,
            JumpIfFalse(6),
            Pop,
            ConstantOp(0),
            Pop,
            Jump(9),
            Pop,
            ConstantOp(1),
            Pop,
            ConstantOp(2),
            Pop,
            Nil,
            Return,
        ],
    );
}

#[test]
fn test_logical_operators() {
    

    assert_first_chunk(
        "3 and 4;",
        vec![num(3.0), num(4.0)],
        vec![],
        vec![
            ConstantOp(0),
            JumpIfFalse(4),
            Pop,
            ConstantOp(1),
            Pop,
            Nil,
            Return,
        ],
    );

    assert_first_chunk(
        "3 or 4;",
        vec![num(3.0), num(4.0)],
        vec![],
        vec![
            ConstantOp(0),
            JumpIfFalse(3),
            Jump(5),
            Pop,
            ConstantOp(1),
            Pop,
            Nil,
            Return,
        ],
    );
}

#[test]
fn test_equality() {
    

    assert_first_chunk(
        "3 < 4;",
        vec![num(3.0), num(4.0)],
        vec![],
        vec![ConstantOp(0), ConstantOp(1), Less, Pop, Nil, Return],
    );
}

#[test]
fn test_while() {
    

    assert_first_chunk(
        "while(true) print 3;",
        vec![num(3.0)],
        vec![],
        vec![
            True,
            JumpIfFalse(6),
            Pop,
            ConstantOp(0),
            Print,
            Jump(0),
            Pop,
            Nil,
            Return,
        ],
    );
}

#[test]
fn tests_test_for() {
    

    assert_first_chunk(
        "for(var i = 0; i < 10; i = i + 1) print i;",
        vec![num(0.0), num(10.0), num(1.0)],
        vec![],
        vec![
            ConstantOp(0),
            GetLocal(1),
            ConstantOp(1),
            Less,
            JumpIfFalse(14),
            Pop,
            GetLocal(1),
            Print,
            GetLocal(1),
            ConstantOp(2),
            Add,
            SetLocal(1),
            Pop,
            Jump(1),
            Pop,
            Pop,
            Instruction::Nil,
            Instruction::Return,
        ],
    );
}

#[test]
fn test_simple_function() {
    

    let module = compile_code("fun first() { print 3; } first();");

    assert_instructions(
        module.chunk(0),
        vec![
            ClosureOp(0),
            DefineGlobal(0),
            GetGlobal(0),
            Call(0),
            Pop,
            Instruction::Nil,
            Instruction::Return,
        ],
    );
    assert_instructions(module.chunk(1), vec![ConstantOp(0), Print, Nil, Return]);

    assert_constants(
        &module,
        vec![
            num(3.0),
        ],
    );

    assert_closures(&module, vec![
        make_fun("first", 1, 0),
    ]);

    assert_identifiers(&module, vec![
        "first",
    ]);
}

#[test]
fn test_function_with_one_argument() {
    

    let module = compile_code("fun first(a) { print a; } first(3);");

    assert_instructions(
        module.chunk(0),
        vec![
            ClosureOp(0),
            DefineGlobal(0),
            GetGlobal(0),
            ConstantOp(0),
            Call(1),
            Pop,
            Instruction::Nil,
            Instruction::Return,
        ],
    );
    assert_instructions(module.chunk(1), vec![GetLocal(1), Print, Nil, Return]);

    assert_constants(
        &module,
        vec![
            num(3.0),
        ],
    );

    assert_closures(&module, vec![
        make_fun("first", 1, 1),
    ]);

    assert_identifiers(&module, vec![
        "first"
    ]);
}

#[test]
fn test_recursive_function_with_one_argument() {
    

    let module = compile_code("fun first(a) { print first(a+1); } first(3);");

    assert_instructions(
        module.chunk(0),
        vec![
            ClosureOp(0),
            DefineGlobal(0),
            GetGlobal(0),
            ConstantOp(1),
            Call(1),
            Pop,
            Nil,
            Return,
        ],
    );
    assert_instructions(
        module.chunk(1),
        vec![
            GetGlobal(0),
            GetLocal(1),
            ConstantOp(0),
            Add,
            Call(1),
            Print,
            Nil,
            Return,
        ],
    );

    assert_constants(
        &module,
        vec![
            num(1.0),
            num(3.0),
        ],
    );

    assert_closures(&module, vec![
        make_fun("first", 1, 1),
    ]);

    assert_identifiers(&module, vec![
        "first"
    ]);
}

#[test]
fn test_functions_calling_functions() {
    

    let module = compile_code("fun first() { second(); } fun second() { print 3; } first();");

    assert_instructions(
        module.chunk(0),
        vec![
            ClosureOp(0),
            DefineGlobal(1),
            ClosureOp(1),
            DefineGlobal(0),
            GetGlobal(1),
            Call(0),
            Pop,
            Instruction::Nil,
            Instruction::Return,
        ],
    );
    assert_instructions(
        module.chunk(1),
        vec![GetGlobal(0), Call(0), Pop, Nil, Return],
    );
    assert_instructions(module.chunk(2), vec![ConstantOp(0), Print, Nil, Return]);

    assert_constants(
        &module,
        vec![
            num(3.0),
        ],
    );

    assert_closures(&module, vec![
        make_fun("first", 1, 0),
        make_fun("second", 2, 0),
    ]);

    assert_identifiers(&module, vec![
        "second",
        "first",
    ]);
}

#[test]
fn test_simple_scoped_function() {
    

    let module = compile_code("{ fun first() { print 3; } first(); }");

    assert_instructions(
        module.chunk(0),
        vec![
            ClosureOp(0),
            GetLocal(1),
            Call(0),
            Pop,
            Pop,
            Instruction::Nil,
            Instruction::Return,
        ],
    );
    assert_instructions(module.chunk(1), vec![ConstantOp(0), Print, Nil, Return]);

    assert_constants(&module, vec![num(3.0)]);

    assert_closures(&module, vec![
        make_fun("first", 1, 0),
    ]);
}

#[test]
fn test_simple_scoped_recursive_function() {
    

    let module = compile_code("{ fun first() { print first(); } first(); }");

    assert_instructions(
        module.chunk(0),
        vec![
            ClosureOp(0),
            GetLocal(1),
            Call(0),
            Pop,
            CloseUpvalue,
            Nil,
            Return,
        ],
    );
    assert_instructions(
        module.chunk(1),
        vec![GetUpvalue(0), Call(0), Print, Nil, Return],
    );

    assert_closures(&module, vec![
        make_closure("first", 1, 0, vec![Upvalue::Local(1)]),
    ]);
}

#[test]
fn test_function_with_return() {
    

    let module = compile_code("fun first() { return 3; }");

    assert_instructions(
        module.chunk(0),
        vec![
            ClosureOp(0),
            DefineGlobal(0),
            Instruction::Nil,
            Instruction::Return,
        ],
    );
    assert_instructions(module.chunk(1), vec![ConstantOp(0), Return, Nil, Return]);

    assert_constants(
        &module,
        vec![num(3.0)],
    );

    assert_closures(&module, vec![
        make_fun("first", 1, 0),
    ]);

    assert_identifiers(&module, vec![
        "first"
    ]);
}

#[test]
fn test_upvalue() {
    

    let module = compile_code("{var a = 3; fun f() { print a; }}");

    assert_instructions(
        module.chunk(0),
        vec![ConstantOp(0), ClosureOp(0), Pop, CloseUpvalue, Nil, Return],
    );
    assert_instructions(module.chunk(1), vec![GetUpvalue(0), Print, Nil, Return]);

    assert_constants(
        &module,
        vec![num(3.0)],
    );

    assert_closures(&module, vec![
        make_closure("f", 1, 0, vec![Upvalue::Local(1)])
    ]);
}

#[test]
fn test_double_upvalue() {
    

    let module = compile_code("{var a = 3; fun f() { fun g() { print a; } }}");

    assert_instructions(
        module.chunk(0),
        vec![ConstantOp(0), ClosureOp(1), Pop, CloseUpvalue, Nil, Return],
    );
    assert_instructions(module.chunk(1), vec![ClosureOp(0), Nil, Return]);
    assert_instructions(module.chunk(2), vec![GetUpvalue(0), Print, Nil, Return]);

    assert_constants(
        &module,
        vec![
            num(3.0),
        ],
    );

    assert_closures(&module, vec![
        make_closure("g", 2, 0, vec![Upvalue::Upvalue(0)]),
        make_closure("f", 1, 0, vec![Upvalue::Local(1)]),
    ]);
}

#[test]
fn test_multiple_upvalue() {
    

    let module = compile_code("{var a = 3; var b = 4; fun f() {print b; print a; }}");

    assert_instructions(
        module.chunk(0),
        vec![
            ConstantOp(0),
            ConstantOp(1),
            ClosureOp(0),
            Pop,
            CloseUpvalue,
            CloseUpvalue,
            Nil,
            Return,
        ],
    );
    assert_instructions(
        module.chunk(1),
        vec![GetUpvalue(0), Print, GetUpvalue(1), Print, Nil, Return],
    );

    assert_constants(
        &module,
        vec![
            num(3.0),
            num(4.0),
        ],
    );

    assert_closures(&module, vec![
        make_closure("f", 1, 0, vec![Upvalue::Local(2), Upvalue::Local(1)]),
    ]);
}

#[test]
fn test_multiple_double_upvalue() {
    

    let module = compile_code("{var a = 3; var b = 4; fun f() { fun g() { print a; print b; }}}");

    assert_instructions(
        module.chunk(0),
        vec![
            ConstantOp(0),
            ConstantOp(1),
            ClosureOp(1),
            Pop,
            CloseUpvalue,
            CloseUpvalue,
            Nil,
            Return,
        ],
    );
    assert_instructions(module.chunk(1), vec![ClosureOp(0), Nil, Return]);
    assert_instructions(
        module.chunk(2),
        vec![GetUpvalue(0), Print, GetUpvalue(1), Print, Nil, Return],
    );

    assert_constants(
        &module,
        vec![
            num(3.0),
            num(4.0),
        ],
    );

    assert_closures(&module, vec![
        make_closure("g", 2, 0, vec![Upvalue::Upvalue(0), Upvalue::Upvalue(1)]),
        make_closure("f", 1, 0, vec![Upvalue::Local(1), Upvalue::Local(2)]),
    ]);
}

#[test]
fn test_scoped_upvalue() {
    

    let module = compile_code(
        "var global; fun main() { { var a = 3; fun one() { print a; } global = one; } } main();",
    );

    assert_instructions(
        module.chunk(0),
        vec![
            Nil,
            DefineGlobal(0),
            ClosureOp(1),
            DefineGlobal(1),
            GetGlobal(1),
            Call(0),
            Pop,
            Instruction::Nil,
            Instruction::Return,
        ],
    );
    assert_instructions(
        module.chunk(1),
        vec![
            ConstantOp(0),
            ClosureOp(0),
            GetLocal(2),
            SetGlobal(0),
            Pop,
            Pop,
            CloseUpvalue,
            Nil,
            Return,
        ],
    );
    assert_instructions(module.chunk(2), vec![GetUpvalue(0), Print, Nil, Return]);

    assert_constants(
        &module,
        vec![
            num(3.0),
        ],
    );

    assert_closures(&module, vec![
        make_closure("one", 2, 0, vec![Upvalue::Local(1)]),
        make_closure("main", 1, 0, vec![]),
    ]);

    assert_identifiers(&module, vec![
        "global",
        "main",
    ]);
}

#[test]
fn test_simple_import() {
    

    let module = compile_code("import \"foo\";");

    assert_instructions(
        module.chunk(0),
        vec![Import(0), Pop, Nil, Return],
    );

    assert_constants(&module, vec![text("foo")]);
}

#[test]
fn test_complex_import() {
    

    let module = compile_code("import \"foo\" for x;");

    assert_instructions(
        module.chunk(0),
        vec![Import(0), ImportGlobal(0), DefineGlobal(0), Pop, Nil, Return],
    );

    assert_constants(&module, vec![text("foo")]);

    assert_identifiers(&module, vec![
        "x"
    ]);
}

#[test]
fn test_complex_local_import() {
    

    let module = compile_code("{import \"foo\" for x; print x;}");

    assert_instructions(
        module.chunk(0),
        vec![Import(0), ImportGlobal(0), Pop, GetLocal(1), Print, Pop, Nil, Return],
    );

    assert_constants(&module, vec![text("foo")]);

    assert_identifiers(&module, vec![
        "x"
    ]);
}

#[test]
fn test_empty_class_global() {
    

    let module = compile_code("class Foo {}");

    assert_instructions(
        module.chunk(0),
        vec![ClassOp(0), DefineGlobal(0), GetGlobal(0), Pop, Nil, Return],
    );

    assert_constants(&module, vec![]);

    assert_classes(&module, vec![
        make_class("Foo")
    ]);

    assert_identifiers(&module, vec![
        "Foo"
    ]);
}

#[test]
fn test_empty_class_local() {
    

    let module = compile_code("{class Foo {}}");

    assert_instructions(module.chunk(0), vec![ClassOp(0), GetLocal(1), Pop, Pop, Nil, Return]);

    assert_classes(&module, vec![
        make_class("Foo")
    ]);
}

#[test]
fn test_set_property() {
    

    let module = compile_code("x.test = 3;");

    assert_instructions(
        module.chunk(0),
        vec![GetGlobal(0), ConstantOp(0), SetProperty(1), Pop, Nil, Return],
    );

    assert_constants(&module, vec![num(3.0)]);

    assert_identifiers(&module, vec![
        "x",
        "test",
    ]);
}

#[test]
fn test_get_property() {
    

    let module = compile_code("x.test;");

    assert_instructions(
        module.chunk(0),
        vec![GetGlobal(0), GetProperty(1), Pop, Nil, Return],
    );

    assert_constants(&module, vec![]);

    assert_identifiers(&module, vec![
        "x",
        "test",
    ]);
}


#[test]
fn equal_literals_each_get_a_constant() {
    let module = compile_code("print 1+1;\nfun f() { print \"a\"; }\nprint \"a\";");
    assert_constants(&module, vec![num(1.0), num(1.0), text("a"), text("a")]);
}

#[test]
fn return_with_value_at_top_level_does_not_compile() {
    let ast = parse("return 1;").unwrap();
    let errors = compile(&ast).unwrap_err();
    assert_eq!(1, errors.len());
    assert_eq!("Invalid return", errors[0].message);
}

#[test]
fn globals_and_assignments_compile() {
    let module = compile_code("var a = 1;\na = a + 2;\nprint a;");
    assert_constants(&module, vec![num(1.0), num(2.0)]);
}

#[test]
fn plain_source_compiles() {
    let module = lox::compile("print 1;\nprint a;\n\"s\";").unwrap();
    assert_constants(&module, vec![num(1.0), text("s")]);
}
