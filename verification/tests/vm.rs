use lox::bettervm::VmError;
use lox::bytecode::{Constant, Module};
use lox::number::Number;
use lox::opcode::Opcode;
use lox::memory::Value;
use lox::vm::{Action, Arithmetic, Fiber, Piece};

#[derive(PartialEq, Debug)]
enum TestResult {
    Finished,
    CompileError,
    RuntimeError(VmError),
}

fn host_numbers(module: &lox::bytecode::Module) -> Vec<Option<f64>> {
    module
        .constants()
        .iter()
        .map(|c| match c {
            Constant::Number(n) => Some(n.as_str().parse::<f64>().unwrap()),
            Constant::String(_) => None,
        })
        .collect()
}

fn to_index(n: f64) -> usize {
    n as usize
}

fn line(pieces: Vec<Piece<f64>>) -> String {
    pieces
        .into_iter()
        .map(|piece| match piece {
            Piece::Text(text) => text,
            Piece::Number(n) => format!("{}", n),
        })
        .collect()
}

fn execute(source: &str) -> (Vec<String>, TestResult) {
    execute_with(source, &[])
}

fn execute_with(source: &str, modules: &[(&str, &str)]) -> (Vec<String>, TestResult) {
    run(source, modules, false).0
}

/// Runs `source`; with `stress`, collects garbage before every
/// instruction.  Gives the output, the result, and the most heap slots used.
fn run(source: &str, modules: &[(&str, &str)], stress: bool) -> ((Vec<String>, TestResult), usize) {
    let module = match lox::compile(source) {
        Ok(module) => module,
        Err(_) => return ((vec![], TestResult::CompileError), 0),
    };
    run_module(module, modules, stress)
}

/// Runs a compiled module, as `run` does.
fn run_module(module: lox::bytecode::Module, modules: &[(&str, &str)], stress: bool) -> ((Vec<String>, TestResult), usize) {
    let mut most = 0;
    let numbers = host_numbers(&module);
    let mut vm: Fiber<f64> = Fiber::new();
    vm.with_module(module, numbers).unwrap();
    vm.set_native_fn("clock").unwrap();
    let mut output = vec![];
    loop {
        if stress || vm.should_collect() {
            vm.collect_garbage();
        }
        most = most.max(vm.objects.len());
        match vm.step(&to_index) {
            Action::Continue => {}
            Action::Done => return ((output, TestResult::Finished), most),
            Action::Error(e) => return ((output, TestResult::RuntimeError(e)), most),
            Action::Binary(op, a, b) => {
                let value = match op {
                    Arithmetic::Add => Value::Number(a + b),
                    Arithmetic::Subtract => Value::Number(a - b),
                    Arithmetic::Multiply => Value::Number(a * b),
                    Arithmetic::Divide => Value::Number(a / b),
                    Arithmetic::Greater => Value::Boolean(a > b),
                    Arithmetic::Less => Value::Boolean(a < b),
                    Arithmetic::Equal => Value::Boolean(a == b),
                };
                vm.resume(value).unwrap();
            }
            Action::Negate(n) => vm.resume(Value::Number(-n)).unwrap(),
            Action::Print(pieces) => output.push(line(pieces)),
            Action::CallNative(name, args) => {
                assert_eq!(name, "clock");
                assert!(args.is_empty());
                vm.resume(Value::Number(1.5)).unwrap();
            }
            Action::Import(path) => {
                let loaded = modules.iter().find(|(name, _)| *name == path).map(|(_, code)| {
                    let module = lox::compile(code).unwrap();
                    let numbers = host_numbers(&module);
                    (module, numbers)
                });
                if let Action::Error(e) = vm.resume_import(path, loaded) {
                    return ((output, TestResult::RuntimeError(e)), most);
                }
            }
        }
    }
}

fn expect(source: &str, lines: &[&str]) {
    let (output, result) = execute(source);
    assert_eq!(output, lines);
    assert_eq!(result, TestResult::Finished);
}

fn expect_error(source: &str, lines: &[&str], error: VmError) {
    let (output, result) = execute(source);
    assert_eq!(output, lines);
    assert_eq!(result, TestResult::RuntimeError(error));
}

#[test]
fn vm_arithmetic() {
    expect("print 1 + 2; print 7 - 10; print 2 * 3; print 7 / 2; print -(1 + 1);", &["3", "-3", "6", "3.5", "-2"]);
}

#[test]
fn vm_precedence() {
    expect("print 2 + 3 * 4; print (2 + 3) * 4; print 20 - 3 * 4 - 1;", &["14", "20", "7"]);
}

#[test]
fn vm_comparison_and_logic() {
    expect(
        "print 1 < 2; print 2 < 1; print 1 > 2; print 1 == 1; print 1 != 1; print !nil; print !0; print nil == false;",
        &["true", "false", "false", "true", "false", "true", "false", "false"],
    );
}

#[test]
fn vm_equality_of_strings_and_kinds() {
    expect(
        "print \"a\" == \"a\"; print \"a\" == \"b\"; print \"1\" == 1; print nil == nil; print true == true;",
        &["true", "false", "false", "true", "true"],
    );
}

#[test]
fn vm_string_concatenation() {
    expect("var a = \"foo\"; var b = \"bar\"; print a + b; print a + \"\" + b + a;", &["foobar", "foobarfoo"]);
}

#[test]
fn vm_globals() {
    expect("var a = 1; a = a + 2; print a; var b; print b;", &["3", "nil"]);
}

#[test]
fn vm_undefined_global() {
    expect_error("print 1; print unknown;", &["1"], VmError::GlobalNotDefined);
}

#[test]
fn vm_assign_undefined_global() {
    expect_error("unknown = 1;", &[], VmError::GlobalNotDefined);
}

#[test]
fn vm_locals_and_blocks() {
    expect("{ var a = 1; { var b = a + 1; print b; b = 10; print b; } print a; }", &["2", "10", "1"]);
}

#[test]
fn vm_if_else() {
    expect("if (1 < 2) print \"yes\"; else print \"no\"; if (nil) print \"yes\"; else print \"no\";", &["yes", "no"]);
}

#[test]
fn vm_logical_operators() {
    expect("print nil or \"x\"; print 1 and 2; print false and 1; print false or false;", &["x", "2", "false", "false"]);
}

#[test]
fn vm_while_loop() {
    expect("var i = 0; while (i < 3) { print i; i = i + 1; }", &["0", "1", "2"]);
}

#[test]
fn vm_for_loop() {
    expect("for (var i = 0; i < 3; i = i + 1) print i * 10;", &["0", "10", "20"]);
}

#[test]
fn vm_functions() {
    expect(
        "fun add(a, b) { return a + b; } print add(1, 2); fun noop() {} print noop(); print add;",
        &["3", "nil", "<fn add>"],
    );
}

#[test]
fn vm_recursion() {
    expect("fun fib(n) { if (n < 2) return n; return fib(n - 1) + fib(n - 2); } print fib(10);", &["55"]);
}

#[test]
fn vm_wrong_arity() {
    expect_error("fun f(a) { return a; } f(1, 2);", &[], VmError::IncorrectArity);
}

#[test]
fn vm_call_non_callable() {
    expect_error("var a = 1; a();", &[], VmError::InvalidCallee);
}

#[test]
fn vm_add_mismatched() {
    expect_error("print 1 + \"a\";", &[], VmError::UnexpectedValue);
}

#[test]
fn vm_negate_non_number() {
    expect_error("print -\"a\";", &[], VmError::UnexpectedValue);
}

#[test]
fn vm_closures() {
    expect(
        "fun counter() { var i = 0; fun inc() { i = i + 1; return i; } return inc; }
         var c = counter(); print c(); print c(); var d = counter(); print d(); print c();",
        &["1", "2", "1", "3"],
    );
}

#[test]
fn vm_closed_upvalue_shared() {
    expect(
        "var get; var set;
         { var a = \"before\"; fun g() { return a; } fun s(v) { a = v; } get = g; set = s; }
         print get(); set(\"after\"); print get();",
        &["before", "after"],
    );
}

#[test]
fn vm_nested_closure() {
    expect(
        "fun outer() { var x = \"outer\"; fun middle() { fun inner() { print x; } return inner; } return middle; }
         outer()()();",
        &["outer"],
    );
}

#[test]
fn vm_classes_and_fields() {
    expect(
        "class Point {} var p = Point(); p.x = 1; p.y = 2; print p.x + p.y; print Point; print p;",
        &["3", "Point", "Point instance"],
    );
}

#[test]
fn vm_methods_and_this() {
    expect(
        "class Counter { init(start) { this.count = start; } inc() { this.count = this.count + 1; return this.count; } }
         var c = Counter(5); print c.inc(); print c.inc(); var m = c.inc; print m(); print m;",
        &["6", "7", "8", "<fn inc>"],
    );
}

#[test]
fn vm_init_arity() {
    expect_error("class A { init(a) {} } A();", &[], VmError::IncorrectArity);
}

#[test]
fn vm_class_without_init_takes_no_arguments() {
    expect_error("class A {} A(1);", &[], VmError::IncorrectArity);
}

#[test]
fn vm_undefined_property() {
    expect_error("class A {} var a = A(); print a.missing;", &[], VmError::UndefinedProperty);
}

#[test]
fn vm_property_on_non_instance() {
    expect_error("var a = 1; print a.field;", &[], VmError::UnexpectedValue);
}

#[test]
fn vm_field_holding_function_is_called() {
    expect("fun hi() { return \"hi\"; } class A {} var a = A(); a.f = hi; print a.f();", &["hi"]);
}

#[test]
fn vm_native_clock() {
    expect("print clock(); print clock;", &["1.5", "<native fn>"]);
}

#[test]
fn vm_print_values() {
    expect("print nil; print true; print false; print \"text\"; print 0.5;", &["nil", "true", "false", "text", "0.5"]);
}

#[test]
fn vm_no_frame_is_an_error() {
    let mut vm: Fiber<f64> = Fiber::new();
    match vm.step(&to_index) {
        Action::Error(e) => assert_eq!(e, VmError::FrameEmpty),
        _ => panic!("expected an error"),
    }
    assert_eq!(vm.error, Some(VmError::FrameEmpty));
}

#[test]
fn vm_resume_rejects_unknown_objects() {
    let mut vm: Fiber<f64> = Fiber::new();
    let bogus = Value::String(lox::gc::Gc { index: 7 });
    assert_eq!(vm.resume(bogus), Err(VmError::UnexpectedValue));
    assert_eq!(vm.resume(Value::Number(1.0)), Ok(()));
}

#[test]
fn vm_deep_recursion_overflows() {
    expect_error("fun f(n) { return f(n + 1); } f(0);", &[], VmError::StackOverflow);
}

#[test]
fn vm_import_runs_module_once() {
    let modules = [("greet", "print \"loading\"; var name = \"world\"; fun hello() { return \"hello \" + name; }")];
    let (output, result) = execute_with(
        "import \"greet\" for hello; print hello(); import \"greet\" for name; print name;",
        &modules,
    );
    assert_eq!(output, vec!["loading", "hello world", "world"]);
    assert_eq!(result, TestResult::Finished);
}

#[test]
fn vm_import_missing_global_is_nil() {
    let modules = [("empty", "var a = 1;")];
    let (output, result) = execute_with("import \"empty\" for b; print b;", &modules);
    assert_eq!(output, vec!["nil"]);
    assert_eq!(result, TestResult::Finished);
}

#[test]
fn vm_import_unknown_module() {
    let (output, result) = execute_with("print 1; import \"nowhere\";", &[]);
    assert_eq!(output, vec!["1"]);
    assert_eq!(result, TestResult::RuntimeError(VmError::UnknownImport));
}

#[test]
fn vm_import_sees_natives() {
    let modules = [("timer", "var t = clock();")];
    let (output, result) = execute_with("import \"timer\" for t; print t;", &modules);
    assert_eq!(output, vec!["1.5"]);
    assert_eq!(result, TestResult::Finished);
}

#[test]
fn vm_closures_in_loop_capture_each_iteration() {
    expect(
        "var first; var second;
         for (var i = 1; i <= 2; i = i + 1) { var j = i * 10; fun f() { return j; } if (i == 1) first = f; else second = f; }
         print first(); print second();",
        &["10", "20"],
    );
}

#[test]
fn vm_identity_equality_of_objects() {
    expect(
        "class A {} var a = A(); var b = A(); print a == a; print a == b; fun f() {} print f == f; print A == A;",
        &["true", "false", "true", "true"],
    );
}

#[test]
fn vm_method_calls_method() {
    expect(
        "class Greeter { name() { return \"bob\"; } greet() { return \"hi \" + this.name(); } } print Greeter().greet();",
        &["hi bob"],
    );
}

#[test]
fn vm_field_shadows_method() {
    expect(
        "class A { m() { return \"method\"; } } fun g() { return \"field\"; } var a = A(); print a.m(); a.m = g; print a.m();",
        &["method", "field"],
    );
}

#[test]
fn vm_set_property_on_non_instance() {
    expect_error("var a = \"text\"; a.x = 1;", &[], VmError::UnexpectedValue);
}

#[test]
fn vm_invoke_undefined_method() {
    expect_error("class A {} A().missing();", &[], VmError::UndefinedProperty);
}

#[test]
fn vm_comparison_needs_numbers() {
    expect_error("print 1 < \"a\";", &[], VmError::UnexpectedValue);
}

#[test]
fn vm_collection_keeps_what_programs_use() {
    let programs = [
        "fun counter() { var i = 0; fun inc() { i = i + 1; return i; } return inc; }
         var c = counter(); print c(); print c(); var d = counter(); print d(); print c();",
        "class Counter { init(start) { this.count = start; } inc() { this.count = this.count + 1; return this.count; } }
         var c = Counter(5); print c.inc(); var m = c.inc; print m(); print \"a\" + \"b\" + \"c\";",
        "var get; var set;
         { var a = \"before\"; fun g() { return a; } fun s(v) { a = v; } get = g; set = s; }
         print get(); set(\"after\" + \"!\"); print get();",
    ];
    for program in programs {
        let (plain, _) = run(program, &[], false);
        let (stressed, _) = run(program, &[], true);
        assert_eq!(plain, stressed);
        assert_eq!(plain.1, TestResult::Finished);
    }
}

#[test]
fn vm_collection_reuses_slots() {
    let program = "var s = \"\"; for (var i = 0; i < 2000; i = i + 1) { s = \"x\" + \"y\"; } print s;";
    let ((output, result), most) = run(program, &[], true);
    assert_eq!(output, vec!["xy"]);
    assert_eq!(result, TestResult::Finished);
    assert!(most < 50, "heap grew to {} slots", most);
}

#[test]
fn vm_collection_frees_unreachable_objects() {
    let module = lox::compile("var keep = \"kept\"; { var drop = \"dropped\"; } print keep;").unwrap();
    let numbers = host_numbers(&module);
    let mut vm: Fiber<f64> = Fiber::new();
    vm.with_module(module, numbers).unwrap();
    loop {
        match vm.step(&to_index) {
            Action::Continue => {}
            Action::Print(pieces) => {
                assert_eq!(line(pieces), "kept");
                break;
            }
            _ => panic!("unexpected action"),
        }
    }
    let before = vm.objects.len();
    vm.collect_garbage();
    assert_eq!(vm.objects.len(), before);
    assert!(vm.free.len() >= 1);
    assert_eq!(vm.allocations, 0);
    assert!(!vm.should_collect());
}

/// A module whose top level runs `ops` with `constants`, then returns nil.
fn module_of(constants: Vec<Constant>, ops: Vec<Opcode>) -> Module {
    let mut module = Module::new();
    let chunk = module.add_chunk();
    for constant in constants {
        module.add_constant(constant);
    }
    for op in ops {
        module.chunk_mut(chunk).add_opcode(op);
    }
    module.chunk_mut(chunk).add_opcode(Opcode::Nil);
    module.chunk_mut(chunk).add_opcode(Opcode::Return);
    module
}

fn num(text: &str) -> Constant {
    Constant::Number(Number::from_literal(text).unwrap())
}

#[test]
fn vm_lists() {
    let module = module_of(
        vec![num("1"), Constant::from_str("two"), num("0"), num("10")],
        vec![
            Opcode::Constant(0),
            Opcode::Constant(1),
            Opcode::Nil,
            Opcode::List(3),
            Opcode::Print,
            // [1, "two"][1]
            Opcode::Constant(0),
            Opcode::Constant(1),
            Opcode::List(2),
            Opcode::Constant(0),
            Opcode::GetIndex,
            Opcode::Print,
            // [1][0] = 10, printed
            Opcode::Constant(0),
            Opcode::List(1),
            Opcode::Constant(2),
            Opcode::Constant(3),
            Opcode::SetIndex,
            Opcode::Print,
            Opcode::List(0),
            Opcode::Print,
            Opcode::Constant(0),
            Opcode::List(1),
            Opcode::List(1),
            Opcode::Print,
        ],
    );
    let ((output, result), _) = run_module(module, &[], false);
    assert_eq!(output, vec!["[1, two, nil]", "two", "10", "[]", "[[1]]"]);
    assert_eq!(result, TestResult::Finished);
}

#[test]
fn vm_list_index_out_of_range() {
    let module = module_of(vec![num("1")], vec![Opcode::Constant(0), Opcode::List(1), Opcode::Constant(0), Opcode::GetIndex]);
    let ((output, result), _) = run_module(module, &[], false);
    assert!(output.is_empty());
    assert_eq!(result, TestResult::RuntimeError(VmError::IndexOutOfRange));
}

#[test]
fn vm_list_index_must_be_number() {
    let module = module_of(vec![num("1")], vec![Opcode::Constant(0), Opcode::List(1), Opcode::Nil, Opcode::GetIndex]);
    let ((_, result), _) = run_module(module, &[], false);
    assert_eq!(result, TestResult::RuntimeError(VmError::UnexpectedValue));
}

#[test]
fn vm_index_of_non_list() {
    let module = module_of(vec![num("0")], vec![Opcode::Nil, Opcode::Constant(0), Opcode::GetIndex]);
    let ((_, result), _) = run_module(module, &[], false);
    assert_eq!(result, TestResult::RuntimeError(VmError::UnexpectedValue));
}

#[test]
fn vm_list_holding_itself_prints_bounded() {
    // a = [nil]; a[0] = a; print a;
    let module = module_of(
        vec![num("0")],
        vec![
            Opcode::Nil,
            Opcode::List(1),
            Opcode::GetLocal(1),
            Opcode::Constant(0),
            Opcode::GetLocal(1),
            Opcode::SetIndex,
            Opcode::Pop,
            Opcode::Print,
        ],
    );
    let ((output, result), _) = run_module(module, &[], false);
    assert_eq!(result, TestResult::Finished);
    assert_eq!(output.len(), 1);
    assert!(output[0].starts_with("[[[["));
    assert!(output[0].contains("[...]"));
}

#[test]
fn vm_collection_keeps_list_elements() {
    let build = || {
        module_of(
            vec![Constant::from_str("x"), Constant::from_str("y")],
            vec![
                Opcode::Constant(0),
                Opcode::Constant(1),
                Opcode::Add,
                Opcode::Constant(1),
                Opcode::List(1),
                Opcode::List(2),
                Opcode::Constant(0),
                Opcode::Pop,
                Opcode::Print,
            ],
        )
    };
    let (plain, _) = run_module(build(), &[], false);
    let (stressed, _) = run_module(build(), &[], true);
    assert_eq!(plain, stressed);
    assert_eq!(plain.0, vec!["[xy, [y]]"]);
}

#[test]
fn vm_pop_on_empty_stack() {
    // The top level's own closure sits in slot 0; a second pop finds nothing.
    let module = module_of(vec![], vec![Opcode::Pop, Opcode::Pop]);
    let ((_, result), _) = run_module(module, &[], false);
    assert_eq!(result, TestResult::RuntimeError(VmError::StackEmpty));
}

#[test]
fn vm_import_needs_string_constant() {
    let module = module_of(vec![num("1")], vec![Opcode::Import(0)]);
    let ((_, result), _) = run_module(module, &[], false);
    assert_eq!(result, TestResult::RuntimeError(VmError::StringConstantExpected));
}

#[test]
fn vm_constant_out_of_range() {
    let module = module_of(vec![], vec![Opcode::Constant(3)]);
    let ((_, result), _) = run_module(module, &[], false);
    assert_eq!(result, TestResult::RuntimeError(VmError::UnexpectedConstant));
}

#[test]
fn vm_number_and_string_instructions_push_constants() {
    let module = module_of(
        vec![num("1"), Constant::from_str("s")],
        vec![Opcode::Number(0), Opcode::Print, Opcode::String(1), Opcode::Print],
    );
    let ((output, result), _) = run_module(module, &[], false);
    assert_eq!(result, TestResult::Finished);
    assert_eq!(output, vec!["1", "s"]);
}

#[test]
fn vm_number_instruction_needs_a_number_constant() {
    let module = module_of(vec![Constant::from_str("s")], vec![Opcode::Number(0)]);
    let ((_, result), _) = run_module(module, &[], false);
    assert_eq!(result, TestResult::RuntimeError(VmError::UnexpectedConstant));
}

#[test]
fn vm_native_needs_a_running_import() {
    let mut vm: Fiber<f64> = Fiber::new();
    assert_eq!(vm.set_native_fn("clock"), Err(VmError::FrameEmpty));
}

#[test]
fn vm_jump_skips_code() {
    // Jump over the first print.
    let module = module_of(
        vec![num("1"), num("2")],
        vec![Opcode::Jump(6), Opcode::Constant(0), Opcode::Print, Opcode::Constant(1), Opcode::Print],
    );
    let ((output, result), _) = run_module(module, &[], false);
    assert_eq!(output, vec!["2"]);
    assert_eq!(result, TestResult::Finished);
}
