use lox::bettervm::{Interner as FastInterner, Symbol as FastSymbol};
use lox::interner::{intern, Interner, Symbol};
use lox::runtime_error::RuntimeError;

#[test]
fn interning_gives_stable_symbols() {
    let mut interner = Interner::new();
    let a = intern(&mut interner, "alpha");
    let b = intern(&mut interner, "beta");
    let a2 = intern(&mut interner, "alpha");
    assert_eq!(a, Symbol(1));
    assert_eq!(b, Symbol(2));
    assert_eq!(a2, a);
    assert_eq!(a.to_string(&interner), "alpha");
    assert_eq!(b.to_string(&interner), "beta");
    assert_eq!(Symbol::invalid(), Symbol(0));
}

#[test]
fn hashed_interner_gives_stable_symbols() {
    let mut interner = FastInterner::new();
    let init = interner.intern("init");
    let other = interner.intern("other");
    let again = interner.intern("init");
    assert_eq!(init.number(), 1);
    assert_eq!(other.number(), 2);
    assert_eq!(again, init);
    assert_ne!(other, init);
    assert_eq!(FastSymbol::invalid().number(), 0);
}

#[test]
fn runtime_error_messages() {
    let mut interner = Interner::new();
    let name = intern(&mut interner, "answer");
    assert_eq!(RuntimeError::undefined_variable(&interner, name).to_string(), "Undefined variable 'answer'.");
    assert_eq!(RuntimeError::undefined_property(&interner, name).to_string(), "Undefined property 'answer'.");
    assert_eq!(RuntimeError::invalid_call().to_string(), "Can only call functions and classes.");
    assert_eq!(RuntimeError::mismatch_arity(2, 10).to_string(), "Expected 2 arguments but got 10.");
    assert_eq!(RuntimeError::mismatch_arity(0, 123).to_string(), "Expected 0 arguments but got 123.");
    assert_eq!(RuntimeError::only_instances_have_properties().to_string(), "Only instances have properties.");
    assert_eq!(RuntimeError::only_instances_have_fields().to_string(), "Only instances have fields.");
    assert_eq!(RuntimeError::stack_overflow().to_string(), "Stack overflow.");
    assert_eq!(RuntimeError::invalid_binary_operands().to_string(), "Operands must be two numbers or two strings.");
    assert_eq!(RuntimeError::invalid_operand_types().to_string(), "Operands must be numbers.");
    assert_eq!(RuntimeError::new("custom").to_string(), "custom");
}
