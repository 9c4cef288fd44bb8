use lox::bettervm::{Interner, Symbol};
use lox::stack::Stack;
use lox::table::Table;

#[test]
fn table_set_get_has() {
    let mut interner = Interner::new();
    let a = interner.intern("a");
    let b = interner.intern("b");
    let mut table: Table<i64> = Table::new();
    assert_eq!(table.capacity(), 8);
    assert!(!table.has(a));
    assert_eq!(table.get(a), None);
    assert!(table.set(a, 1));
    assert!(table.has(a));
    assert!(!table.has(b));
    assert_eq!(table.get(a), Some(1));
    assert!(!table.set(a, 2));
    assert_eq!(table.get(a), Some(2));
    assert!(!table.has(Symbol::invalid()));
}

#[test]
fn table_grows_and_keeps_every_key() {
    let mut interner = Interner::new();
    let mut table: Table<u32> = Table::new();
    let mut symbols = Vec::new();
    for i in 0..100u32 {
        let symbol = interner.intern(&format!("name{}", i));
        symbols.push(symbol);
        assert!(table.set(symbol, i * 10));
    }
    assert!(table.capacity() >= 128);
    for (i, symbol) in symbols.iter().enumerate() {
        assert_eq!(table.get(*symbol), Some(i as u32 * 10));
    }
}

#[test]
fn stack_push_pop_and_peek() {
    let mut stack: Stack<i32> = Stack::new(4);
    assert_eq!(stack.len(), 0);
    stack.push(1);
    stack.push(2);
    stack.push(3);
    assert_eq!(*stack.peek_n(0), 3);
    assert_eq!(*stack.peek_n(2), 1);
    stack.rset(1, 20);
    assert_eq!(*stack.get(1), 20);
    assert_eq!(stack.pop(), 3);
    stack.set(0, 10);
    assert_eq!(stack.pop_n(2), vec![10, 20]);
    assert_eq!(stack.len(), 0);
    stack.truncate(2);
    assert_eq!(stack.len(), 2);
    assert_eq!(*stack.peek_n(0), 20);
}
