use lox::array::Array;
use lox::string::LoxString;

#[test]
fn array_push_pop_and_capacity() {
    let mut array: Array<u32> = Array::new();
    assert_eq!(array.len(), 0);
    array.push(1);
    array.push(2);
    array.push(3);
    assert_eq!(array.as_slice(), &[1, 2, 3]);
    assert_eq!(array.pop(), Some(3));
    assert_eq!(array.pop(), Some(2));
    assert_eq!(array.pop(), Some(1));
    assert_eq!(array.pop(), None);
}

#[test]
fn array_swap_remove_moves_last_into_place() {
    let mut array: Array<u32> = Array::with_capacity(4);
    for value in [10, 20, 30, 40] {
        array.push(value);
    }
    assert_eq!(array.swap_remove(1), 20);
    assert_eq!(array.as_slice(), &[10, 40, 30]);
    assert_eq!(array.swap_remove(2), 30);
    assert_eq!(array.as_slice(), &[10, 40]);
}

#[test]
fn array_with_contents_and_extend() {
    let mut array = Array::with_contents(7u8, 3);
    assert_eq!(array.as_slice(), &[7, 7, 7]);
    array.extend_from_slice(&[1, 2]);
    assert_eq!(array.as_slice(), &[7, 7, 7, 1, 2]);
    let empty = Array::with_contents(1u8, 0);
    assert_eq!(empty.len(), 0);
}

#[test]
fn lox_string_push_and_read_back() {
    let mut string = LoxString::new();
    assert_eq!(string.as_str(), "");
    string.push_str("Hello, ");
    string.push_str("wörld");
    assert_eq!(string.as_str(), "Hello, wörld");
    assert_eq!(string.as_bytes(), "Hello, wörld".as_bytes());
}

#[test]
fn lox_string_from_str_and_capacity() {
    let mut string = LoxString::with_capacity(16);
    string.push_str("abc");
    assert_eq!(string.as_str(), "abc");
    let other = LoxString::from_str("λx");
    assert_eq!(other.as_str(), "λx");
    assert_eq!(other.as_bytes().len(), 3);
}
