use vstd::prelude::*;
use crate::interner::{Interner, Symbol};
use crate::string::LoxString;
use crate::text::{chars_of, string_from_chars};

verus! {

/// An error raised while running a program, with its message.
pub struct RuntimeError {
    error: LoxString,
}

/// The decimal digits of `n`, most significant first.
pub open spec fn decimal(n: nat) -> Seq<char>
    decreases n,
{
    if n < 10 {
        seq![digit_char(n)]
    } else {
        decimal(n / 10).push(digit_char(n % 10))
    }
}

/// The character of the decimal digit `d`.
pub open spec fn digit_char(d: nat) -> char {
    ((d + 48) as u8) as char
}

/// Appends the decimal digits of `n` to `out`.
fn push_decimal(out: &mut Vec<char>, n: usize)
    ensures
        final(out)@ == old(out)@ + decimal(n as nat),
    decreases n,
{
    if n >= 10 {
        push_decimal(out, n / 10);
    }
    let d = (n % 10) as u8;
    out.push((d + 48) as char);
    proof {
        if n >= 10 {
            assert(old(out)@ + decimal(n as nat) =~= old(out)@ + decimal((n / 10) as nat) + seq![digit_char((n % 10) as nat)]);
        } else {
            assert(old(out)@ + decimal(n as nat) =~= old(out)@.push(digit_char(n as nat)));
        }
    }
}

/// Appends the characters of `s` to `out`.
fn push_str_chars(out: &mut Vec<char>, s: &str)
    ensures
        final(out)@ == old(out)@ + s@,
{
    let chars = chars_of(s);
    let mut i: usize = 0;
    while i < chars.len()
        invariant
            chars@ == s@,
            i <= chars@.len(),
            out@ == old(out)@ + s@.subrange(0, i as int),
        decreases chars@.len() - i,
    {
        out.push(chars[i]);
        assert(s@.subrange(0, i + 1) =~= s@.subrange(0, i as int).push(s@[i as int]));
        i = i + 1;
    }
    assert(s@.subrange(0, s@.len() as int) =~= s@);
}

/// An error whose message is `chars`.
fn from_chars(chars: &Vec<char>) -> (res: RuntimeError)
    ensures
        res.wf(),
        res@ == chars@,
{
    let text = string_from_chars(chars.as_slice());
    RuntimeError::new(text.as_str())
}

/// The message `before`, `name`, `after`.
fn quoted(before: &str, name: &str, after: &str) -> (res: RuntimeError)
    ensures
        res.wf(),
        res@ == before@ + name@ + after@,
{
    let mut chars: Vec<char> = Vec::new();
    push_str_chars(&mut chars, before);
    push_str_chars(&mut chars, name);
    push_str_chars(&mut chars, after);
    proof { assert(chars@ =~= before@ + name@ + after@); }
    from_chars(&chars)
}

impl View for RuntimeError {
    type V = Seq<char>;

    closed spec fn view(&self) -> Seq<char> {
        self.error@
    }
}

impl RuntimeError {
    /// The message is stored as a well-formed string.
    pub closed spec fn wf(&self) -> bool {
        self.error.wf()
    }

    /// An error with message `error`.
    pub fn new(error: &str) -> (res: RuntimeError)
        ensures
            res.wf(),
            res@ == error@,
    {
        RuntimeError { error: LoxString::from_str(error) }
    }

    /// The message of the error.
    pub fn to_string(&self) -> (res: String)
        requires
            self.wf(),
        ensures
            res@ == self@,
    {
        self.error.as_str().to_string()
    }

    /// "Undefined variable '...'." for the variable named by `identifier`.
    pub fn undefined_variable(interner: &Interner, identifier: Symbol) -> (res: RuntimeError)
        requires
            interner.wf(),
            1 <= identifier.0 <= interner.spec_names().len(),
        ensures
            res.wf(),
            res@ == "Undefined variable '"@ + interner.spec_names()[identifier.0 - 1] + "'."@,
    {
        let name = identifier.to_string(interner);
        quoted("Undefined variable '", name.as_str(), "'.")
    }

    /// "Undefined property '...'." for the property named by `identifier`.
    pub fn undefined_property(interner: &Interner, identifier: Symbol) -> (res: RuntimeError)
        requires
            interner.wf(),
            1 <= identifier.0 <= interner.spec_names().len(),
        ensures
            res.wf(),
            res@ == "Undefined property '"@ + interner.spec_names()[identifier.0 - 1] + "'."@,
    {
        let name = identifier.to_string(interner);
        quoted("Undefined property '", name.as_str(), "'.")
    }

    /// "Can only call functions and classes."
    pub fn invalid_call() -> (res: RuntimeError)
        ensures
            res.wf(),
            res@ == "Can only call functions and classes."@,
    {
        Self::new("Can only call functions and classes.")
    }

    /// "Expected N arguments but got M."
    pub fn mismatch_arity(expected: usize, actual: usize) -> (res: RuntimeError)
        ensures
            res.wf(),
            res@ == "Expected "@ + decimal(expected as nat) + " arguments but got "@ + decimal(actual as nat) + "."@,
    {
        let mut chars: Vec<char> = Vec::new();
        push_str_chars(&mut chars, "Expected ");
        push_decimal(&mut chars, expected);
        push_str_chars(&mut chars, " arguments but got ");
        push_decimal(&mut chars, actual);
        push_str_chars(&mut chars, ".");
        from_chars(&chars)
    }

    /// "Only instances have properties."
    pub fn only_instances_have_properties() -> (res: RuntimeError)
        ensures
            res.wf(),
            res@ == "Only instances have properties."@,
    {
        Self::new("Only instances have properties.")
    }

    /// "Only instances have fields."
    pub fn only_instances_have_fields() -> (res: RuntimeError)
        ensures
            res.wf(),
            res@ == "Only instances have fields."@,
    {
        Self::new("Only instances have fields.")
    }

    /// "Stack overflow."
    pub fn stack_overflow() -> (res: RuntimeError)
        ensures
            res.wf(),
            res@ == "Stack overflow."@,
    {
        Self::new("Stack overflow.")
    }

    /// "Operands must be two numbers or two strings."
    pub fn invalid_binary_operands() -> (res: RuntimeError)
        ensures
            res.wf(),
            res@ == "Operands must be two numbers or two strings."@,
    {
        Self::new("Operands must be two numbers or two strings.")
    }

    /// "Operands must be numbers."
    pub fn invalid_operand_types() -> (res: RuntimeError)
        ensures
            res.wf(),
            res@ == "Operands must be numbers."@,
    {
        Self::new("Operands must be numbers.")
    }
}

} // verus!
