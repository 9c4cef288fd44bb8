//! A Lox toolchain: tokenizer, parser, bytecode compiler, a bytecode
//! interpreter that leaves arithmetic on numbers and printing to its host,
//! a mark-and-sweep collector and the page allocator behind it, with their
//! contracts.

pub mod opcode;
pub mod bytecode;
pub mod number;
pub mod text;
pub mod position;
pub mod token;
pub mod tokenizer;
pub mod ast;
pub mod parser;
pub mod expr_parser;
pub mod stmt_parser;
pub mod syntax;
pub mod heap;
pub mod compiler;
pub mod array;
pub mod string;
pub mod interner;
pub mod bettervm;
pub mod runtime;
pub mod runtime_error;
pub mod gc;
pub mod table;
pub mod stack;
pub mod memory;
pub mod vm;
pub mod ops;
pub mod interpret;
pub mod collect;

use vstd::prelude::*;
use crate::bytecode::Module;
use crate::position::{utf8_total, Diagnostic, WithSpan};
use crate::ast::Stmt;

verus! {

/// However `code` is read into tokens, they are statements `print a;` or
/// `a;`, with `a` a literal or a name, up to the end.
pub open spec fn plain_source(code: Seq<char>) -> bool {
    &&& syntax::simple_program(code)
    &&& forall|tokens: Seq<WithSpan<token::Token>>| #[trigger] tokenizer::tokens_read_from(code, tokens)
        && tokenizer::lexed(code, tokens) ==> no_excluded_tokens(tokens)
}

/// The token is `this`, `{` or `for`.
pub open spec fn excluded_token(t: token::Token) -> bool {
    match t {
        token::Token::This | token::Token::LeftBrace | token::Token::For => true,
        _ => false,
    }
}

/// No token is `this`, `{` or `for`.
pub open spec fn no_excluded_tokens(tokens: Seq<WithSpan<token::Token>>) -> bool {
    forall|k: int| 0 <= k < tokens.len() ==> !excluded_token(#[trigger] tokens[k].value)
}

/// Simple statements over such tokens form a plain program.
proof fn lemma_simple_plain(tokens: Seq<WithSpan<token::Token>>, i: int, ss: Seq<WithSpan<Stmt>>)
    requires
        stmt_parser::simple_stmts_from(tokens, i, ss),
        no_excluded_tokens(tokens),
    ensures
        compiler::plain_program(ss),
    decreases tokens.len() - i,
{
    if ss.len() > 0 {
        let n = stmt_parser::simple_stmt_len(tokens, i);
        stmt_parser::lemma_simple_len_bound(tokens, i);
        lemma_simple_plain(tokens, i + n, ss.drop_first());
        let t0 = stmt_parser::tok_at(tokens, i);
        let t1 = stmt_parser::tok_at(tokens, i + 1);
        assert(!excluded_token(t0.value));
        if i + 1 < tokens.len() {
            assert(!excluded_token(tokens[i + 1].value));
        }
        assert forall|k: int| 0 <= k < ss.len() implies match (#[trigger] ss[k]).value {
            Stmt::Print(e) => compiler::plain_expr(*e),
            Stmt::Expression(e) => compiler::plain_expr(*e),
            Stmt::Var(_, init) => match init {
                Some(e) => compiler::plain_expr(*e),
                None => true,
            },
            _ => false,
        } by {
            if k > 0 {
                assert(ss[k] == ss.drop_first()[k - 1]);
            }
        }
    }
}

/// Parses and compiles a program: the parser's diagnostics when it does not
/// parse, the compiler's when it does not compile, and otherwise a module
/// whose chunks are whole instructions referring into it, and whose
/// constants are those of the program's literals, in source order.
pub fn compile(code: &str) -> (res: Result<Module, Vec<Diagnostic>>)
    requires
        utf8_total(code@) <= u32::MAX,
    ensures
        res matches Ok(m) ==> compiler::sound_module(m) && m.spec_chunks().len() >= 1,
        res matches Ok(m) ==> exists|ast: Seq<WithSpan<Stmt>>| #[trigger] syntax::program_of(code@, ast)
            && m.spec_constants() == compiler::stmts_constants(ast, compiler::ContextType::TopLevel),
        res matches Err(errors) ==> errors@.len() > 0,
        plain_source(code@) ==> res is Ok,
{
    let ast = match syntax::parse(code) {
        Ok(ast) => ast,
        Err(errors) => return Err(errors),
    };
    proof {
        if plain_source(code@) {
            let tokens = choose|tokens: Seq<WithSpan<token::Token>>| tokenizer::tokens_read_from(code@, tokens)
                && tokenizer::lexed(code@, tokens) && #[trigger] stmt_parser::simple_stmts_from(tokens, 0, ast@);
            lemma_simple_plain(tokens, 0, ast@);
        }
    }
    let res = compiler::compile(&ast);
    proof {
        if res is Ok {
            assert(syntax::program_of(code@, ast@));
        }
    }
    res
}

} // verus!
