use vstd::prelude::*;
use crate::ast::Ast;
use crate::parser::Parser;
use crate::position::{utf8_total, Diagnostic};
use crate::parser::token_values;
use crate::position::WithSpan;
use crate::stmt_parser::stmts_text;
use crate::token::Token;
use crate::tokenizer::{lexed, token_in, token_read_from, tokenize_with_context, tokens_read_from};

verus! {

/// `ast` is a reading of the tokens of all of `code`.
pub open spec fn program_of(code: Seq<char>, ast: Seq<WithSpan<crate::ast::Stmt>>) -> bool {
    exists|tokens: Seq<WithSpan<Token>>|
        tokens_read_from(code, tokens) && lexed(code, tokens) && stmts_text(ast, #[trigger] token_values(tokens))
}

/// However `code` is read into tokens, they are simple statements, `print
/// a;` or `a;` with `a` a literal, `this` or a name, up to the end.
pub open spec fn simple_program(code: Seq<char>) -> bool {
    forall|tokens: Seq<WithSpan<Token>>| #[trigger] tokens_read_from(code, tokens) && lexed(code, tokens)
        ==> crate::stmt_parser::simple_program_from(tokens, 0)
}

/// Tokenizes and parses a whole program.  It succeeds only when the parser
/// reached the end of the tokens and recorded no diagnostic, and then the
/// program is a reading of the tokens of all of `code`; otherwise the
/// diagnostics are returned, and there is at least one.
pub fn parse(code: &str) -> (res: Result<Ast, Vec<Diagnostic>>)
    requires
        utf8_total(code@) <= u32::MAX,
    ensures
        res matches Err(diagnostics) ==> diagnostics@.len() > 0,
        res matches Ok(ast) ==> program_of(code@, ast@),
        simple_program(code@) ==> (res matches Ok(ast) && exists|tokens: Seq<WithSpan<Token>>|
            tokens_read_from(code@, tokens) && lexed(code@, tokens)
            && #[trigger] crate::stmt_parser::simple_stmts_from(tokens, 0, ast@)),
{
    let tokens = tokenize_with_context(code);
    let ghost toks = tokens@;
    assert(simple_program(code@) ==> crate::stmt_parser::simple_program_from(toks, 0));
    let mut parser = Parser::new(tokens);
    let ghost p0 = parser;
    match crate::stmt_parser::parse(&mut parser) {
        Ok(ast) => {
            if parser.diagnostics().len() == 0 {
                proof {
                    let n = parser.spec_cursor();
                    if n < toks.len() {
                        assert(token_in(code@, toks[n]));
                        let (a, b) = choose|a: int, b: int| token_read_from(code@, toks[n], a, b);
                        assert(false);
                    }
                    assert(p0.consumed(&parser) =~= token_values(toks));
                    assert(tokens_read_from(code@, toks) && lexed(code@, toks) && stmts_text(ast@, token_values(toks)));
                    if simple_program(code@) {
                        assert(crate::stmt_parser::simple_stmts_from(toks, 0, ast@));
                    }
                }
                Ok(ast)
            } else {
                Err(parser.into_diagnostics())
            }
        },
        Err(_) => Err(parser.into_diagnostics()),
    }
}

} // verus!
