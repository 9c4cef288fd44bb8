use vstd::prelude::*;
use crate::position::{BytePos, Diagnostic, Span, WithSpan};
use crate::token::{is_plain_kind, kind_name, lemma_plain_kind, plain_token, token_kind, Token, TokenKind};

verus! {

/// What the parser reads past the last token.
pub open spec fn eof_token() -> WithSpan<Token> {
    WithSpan { span: Span { start: BytePos(0), end: BytePos(0) }, value: Token::Eof }
}

/// The tokens without their spans.
pub open spec fn token_values(tokens: Seq<WithSpan<Token>>) -> Seq<Token> {
    tokens.map_values(|t: WithSpan<Token>| t.value)
}

/// The message for a token of the wrong kind.
pub open spec fn expected_message(expected: Seq<char>, got: Token) -> Seq<char> {
    "Expected "@ + expected + " got "@ + kind_name(token_kind(got))
}

/// The message for a token that cannot stand where it stands.
pub open spec fn unexpected_message(got: Token) -> Seq<char> {
    "Unexpected "@ + kind_name(token_kind(got))
}

/// A cursor over a sequence of tokens, with the diagnostics found so far.
pub struct Parser {
    tokens: Vec<WithSpan<Token>>,
    cursor: usize,
    diagnostics: Vec<Diagnostic>,
    eof: WithSpan<Token>,
}

impl Parser {
    pub closed spec fn spec_tokens(&self) -> Seq<WithSpan<Token>> {
        self.tokens@
    }

    pub closed spec fn spec_cursor(&self) -> int {
        self.cursor as int
    }

    pub closed spec fn spec_diagnostics(&self) -> Seq<Diagnostic> {
        self.diagnostics@
    }

    pub closed spec fn eof_ok(&self) -> bool {
        self.eof == eof_token()
    }

    pub open spec fn wf(&self) -> bool {
        &&& 0 <= self.spec_cursor() <= self.spec_tokens().len()
        &&& self.eof_ok()
    }

    /// The number of tokens not yet consumed.
    pub open spec fn spec_remaining(&self) -> nat {
        (self.spec_tokens().len() - self.spec_cursor()) as nat
    }

    /// The token at index `i`, or the end-of-file token past the last one.
    pub open spec fn spec_token_at(&self, i: int) -> WithSpan<Token> {
        if 0 <= i < self.spec_tokens().len() {
            self.spec_tokens()[i]
        } else {
            eof_token()
        }
    }

    /// The token under the cursor.
    pub open spec fn spec_current(&self) -> WithSpan<Token> {
        self.spec_token_at(self.spec_cursor())
    }

    /// The token values consumed between `self` and the later state `later`.
    pub open spec fn consumed(&self, later: &Parser) -> Seq<Token> {
        token_values(self.spec_tokens()).subrange(self.spec_cursor(), later.spec_cursor())
    }

    /// `later` is a state this parser can reach: same tokens, cursor not
    /// moved back, diagnostics only added.
    pub open spec fn advanced_to(&self, later: &Parser) -> bool {
        &&& self.wf()
        &&& later.wf()
        &&& later.spec_tokens() == self.spec_tokens()
        &&& self.spec_cursor() <= later.spec_cursor()
        &&& self.spec_diagnostics().len() <= later.spec_diagnostics().len()
        &&& forall|i: int| 0 <= i < self.spec_diagnostics().len() ==> #[trigger] later.spec_diagnostics()[i] == self.spec_diagnostics()[i]
    }

    /// A parser at the first of `tokens`.
    pub fn new(tokens: Vec<WithSpan<Token>>) -> (res: Parser)
        ensures
            res.wf(),
            res.spec_tokens() == tokens@,
            res.spec_cursor() == 0,
            res.spec_diagnostics().len() == 0,
    {
        Parser { tokens, cursor: 0, diagnostics: Vec::new(), eof: WithSpan::empty(Token::Eof) }
    }

    /// The diagnostics found so far.
    pub fn diagnostics(&self) -> (res: &[Diagnostic])
        ensures
            res@ == self.spec_diagnostics(),
    {
        self.diagnostics.as_slice()
    }

    /// The diagnostics found, taking the parser apart.
    pub fn into_diagnostics(self) -> (res: Vec<Diagnostic>)
        ensures
            res@ == self.spec_diagnostics(),
    {
        self.diagnostics
    }

    /// Records a diagnostic.
    pub fn error(&mut self, message: &str, span: Span)
        requires
            old(self).wf(),
        ensures
            final(self).wf(),
            final(self).spec_tokens() == old(self).spec_tokens(),
            final(self).spec_cursor() == old(self).spec_cursor(),
            final(self).spec_diagnostics().len() == old(self).spec_diagnostics().len() + 1,
            forall|i: int| 0 <= i < old(self).spec_diagnostics().len() ==> #[trigger] final(self).spec_diagnostics()[i] == old(self).spec_diagnostics()[i],
            final(self).spec_diagnostics().last().message@ == message@,
            final(self).spec_diagnostics().last().span == span,
    {
        self.diagnostics.push(Diagnostic { message: message.to_owned(), span });
        assert(self.diagnostics@.subrange(0, self.diagnostics@.len() - 1) =~= old(self).diagnostics@);
    }

    /// The cursor is past the last token.
    pub fn is_eof(&self) -> (res: bool)
        requires
            self.wf(),
        ensures
            res == (token_kind(self.spec_current().value) == TokenKind::Eof),
    {
        self.check(TokenKind::Eof)
    }

    /// The kind of the token under the cursor.
    pub fn peek(&self) -> (res: TokenKind)
        requires
            self.wf(),
        ensures
            res == token_kind(self.spec_current().value),
    {
        TokenKind::from_token(&self.peek_token().value)
    }

    /// The token under the cursor.
    pub fn peek_token(&self) -> (res: &WithSpan<Token>)
        requires
            self.wf(),
        ensures
            *res == self.spec_current(),
    {
        if self.cursor < self.tokens.len() {
            &self.tokens[self.cursor]
        } else {
            &self.eof
        }
    }

    /// The token under the cursor is of kind `match_token`.
    pub fn check(&self, match_token: TokenKind) -> (res: bool)
        requires
            self.wf(),
        ensures
            res == (token_kind(self.spec_current().value) == match_token),
    {
        let token = self.peek();
        token == match_token
    }

    /// Consumes the token under the cursor and returns it; past the last
    /// token, returns the end-of-file token and consumes nothing.
    pub fn advance(&mut self) -> (res: WithSpan<Token>)
        requires
            old(self).wf(),
        ensures
            final(self).wf(),
            final(self).spec_tokens() == old(self).spec_tokens(),
            final(self).spec_diagnostics() == old(self).spec_diagnostics(),
            res == old(self).spec_current(),
            old(self).spec_cursor() < old(self).spec_tokens().len() ==> final(self).spec_cursor() == old(self).spec_cursor() + 1,
            old(self).spec_cursor() >= old(self).spec_tokens().len() ==> final(self).spec_cursor() == old(self).spec_cursor(),
    {
        if self.cursor < self.tokens.len() {
            let t = &self.tokens[self.cursor];
            let res = WithSpan { span: t.span, value: t.value.duplicate() };
            self.cursor = self.cursor + 1;
            res
        } else {
            WithSpan { span: self.eof.span, value: Token::Eof }
        }
    }

    /// Consumes a token of kind `expected`; anything else is reported.
    pub fn expect(&mut self, expected: TokenKind) -> (res: Result<WithSpan<Token>, ()>)
        requires
            old(self).wf(),
        ensures
            old(self).advanced_to(final(self)),
            res matches Ok(t) ==> t == old(self).spec_current() && token_kind(t.value) == expected
                && (is_plain_kind(expected) ==> t.value == plain_token(expected))
                && final(self).spec_cursor() == old(self).spec_cursor() + if old(self).spec_cursor() < old(self).spec_tokens().len() { 1int } else { 0int }
                && final(self).spec_diagnostics() == old(self).spec_diagnostics(),
            res is Err ==> token_kind(old(self).spec_current().value) != expected
                && final(self).spec_diagnostics().len() == old(self).spec_diagnostics().len() + 1
                && final(self).spec_diagnostics().last().message@ == expected_message(kind_name(expected), old(self).spec_current().value)
                && final(self).spec_diagnostics().last().span == old(self).spec_current().span,
    {
        let token = self.advance();
        if TokenKind::from_token(&token.value) == expected {
            proof {
                if is_plain_kind(expected) {
                    lemma_plain_kind(token.value);
                }
            }
            assert(self.diagnostics@.subrange(0, old(self).diagnostics@.len() as int) =~= old(self).diagnostics@);
            Ok(token)
        } else {
            let message = expected_text(expected.name(), &token.value);
            self.error(message.as_str(), token.span);
            Err(())
        }
    }

    /// Consumes a token of kind `expected` and returns its span; anything
    /// else is reported and gives `None`.
    pub fn expect2(&mut self, expected: TokenKind) -> (res: Option<Span>)
        requires
            old(self).wf(),
        ensures
            old(self).advanced_to(final(self)),
            res matches Some(span) ==> token_kind(old(self).spec_current().value) == expected
                && span == old(self).spec_current().span
                && (is_plain_kind(expected) ==> old(self).spec_current().value == plain_token(expected))
                && final(self).spec_cursor() == old(self).spec_cursor() + if old(self).spec_cursor() < old(self).spec_tokens().len() { 1int } else { 0int }
                && final(self).spec_diagnostics() == old(self).spec_diagnostics(),
            res is None ==> token_kind(old(self).spec_current().value) != expected
                && final(self).spec_diagnostics().len() == old(self).spec_diagnostics().len() + 1
                && final(self).spec_diagnostics().last().message@ == expected_message(kind_name(expected), old(self).spec_current().value),
    {
        match self.expect(expected) {
            Ok(token) => Some(token.span),
            Err(_) => None,
        }
    }

    /// Consumes a token of kind `expected` if it is under the cursor.
    pub fn optionally(&mut self, expected: TokenKind) -> (res: Result<bool, ()>)
        requires
            old(self).wf(),
        ensures
            old(self).advanced_to(final(self)),
            final(self).spec_diagnostics() == old(self).spec_diagnostics(),
            res matches Ok(b) && (b <==> token_kind(old(self).spec_current().value) == expected),
            final(self).spec_cursor() == old(self).spec_cursor() + if token_kind(old(self).spec_current().value) == expected
                && old(self).spec_cursor() < old(self).spec_tokens().len() { 1int } else { 0int },
    {
        let token = self.peek();
        if token == expected {
            self.expect(expected)?;
            Ok(true)
        } else {
            assert(self.diagnostics@.subrange(0, old(self).diagnostics@.len() as int) =~= old(self).diagnostics@);
            Ok(false)
        }
    }
}

/// "Expected <expected> got <got>".
pub fn expected_text(expected: &str, got: &Token) -> (res: String)
    ensures
        res@ == expected_message(expected@, *got),
{
    let mut message = "Expected ".to_owned();
    message.append(expected);
    message.append(" got ");
    message.append(got.name());
    message
}

/// "Unexpected <got>".
pub fn unexpected_text(got: &Token) -> (res: String)
    ensures
        res@ == unexpected_message(*got),
{
    let mut message = "Unexpected ".to_owned();
    message.append(got.name());
    message
}

} // verus!
