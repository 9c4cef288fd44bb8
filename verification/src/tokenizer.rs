use vstd::prelude::*;
use crate::number::{Number, is_digit, all_digits, canonical_decimal};
use crate::position::{BytePos, Span, WithSpan, utf8_total, lemma_utf8_total_prefix};
use crate::text::{push_char, string_from_chars};
use crate::token::Token;

verus! {

pub open spec fn is_alpha(c: char) -> bool {
    ('a' <= c && c <= 'z') || ('A' <= c && c <= 'Z')
}

pub open spec fn is_ident_start(c: char) -> bool {
    is_alpha(c) || c == '_'
}

pub open spec fn is_ident_char(c: char) -> bool {
    is_alpha(c) || is_digit(c) || c == '_'
}

/// The token a keyword is read as; `None` for any other word.
pub open spec fn keyword(s: Seq<char>) -> Option<Token> {
    if s == seq!['a', 'n', 'd'] { Some(Token::And) }
    else if s == seq!['c', 'l', 'a', 's', 's'] { Some(Token::Class) }
    else if s == seq!['e', 'l', 's', 'e'] { Some(Token::Else) }
    else if s == seq!['f', 'a', 'l', 's', 'e'] { Some(Token::False) }
    else if s == seq!['f', 'o', 'r'] { Some(Token::For) }
    else if s == seq!['f', 'u', 'n'] { Some(Token::Fun) }
    else if s == seq!['i', 'f'] { Some(Token::If) }
    else if s == seq!['i', 'm', 'p', 'o', 'r', 't'] { Some(Token::Import) }
    else if s == seq!['n', 'i', 'l'] { Some(Token::Nil) }
    else if s == seq!['o', 'r'] { Some(Token::Or) }
    else if s == seq!['p', 'r', 'i', 'n', 't'] { Some(Token::Print) }
    else if s == seq!['r', 'e', 't', 'u', 'r', 'n'] { Some(Token::Return) }
    else if s == seq!['s', 'u', 'p', 'e', 'r'] { Some(Token::Super) }
    else if s == seq!['t', 'h', 'i', 's'] { Some(Token::This) }
    else if s == seq!['t', 'r', 'u', 'e'] { Some(Token::True) }
    else if s == seq!['v', 'a', 'r'] { Some(Token::Var) }
    else if s == seq!['w', 'h', 'i', 'l', 'e'] { Some(Token::While) }
    else { None }
}

/// The token that a single character stands for on its own.
pub open spec fn single_char_token(c: char) -> Option<Token> {
    if c == '.' { Some(Token::Dot) }
    else if c == '(' { Some(Token::LeftParen) }
    else if c == ')' { Some(Token::RightParen) }
    else if c == '{' { Some(Token::LeftBrace) }
    else if c == '}' { Some(Token::RightBrace) }
    else if c == ',' { Some(Token::Comma) }
    else if c == '-' { Some(Token::Minus) }
    else if c == '+' { Some(Token::Plus) }
    else if c == ';' { Some(Token::Semicolon) }
    else if c == '*' { Some(Token::Star) }
    else { None }
}

/// A character that starts some token or some skipped text.
pub open spec fn is_known_start(c: char) -> bool {
    c == '=' || c == '!' || c == '<' || c == '>' || c == ' ' || c == '/' || c == '\n'
        || c == '\t' || c == '\r' || c == '"' || is_digit(c) || is_ident_start(c)
        || single_char_token(c) is Some
}

/// The token read from the characters `a..b` of `s` is the longest one
/// that starts there: the character after it would not extend it.
pub open spec fn maximal(s: Seq<char>, a: int, b: int) -> bool {
    &&& (s[a] == '=' || s[a] == '!' || s[a] == '<' || s[a] == '>') && b == a + 1 ==> !(b < s.len() && s[b] == '=')
    &&& s[a] == '/' && b == a + 1 ==> !(b < s.len() && s[b] == '/')
    &&& is_ident_start(s[a]) ==> !(b < s.len() && is_ident_char(s[b]))
    &&& is_digit(s[a]) ==> !(b < s.len() && is_digit(s[b]))
        && (!s.subrange(a, b).contains('.') ==> !(b + 1 < s.len() && s[b] == '.' && is_digit(s[b + 1])))
}

/// A character the lexer skips.
pub open spec fn is_blank(c: char) -> bool {
    c == ' ' || c == '\n' || c == '\t' || c == '\r'
}

/// One stretch the lexer skips: a blank, or a `//` comment, which runs up
/// to the end of its line.
pub open spec fn skip_step(g: Seq<char>) -> bool {
    ||| (g.len() == 1 && is_blank(g[0]))
    ||| (g.len() >= 2 && g[0] == '/' && g[1] == '/' && forall|j: int| 2 <= j < g.len() ==> g[j] != '\n')
}

/// `g` is only blanks and comments.
pub open spec fn blank_text(g: Seq<char>) -> bool
    decreases g.len(),
{
    if g.len() == 0 {
        true
    } else {
        exists|k: int| 0 <= k < g.len() && blank_text(#[trigger] g.take(k)) && skip_step(g.skip(k))
    }
}

/// Where the stretch before token `i` begins: at the end of the token
/// before it, or at the start.
pub open spec fn gap_start(bounds: Seq<(int, int)>, i: int) -> int {
    if i == 0 { 0 } else { bounds[i - 1].1 }
}

/// Token `i` of `tokens` was read from the characters `bounds[i]` of `s`,
/// as the longest token starting there, and what lies before, between and
/// after the tokens is only blanks and comments.
pub open spec fn lexed_with(s: Seq<char>, tokens: Seq<WithSpan<Token>>, bounds: Seq<(int, int)>) -> bool {
    &&& bounds.len() == tokens.len()
    &&& forall|i: int| 0 <= i < tokens.len() ==> token_read_from(s, tokens[i], #[trigger] bounds[i].0, bounds[i].1)
    &&& forall|i: int| 0 <= i < tokens.len() ==> maximal(s, #[trigger] bounds[i].0, bounds[i].1)
    &&& forall|i: int| 0 <= i < tokens.len() ==> blank_text(s.subrange(gap_start(bounds, i), #[trigger] bounds[i].0))
    &&& blank_text(s.subrange(gap_start(bounds, tokens.len() as int), s.len() as int))
}

/// `tokens` is a reading of all of `s`: the tokens in order, each the
/// longest that starts where it starts, with only blanks and comments
/// around them.
pub open spec fn lexed(s: Seq<char>, tokens: Seq<WithSpan<Token>>) -> bool {
    exists|bounds: Seq<(int, int)>| lexed_with(s, tokens, bounds)
}

proof fn lemma_blank_append(g: Seq<char>, h: Seq<char>)
    requires
        blank_text(g),
        skip_step(h),
    ensures
        blank_text(g + h),
{
    let t = g + h;
    let k = g.len() as int;
    assert(t.take(k) =~= g);
    assert(t.skip(k) =~= h);
}

/// No `"` in `s`.
pub open spec fn no_quote(s: Seq<char>) -> bool {
    forall|i: int| 0 <= i < s.len() ==> s[i] != '"'
}

pub open spec fn all_ident_chars(s: Seq<char>) -> bool {
    forall|i: int| 0 <= i < s.len() ==> is_ident_char(#[trigger] s[i])
}

/// `lexeme` is the text of `token`.
pub open spec fn lexeme_of(lexeme: Seq<char>, token: Token) -> bool {
    match token {
        Token::Equal => lexeme == seq!['='],
        Token::EqualEqual => lexeme == seq!['=', '='],
        Token::Bang => lexeme == seq!['!'],
        Token::BangEqual => lexeme == seq!['!', '='],
        Token::Less => lexeme == seq!['<'],
        Token::LessEqual => lexeme == seq!['<', '='],
        Token::Greater => lexeme == seq!['>'],
        Token::GreaterEqual => lexeme == seq!['>', '='],
        Token::Slash => lexeme == seq!['/'],
        Token::String(s) => {
            &&& lexeme.len() >= 2
            &&& lexeme[0] == '"'
            &&& lexeme.last() == '"'
            &&& s@ == lexeme.subrange(1, lexeme.len() - 1)
            &&& no_quote(s@)
        },
        Token::UnterminatedString => {
            &&& lexeme.len() >= 1
            &&& lexeme[0] == '"'
            &&& no_quote(lexeme.drop_first())
        },
        Token::Number(n) => {
            ||| (all_digits(lexeme) && lexeme.len() >= 1 && n@ == canonical_decimal(lexeme, Seq::empty()))
            ||| exists|k: int| 1 <= k && k + 1 < lexeme.len() && #[trigger] lexeme[k] == '.'
                && all_digits(lexeme.subrange(0, k)) && all_digits(lexeme.subrange(k + 1, lexeme.len() as int))
                && n@ == canonical_decimal(lexeme.subrange(0, k), lexeme.subrange(k + 1, lexeme.len() as int))
        },
        Token::Identifier(s) => {
            &&& lexeme.len() >= 1
            &&& is_ident_start(lexeme[0])
            &&& all_ident_chars(lexeme)
            &&& s@ == lexeme
            &&& keyword(lexeme) is None
        },
        Token::Unknown(c) => lexeme == seq![c] && !is_known_start(c),
        Token::Eof => false,
        _ => {
            ||| (lexeme.len() == 1 && single_char_token(lexeme[0]) == Some(token))
            ||| (lexeme.len() >= 1 && is_ident_start(lexeme[0]) && all_ident_chars(lexeme) && keyword(lexeme) == Some(token))
        },
    }
}

/// The byte offset of the character at index `i` of `s`.
pub open spec fn byte_offset(s: Seq<char>, i: int) -> nat {
    utf8_total(s.subrange(0, i))
}

/// The token `t` was read from the characters `a..b` of `s`.
pub open spec fn token_read_from(s: Seq<char>, t: WithSpan<Token>, a: int, b: int) -> bool {
    &&& 0 <= a < b <= s.len()
    &&& t.span.start.0 == byte_offset(s, a)
    &&& t.span.end.0 == byte_offset(s, b)
    &&& lexeme_of(s.subrange(a, b), t.value)
}

struct Scanner {
    current_position: BytePos,
    chars: Vec<char>,
    index: usize,
}

impl Scanner {
    spec fn wf(&self) -> bool {
        &&& self.index <= self.chars@.len()
        &&& utf8_total(self.chars@) <= u32::MAX
        &&& self.current_position.0 == byte_offset(self.chars@, self.index as int)
    }

    fn new(buf: &str) -> (res: Scanner)
        requires
            utf8_total(buf@) <= u32::MAX,
        ensures
            res.wf(),
            res.chars@ == buf@,
            res.index == 0,
    {
        let chars = crate::text::chars_of(buf);
        assert(chars@.subrange(0, 0) =~= Seq::<char>::empty());
        Scanner { current_position: BytePos(0), chars, index: 0 }
    }

    fn next(&mut self) -> (res: Option<char>)
        requires
            old(self).wf(),
        ensures
            final(self).wf(),
            final(self).chars == old(self).chars,
            old(self).index < old(self).chars@.len() ==> res == Some(old(self).chars@[old(self).index as int])
                && final(self).index == old(self).index + 1,
            old(self).index >= old(self).chars@.len() ==> res is None && final(self).index == old(self).index,
    {
        if self.index < self.chars.len() {
            let c = self.chars[self.index];
            proof {
                let s = self.chars@;
                let i = self.index as int;
                lemma_utf8_total_prefix(s, i + 1, s.len() as int);
                assert(s.subrange(0, i + 1).drop_last() =~= s.subrange(0, i));
                assert(s.subrange(0, s.len() as int) =~= s);
            }
            self.current_position = self.current_position.shift(c);
            self.index = self.index + 1;
            Some(c)
        } else {
            None
        }
    }

    fn peek(&self) -> (res: Option<char>)
        requires
            self.wf(),
        ensures
            self.index < self.chars@.len() ==> res == Some(self.chars@[self.index as int]),
            self.index >= self.chars@.len() ==> res is None,
    {
        if self.index < self.chars.len() {
            Some(self.chars[self.index])
        } else {
            None
        }
    }

    // Consume next char if it matches
    fn consume_if<F: Fn(char) -> bool>(&mut self, x: F) -> (res: bool)
        requires
            old(self).wf(),
            forall|c: char| call_requires(x, (c,)),
        ensures
            final(self).wf(),
            final(self).chars == old(self).chars,
            res ==> old(self).index < old(self).chars@.len() && final(self).index == old(self).index + 1
                && call_ensures(x, (old(self).chars@[old(self).index as int],), true),
            !res ==> final(self).index == old(self).index && (old(self).index < old(self).chars@.len()
                ==> call_ensures(x, (old(self).chars@[old(self).index as int],), false)),
    {
        if let Some(ch) = self.peek() {
            if x(ch) {
                self.next();
                true
            } else {
                false
            }
        } else {
            false
        }
    }

    // Consume next char if the next one after matches (so .3 eats . if 3 is numeric, for example)
    fn consume_if_next<F: Fn(char) -> bool>(&mut self, x: F) -> (res: bool)
        requires
            old(self).wf(),
            forall|c: char| call_requires(x, (c,)),
        ensures
            final(self).wf(),
            final(self).chars == old(self).chars,
            res ==> old(self).index + 1 < old(self).chars@.len() && final(self).index == old(self).index + 1
                && call_ensures(x, (old(self).chars@[old(self).index + 1],), true),
            !res ==> final(self).index == old(self).index && (old(self).index + 1 < old(self).chars@.len()
                ==> call_ensures(x, (old(self).chars@[old(self).index + 1],), false)),
    {
        if self.index >= self.chars.len() {
            return false;
        }
        if self.index + 1 < self.chars.len() {
            let ch = self.chars[self.index + 1];
            if x(ch) {
                self.next();
                true
            } else {
                false
            }
        } else {
            false
        }
    }

    fn consume_while<F: Fn(char) -> bool>(&mut self, x: F) -> (res: Vec<char>)
        requires
            old(self).wf(),
            forall|c: char| call_requires(x, (c,)),
        ensures
            final(self).wf(),
            final(self).chars == old(self).chars,
            old(self).index <= final(self).index,
            res@ == old(self).chars@.subrange(old(self).index as int, final(self).index as int),
            forall|i: int| old(self).index <= i < final(self).index ==> call_ensures(x, (#[trigger] old(self).chars@[i],), true),
            final(self).index < final(self).chars@.len() ==> call_ensures(x, (final(self).chars@[final(self).index as int],), false),
    {
        let mut chars: Vec<char> = Vec::new();
        let ghost start = self.index as int;
        loop
            invariant
                self.wf(),
                self.chars == old(self).chars,
                start == old(self).index,
                start <= self.index,
                forall|c: char| call_requires(x, (c,)),
                chars@ == self.chars@.subrange(start, self.index as int),
                forall|i: int| start <= i < self.index ==> call_ensures(x, (#[trigger] self.chars@[i],), true),
            ensures
                self.wf(),
                self.chars == old(self).chars,
                start <= self.index,
                chars@ == self.chars@.subrange(start, self.index as int),
                forall|i: int| start <= i < self.index ==> call_ensures(x, (#[trigger] self.chars@[i],), true),
                self.index < self.chars@.len() ==> call_ensures(x, (self.chars@[self.index as int],), false),
            decreases self.chars@.len() - self.index,
        {
            match self.peek() {
                Some(ch) => {
                    if x(ch) {
                        self.next();
                        chars.push(ch);
                        assert(self.chars@.subrange(start, self.index as int) =~= self.chars@.subrange(start, self.index - 1).push(ch));
                    } else {
                        break;
                    }
                },
                None => {
                    break;
                },
            }
        }
        chars
    }
}

struct Lexer {
    it: Scanner,
}

/// Maps a word to its keyword token, if it is one.
fn keyword_of(identifier: &Vec<char>) -> (res: Option<Token>)
    ensures
        res == keyword(identifier@),
{
    let s = identifier.as_slice();
    let n = s.len();
    if n == 2 {
        if s[0] == 'i' && s[1] == 'f' { assert(s@ =~= seq!['i', 'f']); return Some(Token::If); }
        if s[0] == 'o' && s[1] == 'r' { assert(s@ =~= seq!['o', 'r']); return Some(Token::Or); }
    } else if n == 3 {
        if s[0] == 'a' && s[1] == 'n' && s[2] == 'd' { assert(s@ =~= seq!['a', 'n', 'd']); return Some(Token::And); }
        if s[0] == 'f' && s[1] == 'o' && s[2] == 'r' { assert(s@ =~= seq!['f', 'o', 'r']); return Some(Token::For); }
        if s[0] == 'f' && s[1] == 'u' && s[2] == 'n' { assert(s@ =~= seq!['f', 'u', 'n']); return Some(Token::Fun); }
        if s[0] == 'n' && s[1] == 'i' && s[2] == 'l' { assert(s@ =~= seq!['n', 'i', 'l']); return Some(Token::Nil); }
        if s[0] == 'v' && s[1] == 'a' && s[2] == 'r' { assert(s@ =~= seq!['v', 'a', 'r']); return Some(Token::Var); }
    } else if n == 4 {
        if s[0] == 'e' && s[1] == 'l' && s[2] == 's' && s[3] == 'e' { assert(s@ =~= seq!['e', 'l', 's', 'e']); return Some(Token::Else); }
        if s[0] == 't' && s[1] == 'h' && s[2] == 'i' && s[3] == 's' { assert(s@ =~= seq!['t', 'h', 'i', 's']); return Some(Token::This); }
        if s[0] == 't' && s[1] == 'r' && s[2] == 'u' && s[3] == 'e' { assert(s@ =~= seq!['t', 'r', 'u', 'e']); return Some(Token::True); }
    } else if n == 5 {
        if s[0] == 'c' && s[1] == 'l' && s[2] == 'a' && s[3] == 's' && s[4] == 's' { assert(s@ =~= seq!['c', 'l', 'a', 's', 's']); return Some(Token::Class); }
        if s[0] == 'f' && s[1] == 'a' && s[2] == 'l' && s[3] == 's' && s[4] == 'e' { assert(s@ =~= seq!['f', 'a', 'l', 's', 'e']); return Some(Token::False); }
        if s[0] == 'p' && s[1] == 'r' && s[2] == 'i' && s[3] == 'n' && s[4] == 't' { assert(s@ =~= seq!['p', 'r', 'i', 'n', 't']); return Some(Token::Print); }
        if s[0] == 's' && s[1] == 'u' && s[2] == 'p' && s[3] == 'e' && s[4] == 'r' { assert(s@ =~= seq!['s', 'u', 'p', 'e', 'r']); return Some(Token::Super); }
        if s[0] == 'w' && s[1] == 'h' && s[2] == 'i' && s[3] == 'l' && s[4] == 'e' { assert(s@ =~= seq!['w', 'h', 'i', 'l', 'e']); return Some(Token::While); }
    } else if n == 6 {
        if s[0] == 'r' && s[1] == 'e' && s[2] == 't' && s[3] == 'u' && s[4] == 'r' && s[5] == 'n' { assert(s@ =~= seq!['r', 'e', 't', 'u', 'r', 'n']); return Some(Token::Return); }
        if s[0] == 'i' && s[1] == 'm' && s[2] == 'p' && s[3] == 'o' && s[4] == 'r' && s[5] == 't' { assert(s@ =~= seq!['i', 'm', 'p', 'o', 'r', 't']); return Some(Token::Import); }
    }
    None
}

impl Lexer {
    spec fn wf(&self) -> bool {
        self.it.wf()
    }

    fn new(buf: &str) -> (res: Lexer)
        requires
            utf8_total(buf@) <= u32::MAX,
        ensures
            res.wf(),
            res.it.chars@ == buf@,
            res.it.index == 0,
    {
        Lexer { it: Scanner::new(buf) }
    }

    fn either(&mut self, to_match: char, matched: Token, unmatched: Token) -> (res: Token)
        requires
            old(self).wf(),
        ensures
            final(self).wf(),
            final(self).it.chars == old(self).it.chars,
            (res == matched && old(self).it.index < old(self).it.chars@.len()
                && old(self).it.chars@[old(self).it.index as int] == to_match
                && final(self).it.index == old(self).it.index + 1)
            || (res == unmatched && final(self).it.index == old(self).it.index
                && !(old(self).it.index < old(self).it.chars@.len()
                    && old(self).it.chars@[old(self).it.index as int] == to_match)),
    {
        if self.it.consume_if(|ch: char| -> (r: bool) ensures r == (ch == to_match) { ch == to_match }) {
            matched
        } else {
            unmatched
        }
    }

    /// Reads the token that starts with `ch`, which was just consumed; `None`
    /// for skipped text (blanks and comments).
    fn match_token(&mut self, ch: char) -> (res: Option<Token>)
        requires
            old(self).wf(),
            old(self).it.index >= 1,
            old(self).it.chars@[old(self).it.index - 1] == ch,
        ensures
            final(self).wf(),
            final(self).it.chars == old(self).it.chars,
            old(self).it.index <= final(self).it.index,
            res matches Some(t) ==> lexeme_of(
                final(self).it.chars@.subrange(old(self).it.index - 1, final(self).it.index as int), t),
            res is None ==> skip_step(final(self).it.chars@.subrange(old(self).it.index - 1, final(self).it.index as int)),
            res is Some ==> maximal(final(self).it.chars@, old(self).it.index - 1, final(self).it.index as int),
    {
        let ghost s = self.it.chars@;
        let ghost a = self.it.index - 1;
        if ch == '=' {
            let t = self.either('=', Token::EqualEqual, Token::Equal);
            assert(s.subrange(a, self.it.index as int) =~= if self.it.index == a + 2 { seq!['=', '='] } else { seq!['='] });
            Some(t)
        } else if ch == '!' {
            let t = self.either('=', Token::BangEqual, Token::Bang);
            assert(s.subrange(a, self.it.index as int) =~= if self.it.index == a + 2 { seq!['!', '='] } else { seq!['!'] });
            Some(t)
        } else if ch == '<' {
            let t = self.either('=', Token::LessEqual, Token::Less);
            assert(s.subrange(a, self.it.index as int) =~= if self.it.index == a + 2 { seq!['<', '='] } else { seq!['<'] });
            Some(t)
        } else if ch == '>' {
            let t = self.either('=', Token::GreaterEqual, Token::Greater);
            assert(s.subrange(a, self.it.index as int) =~= if self.it.index == a + 2 { seq!['>', '='] } else { seq!['>'] });
            Some(t)
        } else if ch == ' ' {
            assert(s.subrange(a, self.it.index as int) =~= seq![ch]);
            None
        } else if ch == '/' {
            if self.it.consume_if(|c: char| -> (r: bool) ensures r == (c == '/') { c == '/' }) {
                let ghost m = self.it.index as int;
                self.it.consume_while(|c: char| -> (r: bool) ensures r == (c != '\n') { c != '\n' });
                proof {
                    let g = s.subrange(a, self.it.index as int);
                    assert(g[0] == '/' && g[1] == '/');
                    assert forall|j: int| 2 <= j < g.len() implies g[j] != '\n' by {
                        assert(g[j] == s[a + j]);
                    }
                }
                None
            } else {
                assert(s.subrange(a, self.it.index as int) =~= seq!['/']);
                Some(Token::Slash)
            }
        } else if ch == '\n' || ch == '\t' || ch == '\r' {
            assert(s.subrange(a, self.it.index as int) =~= seq![ch]);
            None
        } else if ch == '"' {
            let chars = self.it.consume_while(|c: char| -> (r: bool) ensures r == (c != '"') { c != '"' });
            let ghost mid = self.it.index as int;
            assert(no_quote(chars@)) by {
                assert forall|i: int| 0 <= i < chars@.len() implies chars@[i] != '"' by {
                    assert(chars@[i] == s[a + 1 + i]);
                }
            }
            // Skip last "
            match self.it.next() {
                None => {
                    assert(s.subrange(a, self.it.index as int).drop_first() =~= chars@);
                    Some(Token::UnterminatedString)
                },
                _ => {
                    let string = string_from_chars(chars.as_slice());
                    let ghost lex = s.subrange(a, self.it.index as int);
                    assert(lex.subrange(1, lex.len() - 1) =~= chars@);
                    Some(Token::String(string))
                },
            }
        } else if '0' <= ch && ch <= '9' {
            self.number(ch)
        } else if ('a' <= ch && ch <= 'z') || ('A' <= ch && ch <= 'Z') || ch == '_' {
            self.identifier(ch)
        } else if ch == '.' {
            assert(s.subrange(a, self.it.index as int) =~= seq![ch]);
            Some(Token::Dot)
        } else if ch == '(' {
            assert(s.subrange(a, self.it.index as int) =~= seq![ch]);
            Some(Token::LeftParen)
        } else if ch == ')' {
            assert(s.subrange(a, self.it.index as int) =~= seq![ch]);
            Some(Token::RightParen)
        } else if ch == '{' {
            assert(s.subrange(a, self.it.index as int) =~= seq![ch]);
            Some(Token::LeftBrace)
        } else if ch == '}' {
            assert(s.subrange(a, self.it.index as int) =~= seq![ch]);
            Some(Token::RightBrace)
        } else if ch == ',' {
            assert(s.subrange(a, self.it.index as int) =~= seq![ch]);
            Some(Token::Comma)
        } else if ch == '-' {
            assert(s.subrange(a, self.it.index as int) =~= seq![ch]);
            Some(Token::Minus)
        } else if ch == '+' {
            assert(s.subrange(a, self.it.index as int) =~= seq![ch]);
            Some(Token::Plus)
        } else if ch == ';' {
            assert(s.subrange(a, self.it.index as int) =~= seq![ch]);
            Some(Token::Semicolon)
        } else if ch == '*' {
            assert(s.subrange(a, self.it.index as int) =~= seq![ch]);
            Some(Token::Star)
        } else {
            assert(s.subrange(a, self.it.index as int) =~= seq![ch]);
            Some(Token::Unknown(ch))
        }
    }

    fn identifier(&mut self, x: char) -> (res: Option<Token>)
        requires
            old(self).wf(),
            old(self).it.index >= 1,
            old(self).it.chars@[old(self).it.index - 1] == x,
            is_ident_start(x),
        ensures
            final(self).wf(),
            final(self).it.chars == old(self).it.chars,
            old(self).it.index <= final(self).it.index,
            res matches Some(t) && lexeme_of(
                final(self).it.chars@.subrange(old(self).it.index - 1, final(self).it.index as int), t),
            !(final(self).it.index < final(self).it.chars@.len()
                && is_ident_char(final(self).it.chars@[final(self).it.index as int])),
    {
        let ghost s = self.it.chars@;
        let ghost a = self.it.index - 1;
        let mut identifier: Vec<char> = Vec::new();
        identifier.push(x);
        let rest = self.it.consume_while(|c: char| -> (r: bool)
            ensures r == (('a' <= c && c <= 'z') || ('A' <= c && c <= 'Z') || ('0' <= c && c <= '9') || c == '_')
            { ('a' <= c && c <= 'z') || ('A' <= c && c <= 'Z') || ('0' <= c && c <= '9') || c == '_' });
        let mut i: usize = 0;
        while i < rest.len()
            invariant
                i <= rest@.len(),
                identifier@ == seq![x] + rest@.subrange(0, i as int),
            decreases rest.len() - i,
        {
            identifier.push(rest[i]);
            assert(rest@.subrange(0, i + 1) =~= rest@.subrange(0, i as int).push(rest@[i as int]));
            i = i + 1;
        }
        let ghost lex = s.subrange(a, self.it.index as int);
        assert(identifier@ =~= lex);
        assert(all_ident_chars(lex)) by {
            assert forall|k: int| 0 <= k < lex.len() implies is_ident_char(#[trigger] lex[k]) by {
                if k > 0 {
                    assert(lex[k] == s[a + k]);
                }
            }
        }
        match keyword_of(&identifier) {
            None => Some(Token::Identifier(string_from_chars(identifier.as_slice()))),
            Some(token) => Some(token),
        }
    }

    fn number(&mut self, x: char) -> (res: Option<Token>)
        requires
            old(self).wf(),
            old(self).it.index >= 1,
            old(self).it.chars@[old(self).it.index - 1] == x,
            is_digit(x),
        ensures
            final(self).wf(),
            final(self).it.chars == old(self).it.chars,
            old(self).it.index <= final(self).it.index,
            res matches Some(t) && lexeme_of(
                final(self).it.chars@.subrange(old(self).it.index - 1, final(self).it.index as int), t),
            maximal(final(self).it.chars@, old(self).it.index - 1, final(self).it.index as int),
    {
        let ghost s = self.it.chars@;
        let ghost a = self.it.index - 1;
        let mut number: Vec<char> = Vec::new();
        number.push(x);
        let num = self.it.consume_while(|c: char| -> (r: bool) ensures r == ('0' <= c && c <= '9') { '0' <= c && c <= '9' });
        let mut i: usize = 0;
        while i < num.len()
            invariant
                i <= num@.len(),
                number@ == seq![x] + num@.subrange(0, i as int),
            decreases num.len() - i,
        {
            number.push(num[i]);
            assert(num@.subrange(0, i + 1) =~= num@.subrange(0, i as int).push(num@[i as int]));
            i = i + 1;
        }
        let ghost k = self.it.index as int;
        assert(number@ =~= s.subrange(a, k));
        assert(all_digits(number@)) by {
            assert forall|j: int| 0 <= j < number@.len() implies is_digit(#[trigger] number@[j]) by {
                if j > 0 {
                    assert(number@[j] == s[a + j]);
                }
            }
        }
        if self.it.peek() == Some('.') && self.it.consume_if_next(|c: char| -> (r: bool) ensures r == ('0' <= c && c <= '9') { '0' <= c && c <= '9' }) {
            let num2 = self.it.consume_while(|c: char| -> (r: bool) ensures r == ('0' <= c && c <= '9') { '0' <= c && c <= '9' });
            let ghost lex = s.subrange(a, self.it.index as int);
            assert(num2@ =~= s.subrange(k + 1, self.it.index as int));
            assert(all_digits(num2@)) by {
                assert forall|j: int| 0 <= j < num2@.len() implies is_digit(#[trigger] num2@[j]) by {
                    assert(num2@[j] == s[k + 1 + j]);
                }
            }
            assert(lex.subrange(0, k - a) =~= number@);
            assert(lex.subrange(k - a + 1, lex.len() as int) =~= num2@);
            assert(lex[k - a] == '.');
            let n = Number::from_digits(number.as_slice(), num2.as_slice());
            Some(Token::Number(n))
        } else {
            let empty: Vec<char> = Vec::new();
            let n = Number::from_digits(number.as_slice(), empty.as_slice());
            assert(s.subrange(a, self.it.index as int) =~= number@);
            Some(Token::Number(n))
        }
    }

    fn tokenize_with_context(&mut self) -> (res: Vec<WithSpan<Token>>)
        requires
            old(self).wf(),
            old(self).it.index == 0,
        ensures
            tokens_read_from(old(self).it.chars@, res@),
            lexed(old(self).it.chars@, res@),
    {
        let ghost s = self.it.chars@;
        let mut tokens: Vec<WithSpan<Token>> = Vec::new();
        let ghost mut bounds: Seq<(int, int)> = Seq::empty();
        assert(s.subrange(0, 0).len() == 0);
        loop
            invariant
                self.wf(),
                self.it.chars@ == s,
                tokens_read_from(s, tokens@),
                forall|i: int| 0 <= i < tokens@.len() ==> tokens@[i].span.end.0 <= byte_offset(s, self.it.index as int),
                bounds.len() == tokens@.len(),
                forall|i: int| 0 <= i < tokens@.len() ==> token_read_from(s, tokens@[i], #[trigger] bounds[i].0, bounds[i].1),
                forall|i: int| 0 <= i < tokens@.len() ==> maximal(s, #[trigger] bounds[i].0, bounds[i].1),
                forall|i: int| 0 <= i < tokens@.len() ==> blank_text(s.subrange(gap_start(bounds, i), #[trigger] bounds[i].0)),
                blank_text(s.subrange(gap_start(bounds, tokens@.len() as int), self.it.index as int)),
                0 <= gap_start(bounds, tokens@.len() as int) <= self.it.index,
            ensures
                tokens_read_from(s, tokens@),
                lexed(s, tokens@),
            decreases s.len() - self.it.index,
        {
            let initial_position = self.it.current_position;
            let ghost a = self.it.index as int;
            let ch = match self.it.next() {
                None => {
                    proof {
                        assert(lexed_with(s, tokens@, bounds));
                    }
                    break;
                },
                Some(c) => c,
            };
            let ghost gs = gap_start(bounds, tokens@.len() as int);
            let matched = self.match_token(ch);
            if matched.is_none() {
                proof {
                    lemma_blank_append(s.subrange(gs, a), s.subrange(a, self.it.index as int));
                    assert(s.subrange(gs, a) + s.subrange(a, self.it.index as int) =~= s.subrange(gs, self.it.index as int));
                }
            }
            if let Some(token) = matched {
                let ghost b = self.it.index as int;
                let t = WithSpan::new(token, Span { start: initial_position, end: self.it.current_position });
                proof {
                    assert(token_read_from(s, t, a, b));
                    lemma_utf8_total_prefix(s, a, b);
                    let old_tokens = tokens@;
                    assert forall|i: int| 0 <= i < old_tokens.len() implies
                        old_tokens[i].span.end.0 <= t.span.start.0 by {}
                }
                let ghost old_tokens = tokens@;
                let ghost old_bounds = bounds;
                tokens.push(t);
                proof {
                    bounds = bounds.push((a, b));
                    assert(s.subrange(b, b).len() == 0);
                    assert forall|i: int| 0 <= i < tokens@.len() implies token_read_from(s, tokens@[i], #[trigger] bounds[i].0, bounds[i].1) by {
                        if i < old_tokens.len() {
                            assert(tokens@[i] == old_tokens[i]);
                            assert(bounds[i] == old_bounds[i]);
                        }
                    }
                    assert forall|i: int| 0 <= i < tokens@.len() implies maximal(s, #[trigger] bounds[i].0, bounds[i].1) by {
                        if i < old_tokens.len() {
                            assert(bounds[i] == old_bounds[i]);
                        }
                    }
                    assert forall|i: int| 0 <= i < tokens@.len() implies blank_text(s.subrange(gap_start(bounds, i), #[trigger] bounds[i].0)) by {
                        if i < old_tokens.len() {
                            assert(bounds[i] == old_bounds[i]);
                            assert(gap_start(bounds, i) == gap_start(old_bounds, i));
                        } else {
                            assert(gap_start(bounds, i) == gs);
                        }
                    }
                    assert forall|i: int| 0 <= i < tokens@.len() implies token_in(s, #[trigger] tokens@[i]) by {
                        if i < old_tokens.len() {
                            assert(tokens@[i] == old_tokens[i]);
                        } else {
                            assert(token_read_from(s, tokens@[i], a, b));
                        }
                    }
                    assert forall|i: int, j: int| 0 <= i < j < tokens@.len() implies tokens@[i].span.end.0 <= tokens@[j].span.start.0 by {
                        if j < old_tokens.len() {
                            assert(tokens@[i] == old_tokens[i]);
                            assert(tokens@[j] == old_tokens[j]);
                        } else {
                            assert(tokens@[i] == old_tokens[i]);
                        }
                    }
                }
            }
            proof {
                lemma_utf8_total_prefix(s, a, self.it.index as int);
            }
        }
        tokens
    }
}

/// `t` was read from some characters of `s`.
pub open spec fn token_in(s: Seq<char>, t: WithSpan<Token>) -> bool {
    exists|a: int, b: int| token_read_from(s, t, a, b)
}

/// Every token of `tokens` was read from `s`, and the tokens follow each
/// other without overlapping.
pub open spec fn tokens_read_from(s: Seq<char>, tokens: Seq<WithSpan<Token>>) -> bool {
    &&& forall|i: int| 0 <= i < tokens.len() ==> token_in(s, #[trigger] tokens[i])
    &&& forall|i: int, j: int| 0 <= i < j < tokens.len() ==> tokens[i].span.end.0 <= tokens[j].span.start.0
}

/// Splits `buf` into tokens, each with the span of bytes it was read from.
/// Blanks and `//` comments are skipped; every other character is in a
/// token.
pub fn tokenize_with_context(buf: &str) -> (res: Vec<WithSpan<Token>>)
    requires
        utf8_total(buf@) <= u32::MAX,
    ensures
        tokens_read_from(buf@, res@),
        lexed(buf@, res@),
{
    let mut t = Lexer::new(buf);
    t.tokenize_with_context()
}

} // verus!
