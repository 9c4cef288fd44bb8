use vstd::prelude::*;
use crate::number::Number;

verus! {

/// A token of the language.
#[derive(Clone, Debug, PartialEq)]
pub enum Token {
    LeftParen,
    RightParen,
    LeftBrace,
    RightBrace,
    Comma,
    Dot,
    Minus,
    Plus,
    Semicolon,
    Slash,
    Star,
    Bang,
    BangEqual,
    Equal,
    EqualEqual,
    Greater,
    GreaterEqual,
    Less,
    LessEqual,
    Identifier(String),
    String(String),
    Number(Number),
    And,
    Class,
    Else,
    False,
    Fun,
    For,
    If,
    Nil,
    Or,
    Print,
    Return,
    Super,
    This,
    True,
    Var,
    While,
    Import,
    Eof,
    UnterminatedString,
    Unknown(char),
}

/// The kind of a token, without its payload.
#[derive(Copy, Clone, Debug, PartialEq, Eq, Structural)]
pub enum TokenKind {
    LeftParen,
    RightParen,
    LeftBrace,
    RightBrace,
    Comma,
    Dot,
    Minus,
    Plus,
    Semicolon,
    Slash,
    Star,
    Bang,
    BangEqual,
    Equal,
    EqualEqual,
    Greater,
    GreaterEqual,
    Less,
    LessEqual,
    Identifier,
    String,
    Number,
    And,
    Class,
    Else,
    False,
    Fun,
    For,
    If,
    Nil,
    Or,
    Print,
    Return,
    Super,
    This,
    True,
    Var,
    While,
    Import,
    Eof,
    UnterminatedString,
    Unknown,
}

/// The kind of a token.
pub open spec fn token_kind(token: Token) -> TokenKind {
    match token {
        Token::LeftParen => TokenKind::LeftParen,
        Token::RightParen => TokenKind::RightParen,
        Token::LeftBrace => TokenKind::LeftBrace,
        Token::RightBrace => TokenKind::RightBrace,
        Token::Comma => TokenKind::Comma,
        Token::Dot => TokenKind::Dot,
        Token::Minus => TokenKind::Minus,
        Token::Plus => TokenKind::Plus,
        Token::Semicolon => TokenKind::Semicolon,
        Token::Slash => TokenKind::Slash,
        Token::Star => TokenKind::Star,
        Token::Bang => TokenKind::Bang,
        Token::BangEqual => TokenKind::BangEqual,
        Token::Equal => TokenKind::Equal,
        Token::EqualEqual => TokenKind::EqualEqual,
        Token::Greater => TokenKind::Greater,
        Token::GreaterEqual => TokenKind::GreaterEqual,
        Token::Less => TokenKind::Less,
        Token::LessEqual => TokenKind::LessEqual,
        Token::Identifier(_) => TokenKind::Identifier,
        Token::String(_) => TokenKind::String,
        Token::Number(_) => TokenKind::Number,
        Token::And => TokenKind::And,
        Token::Class => TokenKind::Class,
        Token::Else => TokenKind::Else,
        Token::False => TokenKind::False,
        Token::Fun => TokenKind::Fun,
        Token::For => TokenKind::For,
        Token::If => TokenKind::If,
        Token::Nil => TokenKind::Nil,
        Token::Or => TokenKind::Or,
        Token::Print => TokenKind::Print,
        Token::Return => TokenKind::Return,
        Token::Super => TokenKind::Super,
        Token::This => TokenKind::This,
        Token::True => TokenKind::True,
        Token::Var => TokenKind::Var,
        Token::While => TokenKind::While,
        Token::Import => TokenKind::Import,
        Token::Eof => TokenKind::Eof,
        Token::UnterminatedString => TokenKind::UnterminatedString,
        Token::Unknown(_) => TokenKind::Unknown,
    }
}

/// How a kind of token is named in messages.
pub open spec fn kind_name(kind: TokenKind) -> Seq<char> {
    match kind {
        TokenKind::LeftParen => "')'"@,
        TokenKind::RightParen => "')'"@,
        TokenKind::LeftBrace => "'{'"@,
        TokenKind::RightBrace => "'}'"@,
        TokenKind::Comma => "','"@,
        TokenKind::Dot => "'.'"@,
        TokenKind::Minus => "'-'"@,
        TokenKind::Plus => "'+'"@,
        TokenKind::Semicolon => "';'"@,
        TokenKind::Slash => "'/'"@,
        TokenKind::Star => "'*'"@,
        TokenKind::Bang => "'!'"@,
        TokenKind::BangEqual => "'!='"@,
        TokenKind::Equal => "'='"@,
        TokenKind::EqualEqual => "'=='"@,
        TokenKind::Greater => "'>'"@,
        TokenKind::GreaterEqual => "'>='"@,
        TokenKind::Less => "'<'"@,
        TokenKind::LessEqual => "'<='"@,
        TokenKind::Identifier => "identifier"@,
        TokenKind::String => "string"@,
        TokenKind::Number => "number"@,
        TokenKind::And => "'and'"@,
        TokenKind::Class => "'class'"@,
        TokenKind::Else => "'else'"@,
        TokenKind::False => "'false'"@,
        TokenKind::Fun => "'fun'"@,
        TokenKind::For => "'for'"@,
        TokenKind::If => "'if'"@,
        TokenKind::Nil => "nil"@,
        TokenKind::Or => "'or'"@,
        TokenKind::Print => "'print'"@,
        TokenKind::Return => "'return'"@,
        TokenKind::Super => "'super'"@,
        TokenKind::This => "'this'"@,
        TokenKind::True => "'true'"@,
        TokenKind::Var => "'var'"@,
        TokenKind::While => "'while'"@,
        TokenKind::Import => "'import'"@,
        TokenKind::Eof => "<EOF>"@,
        TokenKind::UnterminatedString => "<Unterminated String>"@,
        TokenKind::Unknown => "<Unknown>"@,
    }
}

/// A kind of token that carries no payload.
pub open spec fn is_plain_kind(kind: TokenKind) -> bool {
    !(kind == TokenKind::Identifier || kind == TokenKind::String || kind == TokenKind::Number || kind == TokenKind::Unknown)
}

/// The one token of a kind that carries no payload.
pub open spec fn plain_token(kind: TokenKind) -> Token {
    match kind {
        TokenKind::LeftParen => Token::LeftParen,
        TokenKind::RightParen => Token::RightParen,
        TokenKind::LeftBrace => Token::LeftBrace,
        TokenKind::RightBrace => Token::RightBrace,
        TokenKind::Comma => Token::Comma,
        TokenKind::Dot => Token::Dot,
        TokenKind::Minus => Token::Minus,
        TokenKind::Plus => Token::Plus,
        TokenKind::Semicolon => Token::Semicolon,
        TokenKind::Slash => Token::Slash,
        TokenKind::Star => Token::Star,
        TokenKind::Bang => Token::Bang,
        TokenKind::BangEqual => Token::BangEqual,
        TokenKind::Equal => Token::Equal,
        TokenKind::EqualEqual => Token::EqualEqual,
        TokenKind::Greater => Token::Greater,
        TokenKind::GreaterEqual => Token::GreaterEqual,
        TokenKind::Less => Token::Less,
        TokenKind::LessEqual => Token::LessEqual,
        TokenKind::And => Token::And,
        TokenKind::Class => Token::Class,
        TokenKind::Else => Token::Else,
        TokenKind::False => Token::False,
        TokenKind::Fun => Token::Fun,
        TokenKind::For => Token::For,
        TokenKind::If => Token::If,
        TokenKind::Nil => Token::Nil,
        TokenKind::Or => Token::Or,
        TokenKind::Print => Token::Print,
        TokenKind::Return => Token::Return,
        TokenKind::Super => Token::Super,
        TokenKind::This => Token::This,
        TokenKind::True => Token::True,
        TokenKind::Var => Token::Var,
        TokenKind::While => Token::While,
        TokenKind::Import => Token::Import,
        TokenKind::Eof => Token::Eof,
        TokenKind::UnterminatedString => Token::UnterminatedString,
        _ => Token::Eof,
    }
}

/// A token of a kind without payload is the one token of that kind.
pub proof fn lemma_plain_kind(t: Token)
    requires
        is_plain_kind(token_kind(t)),
    ensures
        t == plain_token(token_kind(t)),
{
}

impl TokenKind {
    /// The kind of `token`.
    pub fn from_token(token: &Token) -> (res: TokenKind)
        ensures
            res == token_kind(*token),
    {
        match token {
            Token::LeftParen => TokenKind::LeftParen,
            Token::RightParen => TokenKind::RightParen,
            Token::LeftBrace => TokenKind::LeftBrace,
            Token::RightBrace => TokenKind::RightBrace,
            Token::Comma => TokenKind::Comma,
            Token::Dot => TokenKind::Dot,
            Token::Minus => TokenKind::Minus,
            Token::Plus => TokenKind::Plus,
            Token::Semicolon => TokenKind::Semicolon,
            Token::Slash => TokenKind::Slash,
            Token::Star => TokenKind::Star,
            Token::Bang => TokenKind::Bang,
            Token::BangEqual => TokenKind::BangEqual,
            Token::Equal => TokenKind::Equal,
            Token::EqualEqual => TokenKind::EqualEqual,
            Token::Greater => TokenKind::Greater,
            Token::GreaterEqual => TokenKind::GreaterEqual,
            Token::Less => TokenKind::Less,
            Token::LessEqual => TokenKind::LessEqual,
            Token::Identifier(_) => TokenKind::Identifier,
            Token::String(_) => TokenKind::String,
            Token::Number(_) => TokenKind::Number,
            Token::And => TokenKind::And,
            Token::Class => TokenKind::Class,
            Token::Else => TokenKind::Else,
            Token::False => TokenKind::False,
            Token::Fun => TokenKind::Fun,
            Token::For => TokenKind::For,
            Token::If => TokenKind::If,
            Token::Nil => TokenKind::Nil,
            Token::Or => TokenKind::Or,
            Token::Print => TokenKind::Print,
            Token::Return => TokenKind::Return,
            Token::Super => TokenKind::Super,
            Token::This => TokenKind::This,
            Token::True => TokenKind::True,
            Token::Var => TokenKind::Var,
            Token::While => TokenKind::While,
            Token::Import => TokenKind::Import,
            Token::Eof => TokenKind::Eof,
            Token::UnterminatedString => TokenKind::UnterminatedString,
            Token::Unknown(_) => TokenKind::Unknown,
        }
    }

    /// How this kind of token is named in messages.
    pub fn name(&self) -> (res: &'static str)
        ensures
            res@ == kind_name(*self),
    {
        match self {
            TokenKind::LeftParen => "')'",
            TokenKind::RightParen => "')'",
            TokenKind::LeftBrace => "'{'",
            TokenKind::RightBrace => "'}'",
            TokenKind::Comma => "','",
            TokenKind::Dot => "'.'",
            TokenKind::Minus => "'-'",
            TokenKind::Plus => "'+'",
            TokenKind::Semicolon => "';'",
            TokenKind::Slash => "'/'",
            TokenKind::Star => "'*'",
            TokenKind::Bang => "'!'",
            TokenKind::BangEqual => "'!='",
            TokenKind::Equal => "'='",
            TokenKind::EqualEqual => "'=='",
            TokenKind::Greater => "'>'",
            TokenKind::GreaterEqual => "'>='",
            TokenKind::Less => "'<'",
            TokenKind::LessEqual => "'<='",
            TokenKind::Identifier => "identifier",
            TokenKind::String => "string",
            TokenKind::Number => "number",
            TokenKind::And => "'and'",
            TokenKind::Class => "'class'",
            TokenKind::Else => "'else'",
            TokenKind::False => "'false'",
            TokenKind::Fun => "'fun'",
            TokenKind::For => "'for'",
            TokenKind::If => "'if'",
            TokenKind::Nil => "nil",
            TokenKind::Or => "'or'",
            TokenKind::Print => "'print'",
            TokenKind::Return => "'return'",
            TokenKind::Super => "'super'",
            TokenKind::This => "'this'",
            TokenKind::True => "'true'",
            TokenKind::Var => "'var'",
            TokenKind::While => "'while'",
            TokenKind::Import => "'import'",
            TokenKind::Eof => "<EOF>",
            TokenKind::UnterminatedString => "<Unterminated String>",
            TokenKind::Unknown => "<Unknown>",
        }
    }
}

impl Token {
    /// A copy of the token.
    pub fn duplicate(&self) -> (res: Token)
        ensures
            res == *self,
    {
        match self {
            Token::Identifier(s) => Token::Identifier(s.clone()),
            Token::String(s) => Token::String(s.clone()),
            Token::Number(n) => Token::Number(n.duplicate()),
            Token::Unknown(c) => Token::Unknown(*c),
            Token::LeftParen => Token::LeftParen,
            Token::RightParen => Token::RightParen,
            Token::LeftBrace => Token::LeftBrace,
            Token::RightBrace => Token::RightBrace,
            Token::Comma => Token::Comma,
            Token::Dot => Token::Dot,
            Token::Minus => Token::Minus,
            Token::Plus => Token::Plus,
            Token::Semicolon => Token::Semicolon,
            Token::Slash => Token::Slash,
            Token::Star => Token::Star,
            Token::Bang => Token::Bang,
            Token::BangEqual => Token::BangEqual,
            Token::Equal => Token::Equal,
            Token::EqualEqual => Token::EqualEqual,
            Token::Greater => Token::Greater,
            Token::GreaterEqual => Token::GreaterEqual,
            Token::Less => Token::Less,
            Token::LessEqual => Token::LessEqual,
            Token::And => Token::And,
            Token::Class => Token::Class,
            Token::Else => Token::Else,
            Token::False => Token::False,
            Token::Fun => Token::Fun,
            Token::For => Token::For,
            Token::If => Token::If,
            Token::Nil => Token::Nil,
            Token::Or => Token::Or,
            Token::Print => Token::Print,
            Token::Return => Token::Return,
            Token::Super => Token::Super,
            Token::This => Token::This,
            Token::True => Token::True,
            Token::Var => Token::Var,
            Token::While => Token::While,
            Token::Import => Token::Import,
            Token::Eof => Token::Eof,
            Token::UnterminatedString => Token::UnterminatedString,
        }
    }

    /// How the token is named in messages: the name of its kind.
    pub fn name(&self) -> (res: &'static str)
        ensures
            res@ == kind_name(token_kind(*self)),
    {
        TokenKind::from_token(self).name()
    }
}

} // verus!
