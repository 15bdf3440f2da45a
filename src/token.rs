use vstd::prelude::*;

verus! {

/// One lexical unit of a script.
///
/// A number literal keeps its source text: the language's numbers are
/// IEEE-754 single-precision values, and the library carries them as the
/// exact text that denotes them.
#[derive(Debug, PartialEq)]
pub enum Token {
    Number(String),
    Identifier(String),
    String(String),
    LParen,
    RParen,
    LBracket,
    RBracket,
    LBrace,
    RBrace,
    Assignment,
    Semicolon,
    Comma,
    Colon,
    Dot,
    Plus,
    Minus,
    Multiply,
    Divide,
    Eof,
}

/// The mathematical model of a token: payloads as character sequences and
/// every single-character symbol as the character itself.
pub enum Tok {
    Number(Seq<char>),
    Identifier(Seq<char>),
    Str(Seq<char>),
    Sym(char),
    Eof,
}

impl View for Token {
    type V = Tok;

    open spec fn view(&self) -> Tok {
        match self {
            Token::Number(s) => Tok::Number(s@),
            Token::Identifier(s) => Tok::Identifier(s@),
            Token::String(s) => Tok::Str(s@),
            Token::LParen => Tok::Sym('('),
            Token::RParen => Tok::Sym(')'),
            Token::LBracket => Tok::Sym('['),
            Token::RBracket => Tok::Sym(']'),
            Token::LBrace => Tok::Sym('{'),
            Token::RBrace => Tok::Sym('}'),
            Token::Assignment => Tok::Sym('='),
            Token::Semicolon => Tok::Sym(';'),
            Token::Comma => Tok::Sym(','),
            Token::Colon => Tok::Sym(':'),
            Token::Dot => Tok::Sym('.'),
            Token::Plus => Tok::Sym('+'),
            Token::Minus => Tok::Sym('-'),
            Token::Multiply => Tok::Sym('*'),
            Token::Divide => Tok::Sym('/'),
            Token::Eof => Tok::Eof,
        }
    }
}

pub open spec fn is_symbol(c: char) -> bool {
    c == '(' || c == ')' || c == '[' || c == ']' || c == '{' || c == '}' || c == '=' || c == ';'
        || c == ',' || c == ':' || c == '.' || c == '+' || c == '-' || c == '*' || c == '/'
}

/// The token of a single-character symbol, if `c` is one.
pub fn symbol_token(c: char) -> (r: Option<Token>)
    ensures
        r is Some <==> is_symbol(c),
        r is Some ==> r->Some_0@ == Tok::Sym(c),
{
    match c {
        '(' => Some(Token::LParen),
        ')' => Some(Token::RParen),
        '[' => Some(Token::LBracket),
        ']' => Some(Token::RBracket),
        '{' => Some(Token::LBrace),
        '}' => Some(Token::RBrace),
        '=' => Some(Token::Assignment),
        ';' => Some(Token::Semicolon),
        ',' => Some(Token::Comma),
        ':' => Some(Token::Colon),
        '.' => Some(Token::Dot),
        '+' => Some(Token::Plus),
        '-' => Some(Token::Minus),
        '*' => Some(Token::Multiply),
        '/' => Some(Token::Divide),
        _ => None,
    }
}

impl Token {
    /// The character of a single-character symbol token.
    pub fn symbol(&self) -> (r: Option<char>)
        ensures
            r == match self@ {
                Tok::Sym(c) => Some(c),
                _ => None,
            },
    {
        match self {
            Token::LParen => Some('('),
            Token::RParen => Some(')'),
            Token::LBracket => Some('['),
            Token::RBracket => Some(']'),
            Token::LBrace => Some('{'),
            Token::RBrace => Some('}'),
            Token::Assignment => Some('='),
            Token::Semicolon => Some(';'),
            Token::Comma => Some(','),
            Token::Colon => Some(':'),
            Token::Dot => Some('.'),
            Token::Plus => Some('+'),
            Token::Minus => Some('-'),
            Token::Multiply => Some('*'),
            Token::Divide => Some('/'),
            _ => None,
        }
    }

    /// An equal token.
    pub fn duplicate(&self) -> (r: Token)
        ensures
            r@ == self@,
    {
        match self {
            Token::Number(s) => Token::Number(s.clone()),
            Token::Identifier(s) => Token::Identifier(s.clone()),
            Token::String(s) => Token::String(s.clone()),
            Token::LParen => Token::LParen,
            Token::RParen => Token::RParen,
            Token::LBracket => Token::LBracket,
            Token::RBracket => Token::RBracket,
            Token::LBrace => Token::LBrace,
            Token::RBrace => Token::RBrace,
            Token::Assignment => Token::Assignment,
            Token::Semicolon => Token::Semicolon,
            Token::Comma => Token::Comma,
            Token::Colon => Token::Colon,
            Token::Dot => Token::Dot,
            Token::Plus => Token::Plus,
            Token::Minus => Token::Minus,
            Token::Multiply => Token::Multiply,
            Token::Divide => Token::Divide,
            Token::Eof => Token::Eof,
        }
    }

    /// True for the end-of-input marker.
    pub fn is_eof(&self) -> (r: bool)
        ensures
            r == (self@ is Eof),
    {
        match self {
            Token::Eof => true,
            _ => false,
        }
    }
}

} // verus!
