//! The token vocabulary shared by the scanner and the parser.
use vstd::prelude::*;

verus! {

/// The kind of a token, with the text it carries where it carries one.
/// A number carries its literal text; its value is computed where numbers are.
#[allow(non_camel_case_types)]
#[derive(Debug, Clone, PartialEq)]
pub enum TokenType {
    LEFT_PAREN,
    RIGHT_PAREN,
    LEFT_BRACE,
    RIGHT_BRACE,
    COMMA,
    DOT,
    HYPHEN,
    PLUS,
    SEMICOLON,
    SLASH,
    ASTERICS,
    BANG,
    BANG_EQUAL,
    EQUAL,
    EQUAL_EQUAL,
    GREATER,
    GREATER_EQUAL,
    LESS,
    LESS_EQUAL,
    IDENTIFIER(String),
    STRING(String),
    NUMBER(String),
    AND,
    CLASS,
    ELSE,
    FALSE,
    FUN,
    FOR,
    IF,
    NIL,
    OR,
    PRINT,
    RETURN,
    SUPER,
    THIS,
    TRUE,
    VAR,
    WHILE,
}

/// A token and the 1-based line and column of its first character.
#[derive(Debug, Clone, PartialEq)]
pub struct Token {
    pub token_type: TokenType,
    pub line: usize,
    pub offset: usize,
}

impl Token {
    pub fn new(token_type: TokenType, line: usize, offset: usize) -> (r: Token)
        ensures
            r == (Token { token_type, line, offset }),
    {
        Token { token_type, line, offset }
    }
}

/// The reserved word spelled by `w`, if any.
pub open spec fn keyword_of(w: Seq<char>) -> Option<TokenType> {
    if w =~= seq!['a', 'n', 'd'] {
        Some(TokenType::AND)
    } else if w =~= seq!['c', 'l', 'a', 's', 's'] {
        Some(TokenType::CLASS)
    } else if w =~= seq!['e', 'l', 's', 'e'] {
        Some(TokenType::ELSE)
    } else if w =~= seq!['f', 'a', 'l', 's', 'e'] {
        Some(TokenType::FALSE)
    } else if w =~= seq!['f', 'o', 'r'] {
        Some(TokenType::FOR)
    } else if w =~= seq!['f', 'u', 'n'] {
        Some(TokenType::FUN)
    } else if w =~= seq!['i', 'f'] {
        Some(TokenType::IF)
    } else if w =~= seq!['n', 'i', 'l'] {
        Some(TokenType::NIL)
    } else if w =~= seq!['o', 'r'] {
        Some(TokenType::OR)
    } else if w =~= seq!['p', 'r', 'i', 'n', 't'] {
        Some(TokenType::PRINT)
    } else if w =~= seq!['r', 'e', 't', 'u', 'r', 'n'] {
        Some(TokenType::RETURN)
    } else if w =~= seq!['s', 'u', 'p', 'e', 'r'] {
        Some(TokenType::SUPER)
    } else if w =~= seq!['t', 'h', 'i', 's'] {
        Some(TokenType::THIS)
    } else if w =~= seq!['t', 'r', 'u', 'e'] {
        Some(TokenType::TRUE)
    } else if w =~= seq!['v', 'a', 'r'] {
        Some(TokenType::VAR)
    } else if w =~= seq!['w', 'h', 'i', 'l', 'e'] {
        Some(TokenType::WHILE)
    } else {
        None
    }
}

/// The source text of a token of kind `t`.
pub open spec fn lexeme(t: TokenType) -> Seq<char> {
    match t {
        TokenType::LEFT_PAREN => seq!['('],
        TokenType::RIGHT_PAREN => seq![')'],
        TokenType::LEFT_BRACE => seq!['{'],
        TokenType::RIGHT_BRACE => seq!['}'],
        TokenType::COMMA => seq![','],
        TokenType::DOT => seq!['.'],
        TokenType::HYPHEN => seq!['-'],
        TokenType::PLUS => seq!['+'],
        TokenType::SEMICOLON => seq![';'],
        TokenType::SLASH => seq!['/'],
        TokenType::ASTERICS => seq!['*'],
        TokenType::BANG => seq!['!'],
        TokenType::BANG_EQUAL => seq!['!', '='],
        TokenType::EQUAL => seq!['='],
        TokenType::EQUAL_EQUAL => seq!['=', '='],
        TokenType::GREATER => seq!['>'],
        TokenType::GREATER_EQUAL => seq!['>', '='],
        TokenType::LESS => seq!['<'],
        TokenType::LESS_EQUAL => seq!['<', '='],
        TokenType::IDENTIFIER(name) => name@,
        TokenType::STRING(value) => seq!['"'] + value@ + seq!['"'],
        TokenType::NUMBER(text) => text@,
        TokenType::AND => seq!['a', 'n', 'd'],
        TokenType::CLASS => seq!['c', 'l', 'a', 's', 's'],
        TokenType::ELSE => seq!['e', 'l', 's', 'e'],
        TokenType::FALSE => seq!['f', 'a', 'l', 's', 'e'],
        TokenType::FOR => seq!['f', 'o', 'r'],
        TokenType::FUN => seq!['f', 'u', 'n'],
        TokenType::IF => seq!['i', 'f'],
        TokenType::NIL => seq!['n', 'i', 'l'],
        TokenType::OR => seq!['o', 'r'],
        TokenType::PRINT => seq!['p', 'r', 'i', 'n', 't'],
        TokenType::RETURN => seq!['r', 'e', 't', 'u', 'r', 'n'],
        TokenType::SUPER => seq!['s', 'u', 'p', 'e', 'r'],
        TokenType::THIS => seq!['t', 'h', 'i', 's'],
        TokenType::TRUE => seq!['t', 'r', 'u', 'e'],
        TokenType::VAR => seq!['v', 'a', 'r'],
        TokenType::WHILE => seq!['w', 'h', 'i', 'l', 'e'],
    }
}

/// The kinds that carry no text.
pub open spec fn payload_free(t: TokenType) -> bool {
    !(t is IDENTIFIER || t is STRING || t is NUMBER)
}

/// Compares a token kind with one that carries no text.
pub fn same_kind(a: &TokenType, b: &TokenType) -> (r: bool)
    requires
        payload_free(*b),
    ensures
        r == (*a == *b),
{
    match b {
        TokenType::LEFT_PAREN => matches!(a, TokenType::LEFT_PAREN),
        TokenType::RIGHT_PAREN => matches!(a, TokenType::RIGHT_PAREN),
        TokenType::LEFT_BRACE => matches!(a, TokenType::LEFT_BRACE),
        TokenType::RIGHT_BRACE => matches!(a, TokenType::RIGHT_BRACE),
        TokenType::COMMA => matches!(a, TokenType::COMMA),
        TokenType::DOT => matches!(a, TokenType::DOT),
        TokenType::HYPHEN => matches!(a, TokenType::HYPHEN),
        TokenType::PLUS => matches!(a, TokenType::PLUS),
        TokenType::SEMICOLON => matches!(a, TokenType::SEMICOLON),
        TokenType::SLASH => matches!(a, TokenType::SLASH),
        TokenType::ASTERICS => matches!(a, TokenType::ASTERICS),
        TokenType::BANG => matches!(a, TokenType::BANG),
        TokenType::BANG_EQUAL => matches!(a, TokenType::BANG_EQUAL),
        TokenType::EQUAL => matches!(a, TokenType::EQUAL),
        TokenType::EQUAL_EQUAL => matches!(a, TokenType::EQUAL_EQUAL),
        TokenType::GREATER => matches!(a, TokenType::GREATER),
        TokenType::GREATER_EQUAL => matches!(a, TokenType::GREATER_EQUAL),
        TokenType::LESS => matches!(a, TokenType::LESS),
        TokenType::LESS_EQUAL => matches!(a, TokenType::LESS_EQUAL),
        TokenType::AND => matches!(a, TokenType::AND),
        TokenType::CLASS => matches!(a, TokenType::CLASS),
        TokenType::ELSE => matches!(a, TokenType::ELSE),
        TokenType::FALSE => matches!(a, TokenType::FALSE),
        TokenType::FUN => matches!(a, TokenType::FUN),
        TokenType::FOR => matches!(a, TokenType::FOR),
        TokenType::IF => matches!(a, TokenType::IF),
        TokenType::NIL => matches!(a, TokenType::NIL),
        TokenType::OR => matches!(a, TokenType::OR),
        TokenType::PRINT => matches!(a, TokenType::PRINT),
        TokenType::RETURN => matches!(a, TokenType::RETURN),
        TokenType::SUPER => matches!(a, TokenType::SUPER),
        TokenType::THIS => matches!(a, TokenType::THIS),
        TokenType::TRUE => matches!(a, TokenType::TRUE),
        TokenType::VAR => matches!(a, TokenType::VAR),
        TokenType::WHILE => matches!(a, TokenType::WHILE),
        _ => false,
    }
}

} // verus!
