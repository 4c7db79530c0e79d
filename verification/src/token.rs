use vstd::prelude::*;
use crate::grammar::TokenT;

verus! {

/// A value type of the language.
#[derive(Clone, Copy, Debug, PartialEq, Eq, Hash, Structural)]
pub enum Type {
    Void,
    Int,
    Bool,
    String,
}

impl Type {
    /// The type that a fresh value carries before checking: `Void`.
    pub fn void() -> (r: Type)
        ensures
            r == Type::Void,
    {
        Type::Void
    }
}

/// A token with its payload.
#[allow(non_camel_case_types)]
#[derive(Clone, Debug)]
pub enum TokenData {
    EOF,
    a(char),
    b(char),
    x,
    K_LET,
    K_FUNC,
    K_RETURN,
    K_IF,
    IDENT(String),
    EQ_1,
    INT(i64),
    STR_LIT(String),
    BOOL(bool),
    OP1_b(String),
    OP2_b(String),
    OP3_n(String),
    OP4_n(String),
    OP_UNARY(String),
    TYPE(Type),
    PAREN_L,
    PAREN_R,
    CURLY_L,
    CURLY_R,
    COMMA,
    COLON,
    ARROW,
}

/// The mathematical value of a token payload: strings become their characters.
#[allow(non_camel_case_types)]
pub enum TokenDataV {
    EOF,
    a(char),
    b(char),
    x,
    K_LET,
    K_FUNC,
    K_RETURN,
    K_IF,
    IDENT(Seq<char>),
    EQ_1,
    INT(int),
    STR_LIT(Seq<char>),
    BOOL(bool),
    OP1_b(Seq<char>),
    OP2_b(Seq<char>),
    OP3_n(Seq<char>),
    OP4_n(Seq<char>),
    OP_UNARY(Seq<char>),
    TYPE(Type),
    PAREN_L,
    PAREN_R,
    CURLY_L,
    CURLY_R,
    COMMA,
    COLON,
    ARROW,
}

impl View for TokenData {
    type V = TokenDataV;

    open spec fn view(&self) -> TokenDataV {
        match self {
            TokenData::EOF => TokenDataV::EOF,
            TokenData::a(c) => TokenDataV::a(*c),
            TokenData::b(c) => TokenDataV::b(*c),
            TokenData::x => TokenDataV::x,
            TokenData::K_LET => TokenDataV::K_LET,
            TokenData::K_FUNC => TokenDataV::K_FUNC,
            TokenData::K_RETURN => TokenDataV::K_RETURN,
            TokenData::K_IF => TokenDataV::K_IF,
            TokenData::IDENT(s) => TokenDataV::IDENT(s@),
            TokenData::EQ_1 => TokenDataV::EQ_1,
            TokenData::INT(n) => TokenDataV::INT(*n as int),
            TokenData::STR_LIT(s) => TokenDataV::STR_LIT(s@),
            TokenData::BOOL(v) => TokenDataV::BOOL(*v),
            TokenData::OP1_b(s) => TokenDataV::OP1_b(s@),
            TokenData::OP2_b(s) => TokenDataV::OP2_b(s@),
            TokenData::OP3_n(s) => TokenDataV::OP3_n(s@),
            TokenData::OP4_n(s) => TokenDataV::OP4_n(s@),
            TokenData::OP_UNARY(s) => TokenDataV::OP_UNARY(s@),
            TokenData::TYPE(t) => TokenDataV::TYPE(*t),
            TokenData::PAREN_L => TokenDataV::PAREN_L,
            TokenData::PAREN_R => TokenDataV::PAREN_R,
            TokenData::CURLY_L => TokenDataV::CURLY_L,
            TokenData::CURLY_R => TokenDataV::CURLY_R,
            TokenData::COMMA => TokenDataV::COMMA,
            TokenData::COLON => TokenDataV::COLON,
            TokenData::ARROW => TokenDataV::ARROW,
        }
    }
}

/// The kind of a token value.
pub open spec fn kind_of(d: TokenDataV) -> TokenT {
    match d {
        TokenDataV::EOF => TokenT::EOF,
        TokenDataV::a(_) => TokenT::a,
        TokenDataV::b(_) => TokenT::b,
        TokenDataV::x => TokenT::x,
        TokenDataV::K_LET => TokenT::K_LET,
        TokenDataV::K_FUNC => TokenT::K_FUNC,
        TokenDataV::K_RETURN => TokenT::K_RETURN,
        TokenDataV::K_IF => TokenT::K_IF,
        TokenDataV::IDENT(_) => TokenT::IDENT,
        TokenDataV::EQ_1 => TokenT::EQ_1,
        TokenDataV::INT(_) => TokenT::INT,
        TokenDataV::STR_LIT(_) => TokenT::STR_LIT,
        TokenDataV::BOOL(_) => TokenT::BOOL,
        TokenDataV::OP1_b(_) => TokenT::OP1_b,
        TokenDataV::OP2_b(_) => TokenT::OP2_b,
        TokenDataV::OP3_n(_) => TokenT::OP3_n,
        TokenDataV::OP4_n(_) => TokenT::OP4_n,
        TokenDataV::OP_UNARY(_) => TokenT::OP_UNARY,
        TokenDataV::TYPE(_) => TokenT::TYPE,
        TokenDataV::PAREN_L => TokenT::PAREN_L,
        TokenDataV::PAREN_R => TokenT::PAREN_R,
        TokenDataV::CURLY_L => TokenT::CURLY_L,
        TokenDataV::CURLY_R => TokenT::CURLY_R,
        TokenDataV::COMMA => TokenT::COMMA,
        TokenDataV::COLON => TokenT::COLON,
        TokenDataV::ARROW => TokenT::ARROW,
    }
}

impl TokenData {
    /// The kind of this token.
    pub fn kind(&self) -> (r: TokenT)
        ensures
            r == kind_of(self@),
    {
        match self {
            TokenData::EOF => TokenT::EOF,
            TokenData::a(_) => TokenT::a,
            TokenData::b(_) => TokenT::b,
            TokenData::x => TokenT::x,
            TokenData::K_LET => TokenT::K_LET,
            TokenData::K_FUNC => TokenT::K_FUNC,
            TokenData::K_RETURN => TokenT::K_RETURN,
            TokenData::K_IF => TokenT::K_IF,
            TokenData::IDENT(_) => TokenT::IDENT,
            TokenData::EQ_1 => TokenT::EQ_1,
            TokenData::INT(_) => TokenT::INT,
            TokenData::STR_LIT(_) => TokenT::STR_LIT,
            TokenData::BOOL(_) => TokenT::BOOL,
            TokenData::OP1_b(_) => TokenT::OP1_b,
            TokenData::OP2_b(_) => TokenT::OP2_b,
            TokenData::OP3_n(_) => TokenT::OP3_n,
            TokenData::OP4_n(_) => TokenT::OP4_n,
            TokenData::OP_UNARY(_) => TokenT::OP_UNARY,
            TokenData::TYPE(_) => TokenT::TYPE,
            TokenData::PAREN_L => TokenT::PAREN_L,
            TokenData::PAREN_R => TokenT::PAREN_R,
            TokenData::CURLY_L => TokenT::CURLY_L,
            TokenData::CURLY_R => TokenT::CURLY_R,
            TokenData::COMMA => TokenT::COMMA,
            TokenData::COLON => TokenT::COLON,
            TokenData::ARROW => TokenT::ARROW,
        }
    }

    /// A copy of this token value.
    pub fn copy(&self) -> (r: TokenData)
        ensures
            r@ == self@,
    {
        match self {
            TokenData::EOF => TokenData::EOF,
            TokenData::a(c) => TokenData::a(*c),
            TokenData::b(c) => TokenData::b(*c),
            TokenData::x => TokenData::x,
            TokenData::K_LET => TokenData::K_LET,
            TokenData::K_FUNC => TokenData::K_FUNC,
            TokenData::K_RETURN => TokenData::K_RETURN,
            TokenData::K_IF => TokenData::K_IF,
            TokenData::IDENT(s) => TokenData::IDENT(s.clone()),
            TokenData::EQ_1 => TokenData::EQ_1,
            TokenData::INT(n) => TokenData::INT(*n),
            TokenData::STR_LIT(s) => TokenData::STR_LIT(s.clone()),
            TokenData::BOOL(v) => TokenData::BOOL(*v),
            TokenData::OP1_b(s) => TokenData::OP1_b(s.clone()),
            TokenData::OP2_b(s) => TokenData::OP2_b(s.clone()),
            TokenData::OP3_n(s) => TokenData::OP3_n(s.clone()),
            TokenData::OP4_n(s) => TokenData::OP4_n(s.clone()),
            TokenData::OP_UNARY(s) => TokenData::OP_UNARY(s.clone()),
            TokenData::TYPE(t) => TokenData::TYPE(*t),
            TokenData::PAREN_L => TokenData::PAREN_L,
            TokenData::PAREN_R => TokenData::PAREN_R,
            TokenData::CURLY_L => TokenData::CURLY_L,
            TokenData::CURLY_R => TokenData::CURLY_R,
            TokenData::COMMA => TokenData::COMMA,
            TokenData::COLON => TokenData::COLON,
            TokenData::ARROW => TokenData::ARROW,
        }
    }
}

/// A token with its byte span in the source.
#[derive(Clone, Debug)]
pub struct Token {
    pub start: usize,
    pub end: usize,
    pub data: TokenData,
}

/// The mathematical value of a token.
pub struct TokenV {
    pub start: int,
    pub end: int,
    pub data: TokenDataV,
}

impl View for Token {
    type V = TokenV;

    open spec fn view(&self) -> TokenV {
        TokenV { start: self.start as int, end: self.end as int, data: self.data@ }
    }
}

impl Token {
    /// A copy of this token.
    pub fn copy(&self) -> (r: Token)
        ensures
            r@ == self@,
    {
        Token { start: self.start, end: self.end, data: self.data.copy() }
    }
}

} // verus!
