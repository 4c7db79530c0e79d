use vstd::prelude::*;

verus! {

/// Number of token kinds.
pub const NUM_TOKENS: usize = 26;
/// Number of node kinds.
pub const NUM_NODES: usize = 19;
/// Number of grammar symbols (tokens first, then nodes).
pub const NUM_SYMBOLS: usize = 45;

/// Kind of a token, without its payload.
#[allow(non_camel_case_types)]
#[derive(Clone, Copy, Debug, PartialEq, Eq, Hash, Structural)]
pub enum TokenT {
    EOF,
    a,
    b,
    x,
    K_LET,
    K_FUNC,
    K_RETURN,
    K_IF,
    IDENT,
    EQ_1,
    INT,
    STR_LIT,
    BOOL,
    OP1_b,
    OP2_b,
    OP3_n,
    OP4_n,
    OP_UNARY,
    TYPE,
    PAREN_L,
    PAREN_R,
    CURLY_L,
    CURLY_R,
    COMMA,
    COLON,
    ARROW,
}

/// Kind of a syntax-tree node.
#[derive(Clone, Copy, Debug, PartialEq, Eq, Hash, Structural)]
pub enum NodeT {
    A,
    S,
    ROOT,
    Statement,
    Function,
    Block,
    List,
    If,
    Declaration,
    Expr,
    UExpr,
    T1,
    T2,
    T3,
    TBase,
    Return,
    Invoke,
    Args,
    Params,
}

/// Position of a token kind in declaration order.
pub open spec fn tok_idx(t: TokenT) -> int {
    match t {
        TokenT::EOF => 0,
        TokenT::a => 1,
        TokenT::b => 2,
        TokenT::x => 3,
        TokenT::K_LET => 4,
        TokenT::K_FUNC => 5,
        TokenT::K_RETURN => 6,
        TokenT::K_IF => 7,
        TokenT::IDENT => 8,
        TokenT::EQ_1 => 9,
        TokenT::INT => 10,
        TokenT::STR_LIT => 11,
        TokenT::BOOL => 12,
        TokenT::OP1_b => 13,
        TokenT::OP2_b => 14,
        TokenT::OP3_n => 15,
        TokenT::OP4_n => 16,
        TokenT::OP_UNARY => 17,
        TokenT::TYPE => 18,
        TokenT::PAREN_L => 19,
        TokenT::PAREN_R => 20,
        TokenT::CURLY_L => 21,
        TokenT::CURLY_R => 22,
        TokenT::COMMA => 23,
        TokenT::COLON => 24,
        TokenT::ARROW => 25,
    }
}

/// Position of a node kind in declaration order.
pub open spec fn node_idx(n: NodeT) -> int {
    match n {
        NodeT::A => 0,
        NodeT::S => 1,
        NodeT::ROOT => 2,
        NodeT::Statement => 3,
        NodeT::Function => 4,
        NodeT::Block => 5,
        NodeT::List => 6,
        NodeT::If => 7,
        NodeT::Declaration => 8,
        NodeT::Expr => 9,
        NodeT::UExpr => 10,
        NodeT::T1 => 11,
        NodeT::T2 => 12,
        NodeT::T3 => 13,
        NodeT::TBase => 14,
        NodeT::Return => 15,
        NodeT::Invoke => 16,
        NodeT::Args => 17,
        NodeT::Params => 18,
    }
}

/// The token kind at a position of the declaration order.
pub open spec fn tok_at(i: int) -> TokenT {
    if i == 0 { TokenT::EOF } else
    if i == 1 { TokenT::a } else
    if i == 2 { TokenT::b } else
    if i == 3 { TokenT::x } else
    if i == 4 { TokenT::K_LET } else
    if i == 5 { TokenT::K_FUNC } else
    if i == 6 { TokenT::K_RETURN } else
    if i == 7 { TokenT::K_IF } else
    if i == 8 { TokenT::IDENT } else
    if i == 9 { TokenT::EQ_1 } else
    if i == 10 { TokenT::INT } else
    if i == 11 { TokenT::STR_LIT } else
    if i == 12 { TokenT::BOOL } else
    if i == 13 { TokenT::OP1_b } else
    if i == 14 { TokenT::OP2_b } else
    if i == 15 { TokenT::OP3_n } else
    if i == 16 { TokenT::OP4_n } else
    if i == 17 { TokenT::OP_UNARY } else
    if i == 18 { TokenT::TYPE } else
    if i == 19 { TokenT::PAREN_L } else
    if i == 20 { TokenT::PAREN_R } else
    if i == 21 { TokenT::CURLY_L } else
    if i == 22 { TokenT::CURLY_R } else
    if i == 23 { TokenT::COMMA } else
    if i == 24 { TokenT::COLON } else
    { TokenT::ARROW }
}

/// The node kind at a position of the declaration order.
pub open spec fn node_at(i: int) -> NodeT {
    if i == 0 { NodeT::A } else
    if i == 1 { NodeT::S } else
    if i == 2 { NodeT::ROOT } else
    if i == 3 { NodeT::Statement } else
    if i == 4 { NodeT::Function } else
    if i == 5 { NodeT::Block } else
    if i == 6 { NodeT::List } else
    if i == 7 { NodeT::If } else
    if i == 8 { NodeT::Declaration } else
    if i == 9 { NodeT::Expr } else
    if i == 10 { NodeT::UExpr } else
    if i == 11 { NodeT::T1 } else
    if i == 12 { NodeT::T2 } else
    if i == 13 { NodeT::T3 } else
    if i == 14 { NodeT::TBase } else
    if i == 15 { NodeT::Return } else
    if i == 16 { NodeT::Invoke } else
    if i == 17 { NodeT::Args } else
    { NodeT::Params }
}

/// Index of a token kind.
pub fn token_index(t: TokenT) -> (r: usize)
    ensures
        r == tok_idx(t),
        r < NUM_TOKENS,
{
    match t {
        TokenT::EOF => 0,
        TokenT::a => 1,
        TokenT::b => 2,
        TokenT::x => 3,
        TokenT::K_LET => 4,
        TokenT::K_FUNC => 5,
        TokenT::K_RETURN => 6,
        TokenT::K_IF => 7,
        TokenT::IDENT => 8,
        TokenT::EQ_1 => 9,
        TokenT::INT => 10,
        TokenT::STR_LIT => 11,
        TokenT::BOOL => 12,
        TokenT::OP1_b => 13,
        TokenT::OP2_b => 14,
        TokenT::OP3_n => 15,
        TokenT::OP4_n => 16,
        TokenT::OP_UNARY => 17,
        TokenT::TYPE => 18,
        TokenT::PAREN_L => 19,
        TokenT::PAREN_R => 20,
        TokenT::CURLY_L => 21,
        TokenT::CURLY_R => 22,
        TokenT::COMMA => 23,
        TokenT::COLON => 24,
        TokenT::ARROW => 25,
    }
}

/// Index of a node kind.
pub fn node_index(n: NodeT) -> (r: usize)
    ensures
        r == node_idx(n),
        r < NUM_NODES,
{
    match n {
        NodeT::A => 0,
        NodeT::S => 1,
        NodeT::ROOT => 2,
        NodeT::Statement => 3,
        NodeT::Function => 4,
        NodeT::Block => 5,
        NodeT::List => 6,
        NodeT::If => 7,
        NodeT::Declaration => 8,
        NodeT::Expr => 9,
        NodeT::UExpr => 10,
        NodeT::T1 => 11,
        NodeT::T2 => 12,
        NodeT::T3 => 13,
        NodeT::TBase => 14,
        NodeT::Return => 15,
        NodeT::Invoke => 16,
        NodeT::Args => 17,
        NodeT::Params => 18,
    }
}

/// The token kind at position `i` of the declaration order.
pub fn token_of_index(i: usize) -> (t: TokenT)
    requires
        i < NUM_TOKENS,
    ensures
        tok_idx(t) == i,
        t == tok_at(i as int),
{
    if i == 0 { TokenT::EOF } else
    if i == 1 { TokenT::a } else
    if i == 2 { TokenT::b } else
    if i == 3 { TokenT::x } else
    if i == 4 { TokenT::K_LET } else
    if i == 5 { TokenT::K_FUNC } else
    if i == 6 { TokenT::K_RETURN } else
    if i == 7 { TokenT::K_IF } else
    if i == 8 { TokenT::IDENT } else
    if i == 9 { TokenT::EQ_1 } else
    if i == 10 { TokenT::INT } else
    if i == 11 { TokenT::STR_LIT } else
    if i == 12 { TokenT::BOOL } else
    if i == 13 { TokenT::OP1_b } else
    if i == 14 { TokenT::OP2_b } else
    if i == 15 { TokenT::OP3_n } else
    if i == 16 { TokenT::OP4_n } else
    if i == 17 { TokenT::OP_UNARY } else
    if i == 18 { TokenT::TYPE } else
    if i == 19 { TokenT::PAREN_L } else
    if i == 20 { TokenT::PAREN_R } else
    if i == 21 { TokenT::CURLY_L } else
    if i == 22 { TokenT::CURLY_R } else
    if i == 23 { TokenT::COMMA } else
    if i == 24 { TokenT::COLON } else
    { TokenT::ARROW }
}

/// The node kind at position `i` of the declaration order.
pub fn node_of_index(i: usize) -> (n: NodeT)
    requires
        i < NUM_NODES,
    ensures
        node_idx(n) == i,
        n == node_at(i as int),
{
    if i == 0 { NodeT::A } else
    if i == 1 { NodeT::S } else
    if i == 2 { NodeT::ROOT } else
    if i == 3 { NodeT::Statement } else
    if i == 4 { NodeT::Function } else
    if i == 5 { NodeT::Block } else
    if i == 6 { NodeT::List } else
    if i == 7 { NodeT::If } else
    if i == 8 { NodeT::Declaration } else
    if i == 9 { NodeT::Expr } else
    if i == 10 { NodeT::UExpr } else
    if i == 11 { NodeT::T1 } else
    if i == 12 { NodeT::T2 } else
    if i == 13 { NodeT::T3 } else
    if i == 14 { NodeT::TBase } else
    if i == 15 { NodeT::Return } else
    if i == 16 { NodeT::Invoke } else
    if i == 17 { NodeT::Args } else
    { NodeT::Params }
}

/// Token indices lie in range and determine the token kind.
pub proof fn lemma_tok_idx(t: TokenT)
    ensures
        0 <= tok_idx(t) < NUM_TOKENS,
        tok_at(tok_idx(t)) == t,
{
}

/// Node indices lie in range and determine the node kind.
pub proof fn lemma_node_idx(n: NodeT)
    ensures
        0 <= node_idx(n) < NUM_NODES,
        node_at(node_idx(n)) == n,
{
}


/// A grammar symbol: a node kind or a token kind.
#[derive(Clone, Copy, Debug, PartialEq, Eq, Hash, Structural)]
pub enum ElemT {
    Node(NodeT),
    Token(TokenT),
}

/// Index of a symbol: tokens first, then nodes.
pub open spec fn sym_idx(e: ElemT) -> int {
    match e {
        ElemT::Token(t) => tok_idx(t),
        ElemT::Node(n) => NUM_TOKENS + node_idx(n),
    }
}

/// The symbol at a position of the symbol order.
pub open spec fn sym_at(i: int) -> ElemT {
    if i < NUM_TOKENS {
        ElemT::Token(tok_at(i))
    } else {
        ElemT::Node(node_at(i - NUM_TOKENS))
    }
}

/// Symbol indices lie in range and determine the symbol.
pub proof fn lemma_sym_idx(e: ElemT)
    ensures
        0 <= sym_idx(e) < NUM_SYMBOLS,
        sym_at(sym_idx(e)) == e,
{
    match e {
        ElemT::Token(t) => lemma_tok_idx(t),
        ElemT::Node(n) => lemma_node_idx(n),
    }
}

/// Index of a symbol.
pub fn symbol_index(e: ElemT) -> (r: usize)
    ensures
        r == sym_idx(e),
        r < NUM_SYMBOLS,
{
    match e {
        ElemT::Token(t) => token_index(t),
        ElemT::Node(n) => NUM_TOKENS + node_index(n),
    }
}

/// The symbol at position `i` of the symbol order.
pub fn symbol_of_index(i: usize) -> (e: ElemT)
    requires
        i < NUM_SYMBOLS,
    ensures
        sym_idx(e) == i,
        e == sym_at(i as int),
{
    if i < NUM_TOKENS {
        ElemT::Token(token_of_index(i))
    } else {
        ElemT::Node(node_of_index(i - NUM_TOKENS))
    }
}

impl NodeT {
    /// Whether a node of this kind evaluates to a value.
    pub fn is_evaluable(&self) -> (r: bool)
        ensures
            r == (*self == NodeT::Expr || *self == NodeT::UExpr || *self == NodeT::Invoke),
    {
        match self {
            NodeT::Expr | NodeT::UExpr | NodeT::Invoke => true,
            _ => false,
        }
    }
}

impl TokenT {
    /// Whether a token of this kind evaluates to a value.
    pub fn is_evaluable(&self) -> (r: bool)
        ensures
            r == (*self == TokenT::INT || *self == TokenT::BOOL || *self == TokenT::IDENT
                || *self == TokenT::STR_LIT),
    {
        match self {
            TokenT::INT | TokenT::BOOL | TokenT::IDENT | TokenT::STR_LIT => true,
            _ => false,
        }
    }
}

/// Whether a symbol evaluates to a value.
pub open spec fn elem_evaluable(e: ElemT) -> bool {
    match e {
        ElemT::Node(n) => n == NodeT::Expr || n == NodeT::UExpr || n == NodeT::Invoke,
        ElemT::Token(t) => t == TokenT::INT || t == TokenT::BOOL || t == TokenT::IDENT
            || t == TokenT::STR_LIT,
    }
}

impl ElemT {
    /// Whether a symbol evaluates to a value.
    pub fn is_evaluable(&self) -> (r: bool)
        ensures
            r == elem_evaluable(*self),
    {
        match self {
            ElemT::Node(t) => t.is_evaluable(),
            ElemT::Token(t) => t.is_evaluable(),
        }
    }

    /// Whether the symbol is a node kind.
    pub fn is_node(&self) -> (r: bool)
        ensures
            r == (*self is Node),
    {
        match self {
            ElemT::Node(_) => true,
            ElemT::Token(_) => false,
        }
    }
}

/// A parser action: shift to a state, or reduce by a production.
#[derive(Clone, Copy, Debug, PartialEq, Eq, Structural)]
pub enum Action {
    Shift(usize),
    Reduce(usize),
}

/// A production `node -> v[0] v[1] ...`.
pub struct Production {
    pub node: NodeT,
    pub v: Vec<ElemT>,
}

} // verus!
