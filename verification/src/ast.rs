use vstd::prelude::*;
use crate::grammar::NodeT;
use crate::token::{Type, Token, TokenData, TokenDataV};

verus! {

/// The payload of an abstract-syntax-tree node, one variant per kind of node.
#[derive(Debug)]
pub enum NodeData {
    Function { ident: String, params: Option<Box<LElem>>, r_type: Type, block: Box<LElem> },
    Block { v: Vec<Box<LElem>> },
    Declaration { ident: String, expr: Box<LElem> },
    If { expr: Box<LElem>, block: Box<LElem> },
    Expr { t1: Box<LElem>, t2: Box<LElem>, op: String },
    UExpr { op: String, t: Box<LElem> },
    Return { expr: Box<LElem> },
    Invoke { ident: String, args: Vec<Box<LElem>> },
    Params { v: Vec<(String, Type)> },
}

/// A node of the abstract syntax tree, with the type it evaluates to.
#[derive(Debug)]
pub struct LNode {
    pub start: usize,
    pub end: usize,
    pub data: NodeData,
    pub t: Type,
}

/// A token of the abstract syntax tree, with the type it evaluates to.
#[derive(Debug)]
pub struct LToken {
    pub start: usize,
    pub end: usize,
    pub data: TokenData,
    pub t: Type,
}

/// A child of an abstract-syntax-tree node.
#[derive(Debug)]
pub enum LElem {
    Node(LNode),
    Token(LToken),
}

/// The mathematical value of a node payload.
pub enum NodeDataV {
    Function { ident: Seq<char>, params: Option<Box<LElemV>>, r_type: Type, block: Box<LElemV> },
    Block { v: Seq<LElemV> },
    Declaration { ident: Seq<char>, expr: Box<LElemV> },
    If { expr: Box<LElemV>, block: Box<LElemV> },
    Expr { t1: Box<LElemV>, t2: Box<LElemV>, op: Seq<char> },
    UExpr { op: Seq<char>, t: Box<LElemV> },
    Return { expr: Box<LElemV> },
    Invoke { ident: Seq<char>, args: Seq<LElemV> },
    Params { v: Seq<(Seq<char>, Type)> },
}

/// The mathematical value of an abstract-syntax-tree node.
pub struct LNodeV {
    pub start: int,
    pub end: int,
    pub data: NodeDataV,
    pub t: Type,
}

/// The mathematical value of an abstract-syntax-tree token.
pub struct LTokenV {
    pub start: int,
    pub end: int,
    pub data: TokenDataV,
    pub t: Type,
}

/// The mathematical value of a child.
pub enum LElemV {
    Node(LNodeV),
    Token(LTokenV),
}

/// The value of a node.
pub open spec fn lnode_v(n: LNode) -> LNodeV
    decreases n,
{
    LNodeV { start: n.start as int, end: n.end as int, data: data_v(n.data), t: n.t }
}

/// The value of a node payload.
pub open spec fn data_v(d: NodeData) -> NodeDataV
    decreases d,
{
    match d {
        NodeData::Function { ident, params, r_type, block } => NodeDataV::Function {
            ident: ident@,
            params: match params {
                Some(p) => Some(Box::new(lelem_v(*p))),
                None => None,
            },
            r_type,
            block: Box::new(lelem_v(*block)),
        },
        NodeData::Block { v } => NodeDataV::Block { v: lelems_v(v@) },
        NodeData::Declaration { ident, expr } => NodeDataV::Declaration { ident: ident@, expr: Box::new(lelem_v(*expr)) },
        NodeData::If { expr, block } => NodeDataV::If { expr: Box::new(lelem_v(*expr)), block: Box::new(lelem_v(*block)) },
        NodeData::Expr { t1, t2, op } => NodeDataV::Expr { t1: Box::new(lelem_v(*t1)), t2: Box::new(lelem_v(*t2)), op: op@ },
        NodeData::UExpr { op, t } => NodeDataV::UExpr { op: op@, t: Box::new(lelem_v(*t)) },
        NodeData::Return { expr } => NodeDataV::Return { expr: Box::new(lelem_v(*expr)) },
        NodeData::Invoke { ident, args } => NodeDataV::Invoke { ident: ident@, args: lelems_v(args@) },
        NodeData::Params { v } => NodeDataV::Params { v: params_v(v@) },
    }
}

/// The values of boxed children.
pub open spec fn lelems_v(s: Seq<Box<LElem>>) -> Seq<LElemV>
    decreases s,
{
    if s.len() == 0 {
        seq![]
    } else {
        lelems_v(s.drop_last()).push(lelem_v(*s.last()))
    }
}

/// The value of a child.
pub open spec fn lelem_v(e: LElem) -> LElemV
    decreases e,
{
    match e {
        LElem::Node(n) => LElemV::Node(lnode_v(n)),
        LElem::Token(t) => LElemV::Token(ltoken_v(t)),
    }
}

/// The value of a token.
pub open spec fn ltoken_v(t: LToken) -> LTokenV {
    LTokenV { start: t.start as int, end: t.end as int, data: t.data@, t: t.t }
}

/// The values of parameters.
pub open spec fn params_v(v: Seq<(String, Type)>) -> Seq<(Seq<char>, Type)> {
    Seq::new(v.len(), |i: int| (v[i].0@, v[i].1))
}

/// The values of boxed children are those of each child in turn.
pub proof fn lemma_lelems_v(s: Seq<Box<LElem>>)
    ensures
        lelems_v(s).len() == s.len(),
        forall|i: int| 0 <= i < s.len() ==> #[trigger] lelems_v(s)[i] == lelem_v(*s[i]),
    decreases s.len(),
{
    if s.len() > 0 {
        lemma_lelems_v(s.drop_last());
    }
}

/// Appending a child appends its value.
pub proof fn lemma_lelems_v_push(s: Seq<Box<LElem>>, x: Box<LElem>)
    ensures
        lelems_v(s.push(x)) == lelems_v(s).push(lelem_v(*x)),
{
    assert(s.push(x).drop_last() =~= s);
}

/// The node kind of a payload.
pub open spec fn data_kind(d: NodeDataV) -> NodeT {
    match d {
        NodeDataV::Function { .. } => NodeT::Function,
        NodeDataV::Block { .. } => NodeT::Block,
        NodeDataV::Declaration { .. } => NodeT::Declaration,
        NodeDataV::If { .. } => NodeT::If,
        NodeDataV::Expr { .. } => NodeT::Expr,
        NodeDataV::UExpr { .. } => NodeT::UExpr,
        NodeDataV::Return { .. } => NodeT::Return,
        NodeDataV::Invoke { .. } => NodeT::Invoke,
        NodeDataV::Params { .. } => NodeT::Params,
    }
}

/// The start of a child value.
pub open spec fn lelem_start(e: LElemV) -> int {
    match e {
        LElemV::Node(n) => n.start,
        LElemV::Token(t) => t.start,
    }
}

/// The type of a child value.
pub open spec fn lelem_type(e: LElemV) -> Type {
    match e {
        LElemV::Node(n) => n.t,
        LElemV::Token(t) => t.t,
    }
}

impl NodeData {
    /// The node kind of this payload.
    pub fn kind(&self) -> (r: NodeT)
        ensures
            r == data_kind(data_v(*self)),
    {
        match self {
            NodeData::Function { .. } => NodeT::Function,
            NodeData::Block { .. } => NodeT::Block,
            NodeData::Declaration { .. } => NodeT::Declaration,
            NodeData::If { .. } => NodeT::If,
            NodeData::Expr { .. } => NodeT::Expr,
            NodeData::UExpr { .. } => NodeT::UExpr,
            NodeData::Return { .. } => NodeT::Return,
            NodeData::Invoke { .. } => NodeT::Invoke,
            NodeData::Params { .. } => NodeT::Params,
        }
    }
}

impl LToken {
    /// A token as a leaf of the abstract syntax tree, not yet typed.
    pub fn from(tok: Token) -> (r: LToken)
        ensures
            ltoken_v(r) == (LTokenV { start: tok.start as int, end: tok.end as int, data: tok.data@, t: Type::Void }),
    {
        LToken { start: tok.start, end: tok.end, data: tok.data, t: Type::Void }
    }
}

/// The end of a child value.
pub open spec fn lelem_end(e: LElemV) -> int {
    match e {
        LElemV::Node(n) => n.end,
        LElemV::Token(t) => t.end,
    }
}

impl LElem {
    /// Where this child ends.
    pub fn end(&self) -> (r: usize)
        ensures
            r == lelem_end(lelem_v(*self)),
    {
        match self {
            LElem::Node(n) => n.end,
            LElem::Token(t) => t.end,
        }
    }

    /// The node this child is; it must be one.
    pub fn downcast_node(&self) -> (r: &LNode)
        requires
            *self is Node,
        ensures
            LElem::Node(*r) == *self,
    {
        match self {
            LElem::Node(n) => n,
            LElem::Token(_) => vstd::pervasive::unreached(),
        }
    }

    /// The payload of the node this child is; it must be one.
    pub fn node_data(&self) -> (r: &NodeData)
        requires
            *self is Node,
        ensures
            *r == self->Node_0.data,
    {
        &self.downcast_node().data
    }

    /// Where this child starts.
    pub fn start(&self) -> (r: usize)
        ensures
            r == lelem_start(lelem_v(*self)),
    {
        match self {
            LElem::Node(n) => n.start,
            LElem::Token(t) => t.start,
        }
    }

    /// The type of this child.
    pub fn t(&self) -> (r: Type)
        ensures
            r == lelem_type(lelem_v(*self)),
    {
        match self {
            LElem::Node(n) => n.t,
            LElem::Token(t) => t.t,
        }
    }
}


/// A reference to a child by its position.
#[derive(Debug, Clone, Copy, PartialEq, Eq, Structural)]
pub struct ChildRef {
    pub i: usize,
}

impl ChildRef {
    /// The reference to child `i`.
    pub fn new(i: usize) -> (r: ChildRef)
        ensures
            r.i == i,
    {
        ChildRef { i }
    }
}

} // verus!
