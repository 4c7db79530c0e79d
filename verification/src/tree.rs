use vstd::prelude::*;
use crate::grammar::{NodeT, ElemT};
use crate::token::{Token, TokenV, kind_of};

verus! {

/// A node of the concrete syntax tree: its kind, its children and the span from the start of
/// its first child to the end of its last.
#[derive(Debug)]
pub struct Node {
    pub start: usize,
    pub end: usize,
    pub t: NodeT,
    pub children: Vec<Elem>,
}

/// A child of a syntax-tree node.
#[derive(Debug)]
pub enum Elem {
    Node(Node),
    Token(Token),
}

/// The mathematical value of a syntax-tree node.
pub struct NodeV {
    pub start: int,
    pub end: int,
    pub t: NodeT,
    pub children: Seq<ElemV>,
}

/// The mathematical value of a child.
pub enum ElemV {
    Node(NodeV),
    Token(TokenV),
}

/// The value of a node.
pub open spec fn node_v(n: Node) -> NodeV
    decreases n,
{
    NodeV { start: n.start as int, end: n.end as int, t: n.t, children: elems_v(n.children@) }
}

/// The values of a sequence of children.
pub open spec fn elems_v(s: Seq<Elem>) -> Seq<ElemV>
    decreases s,
{
    if s.len() == 0 {
        seq![]
    } else {
        elems_v(s.drop_last()).push(elem_v(s.last()))
    }
}

/// The value of a child.
pub open spec fn elem_v(e: Elem) -> ElemV
    decreases e,
{
    match e {
        Elem::Node(n) => ElemV::Node(node_v(n)),
        Elem::Token(t) => ElemV::Token(t@),
    }
}

/// The values of the children are those of each child in turn.
pub proof fn lemma_elems_v(s: Seq<Elem>)
    ensures
        elems_v(s).len() == s.len(),
        forall|i: int| 0 <= i < s.len() ==> #[trigger] elems_v(s)[i] == elem_v(s[i]),
    decreases s.len(),
{
    if s.len() > 0 {
        lemma_elems_v(s.drop_last());
    }
}

/// Appending a child appends its value.
pub proof fn lemma_elems_v_push(s: Seq<Elem>, x: Elem)
    ensures
        elems_v(s.push(x)) == elems_v(s).push(elem_v(x)),
{
    assert(s.push(x).drop_last() =~= s);
}

/// The values of two sequences of children put together.
pub proof fn lemma_elems_v_add(a: Seq<Elem>, b: Seq<Elem>)
    ensures
        elems_v(a + b) == elems_v(a) + elems_v(b),
{
    lemma_elems_v(a);
    lemma_elems_v(b);
    lemma_elems_v(a + b);
    assert(elems_v(a + b) =~= elems_v(a) + elems_v(b));
}

/// The values of a part of a sequence of children.
pub proof fn lemma_elems_v_sub(a: Seq<Elem>, i: int, j: int)
    requires
        0 <= i <= j <= a.len(),
    ensures
        elems_v(a.subrange(i, j)) == elems_v(a).subrange(i, j),
{
    lemma_elems_v(a);
    lemma_elems_v(a.subrange(i, j));
    assert(elems_v(a.subrange(i, j)) =~= elems_v(a).subrange(i, j));
}

/// The symbol of a child value.
pub open spec fn elem_t(e: ElemV) -> ElemT {
    match e {
        ElemV::Node(n) => ElemT::Node(n.t),
        ElemV::Token(t) => ElemT::Token(kind_of(t.data)),
    }
}

/// Where a child value starts.
pub open spec fn elem_start(e: ElemV) -> int {
    match e {
        ElemV::Node(n) => n.start,
        ElemV::Token(t) => t.start,
    }
}

/// Where a child value ends.
pub open spec fn elem_end(e: ElemV) -> int {
    match e {
        ElemV::Node(n) => n.end,
        ElemV::Token(t) => t.end,
    }
}

/// The node of kind `t` over the children `c`, spanning from the first to the last.
pub open spec fn make_v(t: NodeT, c: Seq<ElemV>) -> NodeV {
    NodeV { start: elem_start(c[0]), end: elem_end(c.last()), t, children: c }
}

impl Elem {
    /// The symbol of this child.
    pub fn t(&self) -> (r: ElemT)
        ensures
            r == elem_t(elem_v(*self)),
    {
        match self {
            Elem::Node(n) => ElemT::Node(n.t),
            Elem::Token(t) => ElemT::Token(t.data.kind()),
        }
    }

    /// Where this child starts.
    pub fn start(&self) -> (r: usize)
        ensures
            r == elem_start(elem_v(*self)),
    {
        match self {
            Elem::Node(n) => n.start,
            Elem::Token(t) => t.start,
        }
    }

    /// Where this child ends.
    pub fn end(&self) -> (r: usize)
        ensures
            r == elem_end(elem_v(*self)),
    {
        match self {
            Elem::Node(n) => n.end,
            Elem::Token(t) => t.end,
        }
    }
}

impl Node {
    /// The node of kind `t` over `children`, spanning from the start of the first child to the
    /// end of the last.
    pub fn make(t: NodeT, children: Vec<Elem>) -> (r: Node)
        requires
            children@.len() > 0,
        ensures
            node_v(r) == make_v(t, elems_v(children@)),
    {
        let start = children[0].start();
        let end = children[children.len() - 1].end();
        proof {
            lemma_elems_v(children@);
        }
        Node { start, end, t, children }
    }
}


/// The tokens at the leaves of a syntax tree, left to right.
pub open spec fn leaves(n: NodeV) -> Seq<TokenV>
    decreases n,
{
    leaves_of(n.children)
}

/// The tokens at the leaves of a sequence of children, left to right.
pub open spec fn leaves_of(c: Seq<ElemV>) -> Seq<TokenV>
    decreases c,
{
    if c.len() == 0 {
        seq![]
    } else {
        leaves_of(c.drop_last()) + match c.last() {
            ElemV::Node(m) => leaves(m),
            ElemV::Token(t) => seq![t],
        }
    }
}

/// The tokens at the leaves of one child.
pub open spec fn elem_leaves(e: ElemV) -> Seq<TokenV> {
    match e {
        ElemV::Node(m) => leaves(m),
        ElemV::Token(t) => seq![t],
    }
}

/// The tokens at the leaves of a sequence of trees, left to right.
pub open spec fn forest_leaves(ns: Seq<NodeV>) -> Seq<TokenV>
    decreases ns.len(),
{
    if ns.len() == 0 {
        seq![]
    } else {
        forest_leaves(ns.drop_last()) + leaves(ns.last())
    }
}

/// The leaves of two sequences of children put together.
pub proof fn lemma_leaves_of_add(a: Seq<ElemV>, b: Seq<ElemV>)
    ensures
        leaves_of(a + b) == leaves_of(a) + leaves_of(b),
    decreases b.len(),
{
    if b.len() == 0 {
        assert(a + b =~= a);
    } else {
        lemma_leaves_of_add(a, b.drop_last());
        assert((a + b).drop_last() =~= a + b.drop_last());
        assert(leaves_of(a + b) =~= leaves_of(a) + leaves_of(b));
    }
}

} // verus!
