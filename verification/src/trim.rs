use vstd::prelude::*;
use crate::grammar::{NodeT, TokenT, ElemT};
use crate::productions::{flatten_groups, language_groups};
use crate::token::kind_of;
use crate::tree::{Node, Elem, NodeV, ElemV, elem_t, node_v, elem_v, elems_v, lemma_elems_v, lemma_elems_v_push, lemma_elems_v_add, lemma_elems_v_sub, leaves, leaves_of, elem_leaves, lemma_leaves_of_add};
use crate::token::TokenV;

verus! {

/// The children `c` with the tokens whose kind is in `ks` dropped and every node trimmed;
/// `None` when trimming a node fails.
pub open spec fn trim_kids(c: Seq<ElemV>, ks: Seq<TokenT>) -> Option<Seq<ElemV>>
    decreases c,
{
    if c.len() == 0 {
        Some(seq![])
    } else {
        match trim_kids(c.drop_last(), ks) {
            None => None,
            Some(r) => match c.last() {
                ElemV::Token(t) => if ks.contains(kind_of(t.data)) {
                    Some(r)
                } else {
                    Some(r.push(c.last()))
                },
                ElemV::Node(m) => match trim_v(m) {
                    None => None,
                    Some(e) => Some(r.push(e)),
                },
            },
        }
    }
}

/// A list node's children with a leading child of the same kind spliced in: the structure
/// `X -> X A | A` becomes one flat list.
pub open spec fn into_list(t: NodeT, c: Seq<ElemV>) -> Seq<ElemV> {
    if c.len() > 0 && (c[0] matches ElemV::Node(m) && m.t == t) {
        c[0]->Node_0.children + c.drop_first()
    } else {
        c
    }
}

/// A node that stands for its only child when it has exactly one.
pub open spec fn collapse(n: NodeV) -> ElemV {
    if n.children.len() == 1 {
        n.children[0]
    } else {
        ElemV::Node(n)
    }
}

/// `n` with kind `t` and children `c`.
pub open spec fn with_kids(n: NodeV, t: NodeT, c: Seq<ElemV>) -> NodeV {
    NodeV { start: n.start, end: n.end, t, children: c }
}

/// The token kinds that trimming drops from a node of kind `t`.
pub open spec fn dropped(t: NodeT) -> Seq<TokenT> {
    match t {
        NodeT::Declaration => seq![TokenT::K_LET, TokenT::EQ_1],
        NodeT::If => seq![TokenT::K_IF],
        NodeT::Return => seq![TokenT::K_RETURN],
        NodeT::Invoke => seq![TokenT::PAREN_L, TokenT::PAREN_R],
        NodeT::Args => seq![TokenT::COMMA],
        NodeT::TBase => seq![TokenT::PAREN_L, TokenT::PAREN_R],
        NodeT::Function => seq![TokenT::K_FUNC, TokenT::PAREN_L, TokenT::PAREN_R, TokenT::ARROW],
        NodeT::Block => seq![TokenT::CURLY_L, TokenT::CURLY_R],
        NodeT::Params => seq![TokenT::COMMA, TokenT::COLON],
        _ => seq![],
    }
}

/// The concrete syntax tree with its grammatical scaffolding removed: keywords, brackets and
/// separators dropped, recursive lists flattened, single-child expression levels collapsed,
/// `T1 T2 T3 TBase` renamed `Expr` (a `TBase` with two children, `UExpr`), a block's list
/// spliced into the block and an invocation's arguments into the invocation. `None` where a
/// node kind has no trimming rule, or a block or invocation holds a node of the wrong kind.
pub open spec fn trim_v(n: NodeV) -> Option<ElemV>
    decreases n,
{
    match n.t {
        NodeT::Declaration => match trim_kids(n.children, dropped(n.t)) {
            None => None,
            Some(c) => Some(ElemV::Node(with_kids(n, n.t, c))),
        },
        NodeT::If => match trim_kids(n.children, dropped(n.t)) {
            None => None,
            Some(c) => Some(ElemV::Node(with_kids(n, n.t, c))),
        },
        NodeT::Return => match trim_kids(n.children, dropped(n.t)) {
            None => None,
            Some(c) => Some(ElemV::Node(with_kids(n, n.t, c))),
        },
        NodeT::Invoke => match trim_kids(n.children, dropped(n.t)) {
            None => None,
            Some(c) => if c.len() > 1 {
                match c.last() {
                    ElemV::Node(a) => if a.t == NodeT::Args {
                        Some(ElemV::Node(with_kids(n, n.t, c.drop_last() + a.children)))
                    } else {
                        None
                    },
                    ElemV::Token(_) => Some(ElemV::Node(with_kids(n, n.t, c.drop_last()))),
                }
            } else {
                Some(ElemV::Node(with_kids(n, n.t, c)))
            },
        },
        NodeT::Args => match trim_kids(n.children, dropped(n.t)) {
            None => None,
            Some(c) => Some(ElemV::Node(with_kids(n, n.t, into_list(n.t, c)))),
        },
        NodeT::Expr | NodeT::Statement => match trim_kids(n.children, dropped(n.t)) {
            None => None,
            Some(c) => Some(collapse(with_kids(n, n.t, c))),
        },
        NodeT::T1 | NodeT::T2 | NodeT::T3 => match trim_kids(n.children, dropped(n.t)) {
            None => None,
            Some(c) => Some(collapse(with_kids(n, NodeT::Expr, c))),
        },
        NodeT::TBase => match trim_kids(n.children, dropped(n.t)) {
            None => None,
            Some(c) => Some(collapse(with_kids(n, if c.len() == 2 { NodeT::UExpr } else { NodeT::Expr }, c))),
        },
        NodeT::Function => match trim_kids(n.children, dropped(n.t)) {
            None => None,
            Some(c) => Some(ElemV::Node(with_kids(n, n.t, c))),
        },
        NodeT::Block => match trim_kids(n.children, dropped(n.t)) {
            None => None,
            Some(c) => if c.len() > 0 {
                match c.last() {
                    ElemV::Node(m) => if m.t == NodeT::List {
                        Some(ElemV::Node(with_kids(n, n.t, m.children)))
                    } else {
                        None
                    },
                    ElemV::Token(_) => Some(ElemV::Node(with_kids(n, n.t, c.drop_last()))),
                }
            } else {
                Some(ElemV::Node(with_kids(n, n.t, c)))
            },
        },
        NodeT::List => match trim_kids(n.children, dropped(n.t)) {
            None => None,
            Some(c) => Some(ElemV::Node(with_kids(n, n.t, into_list(n.t, c)))),
        },
        NodeT::Params => match trim_kids(n.children, dropped(n.t)) {
            None => None,
            Some(c) => Some(ElemV::Node(with_kids(n, n.t, into_list(n.t, c)))),
        },
        _ => None,
    }
}


/// `a` is `b` with some tokens left out: the tokens of `a` occur in `b` in the same order.
pub open spec fn subseq(a: Seq<TokenV>, b: Seq<TokenV>) -> bool
    decreases b.len(),
{
    if a.len() == 0 {
        true
    } else if b.len() == 0 {
        false
    } else {
        (a.last() == b.last() && subseq(a.drop_last(), b.drop_last())) || subseq(a, b.drop_last())
    }
}

/// Every sequence is a subsequence of itself.
proof fn lemma_subseq_refl(a: Seq<TokenV>)
    ensures
        subseq(a, a),
    decreases a.len(),
{
    if a.len() > 0 {
        lemma_subseq_refl(a.drop_last());
    }
}

/// A subsequence of `b` is one of `b` with more after it.
proof fn lemma_subseq_extend(a: Seq<TokenV>, b: Seq<TokenV>, c: Seq<TokenV>)
    requires
        subseq(a, b),
    ensures
        subseq(a, b + c),
    decreases c.len(),
{
    if c.len() == 0 {
        assert(b + c =~= b);
    } else {
        lemma_subseq_extend(a, b, c.drop_last());
        assert((b + c).drop_last() =~= b + c.drop_last());
    }
}

/// Subsequences put together are a subsequence of the sequences put together.
proof fn lemma_subseq_add(a1: Seq<TokenV>, b1: Seq<TokenV>, a2: Seq<TokenV>, b2: Seq<TokenV>)
    requires
        subseq(a1, b1),
        subseq(a2, b2),
    ensures
        subseq(a1 + a2, b1 + b2),
    decreases b2.len(),
{
    if a2.len() == 0 {
        assert(a1 + a2 =~= a1);
        lemma_subseq_extend(a1, b1, b2);
    } else {
        assert((a1 + a2).drop_last() =~= a1 + a2.drop_last());
        assert((b1 + b2).drop_last() =~= b1 + b2.drop_last());
        if a2.last() == b2.last() && subseq(a2.drop_last(), b2.drop_last()) {
            lemma_subseq_add(a1, b1, a2.drop_last(), b2.drop_last());
        } else {
            lemma_subseq_add(a1, b1, a2, b2.drop_last());
        }
    }
}

/// The empty sequence is a subsequence of every sequence.
proof fn lemma_subseq_empty(b: Seq<TokenV>)
    ensures
        subseq(Seq::<TokenV>::empty(), b),
{
}

/// The leaves of one child alone.
proof fn lemma_leaves_of_one(x: ElemV)
    ensures
        leaves_of(seq![x]) == elem_leaves(x),
{
    assert(seq![x].drop_last() =~= Seq::<ElemV>::empty());
    assert(leaves_of(seq![x].drop_last()) =~= Seq::<TokenV>::empty());
    assert(leaves_of(seq![x]) =~= elem_leaves(x));
}

/// Splicing a leading list's children in keeps the leaves.
proof fn lemma_into_list_leaves(t: NodeT, c: Seq<ElemV>)
    ensures
        leaves_of(into_list(t, c)) == leaves_of(c),
{
    if c.len() > 0 && (c[0] matches ElemV::Node(m) && m.t == t) {
        let rest = c.drop_first();
        lemma_leaves_of_add(c[0]->Node_0.children, rest);
        lemma_leaves_of_add(seq![c[0]], rest);
        lemma_leaves_of_one(c[0]);
        assert(seq![c[0]] + rest =~= c);
    }
}

/// Trimming children keeps a subsequence of their leaves.
proof fn lemma_trim_kids_subseq(c: Seq<ElemV>, ks: Seq<TokenT>)
    requires
        trim_kids(c, ks) is Some,
    ensures
        subseq(leaves_of(trim_kids(c, ks)->Some_0), leaves_of(c)),
    decreases c,
{
    if c.len() == 0 {
        lemma_subseq_empty(leaves_of(c));
    } else {
        lemma_trim_kids_subseq(c.drop_last(), ks);
        let r0 = trim_kids(c.drop_last(), ks)->Some_0;
        let r = trim_kids(c, ks)->Some_0;
        assert(leaves_of(c) == leaves_of(c.drop_last()) + elem_leaves(c.last()));
        let keep = match c.last() {
            ElemV::Token(t) => !ks.contains(kind_of(t.data)),
            ElemV::Node(_) => true,
        };
        if keep {
            let x = match c.last() {
                ElemV::Node(m) => trim_v(m)->Some_0,
                ElemV::Token(_) => c.last(),
            };
            assert(r == r0.push(x));
            assert(r.drop_last() =~= r0);
            assert(leaves_of(r) == leaves_of(r0) + elem_leaves(x));
            match c.last() {
                ElemV::Node(m) => {
                    trim_keeps_token_order(m);
                },
                ElemV::Token(_) => {
                    lemma_subseq_refl(elem_leaves(x));
                },
            }
            lemma_subseq_add(leaves_of(r0), leaves_of(c.drop_last()), elem_leaves(x), elem_leaves(c.last()));
        } else {
            assert(r == r0);
            lemma_subseq_extend(leaves_of(r0), leaves_of(c.drop_last()), elem_leaves(c.last()));
        }
    }
}

/// Trimming only leaves tokens out: the leaves of a trimmed node are those of the node with
/// some left out, in the same order.
pub proof fn trim_keeps_token_order(n: NodeV)
    requires
        trim_v(n) is Some,
    ensures
        subseq(elem_leaves(trim_v(n)->Some_0), leaves(n)),
    decreases n,
{
    let ks = dropped(n.t);
    lemma_trim_kids_subseq(n.children, ks);
    let c = trim_kids(n.children, ks)->Some_0;
    let e = trim_v(n)->Some_0;
    assert(leaves(n) == leaves_of(n.children));
    if c.len() > 0 {
        lemma_leaves_of_add(c.drop_last(), seq![c.last()]);
        lemma_leaves_of_one(c.last());
        assert(c.drop_last() + seq![c.last()] =~= c);
    }
    if c.len() == 1 {
        lemma_leaves_of_one(c[0]);
        assert(seq![c[0]] =~= c);
    }
    match n.t {
        NodeT::Args | NodeT::List | NodeT::Params => {
            lemma_into_list_leaves(n.t, c);
        },
        NodeT::Invoke => {
            if c.len() > 1 && (c.last() matches ElemV::Node(a) && a.t == NodeT::Args) {
                lemma_leaves_of_add(c.drop_last(), c.last()->Node_0.children);
            } else if c.len() > 1 {
                lemma_subseq_refl(leaves_of(c.drop_last()));
                lemma_subseq_extend(leaves_of(c.drop_last()), leaves_of(c.drop_last()), elem_leaves(c.last()));
                lemma_subseq_trans(leaves_of(c.drop_last()), leaves_of(c), leaves(n));
            }
        },
        NodeT::Block => {
            if c.len() > 0 {
                match c.last() {
                    ElemV::Node(m) => {
                        lemma_subseq_empty(leaves_of(c.drop_last()));
                        lemma_subseq_refl(leaves(m));
                        lemma_subseq_add(Seq::<TokenV>::empty(), leaves_of(c.drop_last()), leaves(m), leaves(m));
                        assert(Seq::<TokenV>::empty() + leaves(m) =~= leaves(m));
                        lemma_subseq_trans(leaves(m), leaves_of(c), leaves(n));
                    },
                    ElemV::Token(_) => {
                        lemma_subseq_refl(leaves_of(c.drop_last()));
                        lemma_subseq_extend(leaves_of(c.drop_last()), leaves_of(c.drop_last()), elem_leaves(c.last()));
                        lemma_subseq_trans(leaves_of(c.drop_last()), leaves_of(c), leaves(n));
                    },
                }
            }
        },
        _ => {},
    }
}

/// A subsequence of a subsequence is a subsequence.
proof fn lemma_subseq_trans(a: Seq<TokenV>, b: Seq<TokenV>, c: Seq<TokenV>)
    requires
        subseq(a, b),
        subseq(b, c),
    ensures
        subseq(a, c),
    decreases c.len(),
{
    if a.len() > 0 && c.len() > 0 {
        if b.last() == c.last() && subseq(b.drop_last(), c.drop_last()) {
            if a.last() == b.last() && subseq(a.drop_last(), b.drop_last()) {
                lemma_subseq_trans(a.drop_last(), b.drop_last(), c.drop_last());
            } else {
                lemma_subseq_trans(a, b.drop_last(), c.drop_last());
            }
        } else {
            lemma_subseq_trans(a, b, c.drop_last());
        }
    }
}

/// Once trimming a prefix of the children fails, trimming all of them fails.
proof fn lemma_trim_kids_none(c: Seq<ElemV>, ks: Seq<TokenT>, j: int)
    requires
        0 <= j <= c.len(),
        trim_kids(c.subrange(0, j), ks) is None,
    ensures
        trim_kids(c, ks) is None,
    decreases c.len() - j,
{
    if j < c.len() {
        let d = c.subrange(0, j + 1);
        assert(d.drop_last() =~= c.subrange(0, j));
        lemma_trim_kids_none(c, ks, j + 1);
    } else {
        assert(c.subrange(0, j) =~= c);
    }
}

/// The token kinds that trimming drops from a node of kind `t`.
fn dropped_exec(t: NodeT) -> (r: Vec<TokenT>)
    ensures
        r@ == dropped(t),
{
    let mut r: Vec<TokenT> = Vec::new();
    match t {
        NodeT::Declaration => {
            r.push(TokenT::K_LET);
            r.push(TokenT::EQ_1);
        },
        NodeT::If => {
            r.push(TokenT::K_IF);
        },
        NodeT::Return => {
            r.push(TokenT::K_RETURN);
        },
        NodeT::Invoke | NodeT::TBase => {
            r.push(TokenT::PAREN_L);
            r.push(TokenT::PAREN_R);
        },
        NodeT::Args => {
            r.push(TokenT::COMMA);
        },
        NodeT::Function => {
            r.push(TokenT::K_FUNC);
            r.push(TokenT::PAREN_L);
            r.push(TokenT::PAREN_R);
            r.push(TokenT::ARROW);
        },
        NodeT::Block => {
            r.push(TokenT::CURLY_L);
            r.push(TokenT::CURLY_R);
        },
        NodeT::Params => {
            r.push(TokenT::COMMA);
            r.push(TokenT::COLON);
        },
        _ => {},
    }
    assert(r@ =~= dropped(t));
    r
}

/// Whether `ks` holds `k`.
fn has_kind(ks: &[TokenT], k: TokenT) -> (r: bool)
    ensures
        r == ks@.contains(k),
{
    let mut i: usize = 0;
    while i < ks.len()
        invariant
            i <= ks@.len(),
            forall|j: int| 0 <= j < i ==> ks@[j] != k,
        decreases ks@.len() - i,
    {
        if ks[i] == k {
            assert(ks@[i as int] == k);
            return true;
        }
        i += 1;
    }
    false
}

/// The node `start..end` of kind `t` over `kids`, or its only child when it has one.
fn collapse_exec(start: usize, end: usize, t: NodeT, kids: Vec<Elem>) -> (r: Elem)
    ensures
        elem_v(r) == collapse(NodeV { start: start as int, end: end as int, t, children: elems_v(kids@) }),
{
    proof {
        lemma_elems_v(kids@);
    }
    let mut kids = kids;
    if kids.len() == 1 {
        kids.pop().unwrap()
    } else {
        Elem::Node(Node { start, end, t, children: kids })
    }
}

/// `kids` with a leading node of kind `t` spliced in.
fn into_list_exec(t: NodeT, kids: Vec<Elem>) -> (r: Vec<Elem>)
    ensures
        elems_v(r@) == into_list(t, elems_v(kids@)),
{
    proof {
        lemma_elems_v(kids@);
    }
    let mut kids = kids;
    let splice = kids.len() > 0 && match &kids[0] {
        Elem::Node(m) => m.t == t,
        Elem::Token(_) => false,
    };
    if splice {
        let ghost k0 = kids@;
        let first = kids.remove(0);
        match first {
            Elem::Node(m) => {
                let mut out = m.children;
                let ghost o0 = out@;
                out.append(&mut kids);
                proof {
                    lemma_elems_v_add(o0, k0.drop_first());
                    lemma_elems_v_sub(k0, 1, k0.len() as int);
                    assert(k0.drop_first() =~= k0.subrange(1, k0.len() as int));
                }
                out
            },
            Elem::Token(_) => kids,
        }
    } else {
        kids
    }
}

impl Node {
    /// Trims the tree, as `trim_v` says; the tree must be one that `trim_v` trims, as every
    /// tree of the language is (`language_trim_leaves`).
    pub fn trim(self) -> (r: Elem)
        requires
            trim_v(node_v(self)) is Some,
        ensures
            elem_v(r) == trim_v(node_v(self))->Some_0,
    {
        self.try_trim().unwrap()
    }

    /// Trims the tree, as `trim_v` says; `None` where that has no result.
    #[verifier::loop_isolation(false)]
    pub fn try_trim(self) -> (r: Option<Elem>)
        ensures
            match (trim_v(node_v(self)), r) {
                (None, None) => true,
                (Some(e), Some(x)) => elem_v(x) == e,
                _ => false,
            },
        decreases node_v(self),
    {
        let ghost s0 = self;
        let ghost nv = node_v(self);
        match self.t {
            NodeT::Declaration | NodeT::If | NodeT::Return | NodeT::Invoke | NodeT::Args
            | NodeT::TBase | NodeT::Function | NodeT::Block | NodeT::Params | NodeT::Expr
            | NodeT::Statement | NodeT::T1 | NodeT::T2 | NodeT::T3 | NodeT::List => {},
            _ => {
                return None;
            },
        }
        let kv = dropped_exec(self.t);
        let ks = kv.as_slice();
        let Node { start, end, t, children } = self;
        let ghost c0 = children@;
        let ghost cv = elems_v(c0);
        proof {
            lemma_elems_v(c0);
            assert(cv.subrange(0, 0) =~= seq![]);
            assert(nv.children == cv);
            assert(trim_kids(cv, ks@) is None ==> trim_v(nv) is None);
        }
        let mut rest = children;
        let mut kids: Vec<Elem> = Vec::new();
        let ghost mut i: int = 0;
        while rest.len() > 0
            invariant
                0 <= i <= c0.len(),
                rest@ == c0.subrange(i, c0.len() as int),
                cv == elems_v(c0),
                cv.len() == c0.len(),
                forall|j: int| 0 <= j < c0.len() ==> #[trigger] cv[j] == elem_v(c0[j]),
                c0 == s0.children@,
                nv == node_v(s0),
                nv.children == cv,
                trim_kids(cv, ks@) is None ==> trim_v(nv) is None,
                trim_kids(cv.subrange(0, i), ks@) == Some(elems_v(kids@)),
            decreases rest@.len(),
        {
            let e = rest.remove(0);
            let ghost cur = cv.subrange(0, i + 1);
            proof {
                assert(cur.drop_last() =~= cv.subrange(0, i));
                assert(cur.last() == elem_v(e));
            }
            match e {
                Elem::Token(tok) => {
                    if !has_kind(ks, tok.data.kind()) {
                        proof {
                            lemma_elems_v_push(kids@, Elem::Token(tok));
                        }
                        kids.push(Elem::Token(tok));
                    }
                },
                Elem::Node(m) => {
                    proof {
                        assert(c0[i] == Elem::Node(m));
                        assert(cv[i] == ElemV::Node(node_v(m)));
                        assert(decreases_to!(nv => nv.children));
                        assert(decreases_to!(nv.children => nv.children[i]));
                        assert(decreases_to!(nv.children[i] => nv.children[i]->Node_0));
                        assert(nv.children[i]->Node_0 == node_v(m));
                        assert(decreases_to!(node_v(s0) => node_v(m)));
                    }
                    let res = m.try_trim();
                    match res {
                        None => {
                            proof {
                                lemma_trim_kids_none(cv, ks@, i + 1);
                            }
                            return None;
                        },
                        Some(x) => {
                            proof {
                                lemma_elems_v_push(kids@, x);
                            }
                            kids.push(x);
                        },
                    }
                },
            }
            proof {
                i = i + 1;
            }
        }
        proof {
            assert(cv.subrange(0, i) =~= cv);
            assert(nv.children == cv);
            lemma_elems_v(kids@);
        }
        match t {
            NodeT::Invoke => {
                if kids.len() > 1 {
                    let ghost k0 = kids@;
                    let last = kids.pop().unwrap();
                    proof {
                        lemma_elems_v_sub(k0, 0, k0.len() - 1);
                        assert(k0.subrange(0, k0.len() - 1) =~= kids@);
                    }
                    match last {
                        Elem::Node(a) => {
                            if a.t != NodeT::Args {
                                return None;
                            }
                            let mut args = a.children;
                            let ghost a0 = args@;
                            let ghost kk = kids@;
                            kids.append(&mut args);
                            proof {
                                lemma_elems_v_add(kk, a0);
                            }
                        },
                        Elem::Token(_) => {},
                    }
                }
                Some(Elem::Node(Node { start, end, t, children: kids }))
            },
            NodeT::Args | NodeT::List | NodeT::Params => {
                let c = into_list_exec(t, kids);
                Some(Elem::Node(Node { start, end, t, children: c }))
            },
            NodeT::Expr | NodeT::Statement => Some(collapse_exec(start, end, t, kids)),
            NodeT::T1 | NodeT::T2 | NodeT::T3 => Some(collapse_exec(start, end, NodeT::Expr, kids)),
            NodeT::TBase => {
                let nt = if kids.len() == 2 {
                    NodeT::UExpr
                } else {
                    NodeT::Expr
                };
                Some(collapse_exec(start, end, nt, kids))
            },
            NodeT::Block => {
                if kids.len() > 0 {
                    let ghost k0 = kids@;
                    let last = kids.pop().unwrap();
                    proof {
                        lemma_elems_v_sub(k0, 0, k0.len() - 1);
                        assert(k0.subrange(0, k0.len() - 1) =~= kids@);
                    }
                    match last {
                        Elem::Node(list) => {
                            if list.t != NodeT::List {
                                return None;
                            }
                            Some(Elem::Node(Node { start, end, t, children: list.children }))
                        },
                        Elem::Token(_) => Some(Elem::Node(Node { start, end, t, children: kids })),
                    }
                } else {
                    Some(Elem::Node(Node { start, end, t, children: kids }))
                }
            },
            _ => Some(Elem::Node(Node { start, end, t, children: kids })),
        }
    }
}

/// The token kinds that trimming removes from the language's trees: keywords, `=`, brackets,
/// separators and `->`.
pub open spec fn is_punct(k: TokenT) -> bool {
    match k {
        TokenT::K_LET | TokenT::EQ_1 | TokenT::K_IF | TokenT::K_RETURN | TokenT::K_FUNC
        | TokenT::PAREN_L | TokenT::PAREN_R | TokenT::ARROW | TokenT::CURLY_L | TokenT::CURLY_R
        | TokenT::COMMA | TokenT::COLON => true,
        _ => false,
    }
}

/// Whether `k` is among `s`.
pub open spec fn in_list(s: Seq<TokenT>, k: TokenT) -> bool
    decreases s.len(),
{
    s.len() > 0 && (s.last() == k || in_list(s.drop_last(), k))
}

/// The symbols of a right-hand side that trimming a node of kind `t` keeps.
pub open spec fn kept_syms(t: NodeT, ks: Seq<ElemT>) -> Seq<ElemT>
    decreases ks.len(),
{
    if ks.len() == 0 {
        seq![]
    } else {
        kept_syms(t, ks.drop_last()) + match ks.last() {
            ElemT::Token(k) => if in_list(dropped(t), k) { seq![] } else { seq![ks.last()] },
            ElemT::Node(_) => seq![ks.last()],
        }
    }
}

/// In a right-hand side of a node of kind `t`, trimming drops exactly the punctuation tokens.
pub open spec fn drops_punct(t: NodeT, ks: Seq<ElemT>) -> bool
    decreases ks.len(),
{
    ks.len() == 0 || (drops_punct(t, ks.drop_last()) && match ks.last() {
        ElemT::Token(k) => is_punct(k) == in_list(dropped(t), k),
        ElemT::Node(_) => true,
    })
}

/// Whether trimming has a rule for nodes of kind `t`.
pub open spec fn has_trimmer(t: NodeT) -> bool {
    match t {
        NodeT::Declaration | NodeT::If | NodeT::Return | NodeT::Invoke | NodeT::Args | NodeT::Expr
        | NodeT::Statement | NodeT::T1 | NodeT::T2 | NodeT::T3 | NodeT::TBase | NodeT::Function
        | NodeT::Block | NodeT::List | NodeT::Params => true,
        _ => false,
    }
}

/// A production `t -> ks` that trimming handles: `t` has a rule, exactly the punctuation goes,
/// an invocation keeps at most its name or ends with its arguments, and a block keeps nothing
/// or its list alone.
pub open spec fn trimmable_rule(t: NodeT, ks: Seq<ElemT>) -> bool {
    &&& has_trimmer(t)
    &&& (t == NodeT::Params ==> flat_params(kept_syms(t, ks)))
    &&& drops_punct(t, ks)
    &&& (t == NodeT::Invoke ==> kept_syms(t, ks).len() <= 1 || kept_syms(t, ks).last() == ElemT::Node(NodeT::Args))
    &&& (t == NodeT::Block ==> kept_syms(t, ks).len() == 0 || kept_syms(t, ks) == seq![ElemT::Node(NodeT::List)])
}

/// Symbols that are all tokens.
pub open spec fn all_tokens(ks: Seq<ElemT>) -> bool
    decreases ks.len(),
{
    ks.len() == 0 || (all_tokens(ks.drop_last()) && ks.last() is Token)
}

/// The kept symbols of a parameter list: a leading parameter list or token, then tokens.
pub open spec fn flat_params(ks: Seq<ElemT>) -> bool {
    ks.len() > 0 && (ks[0] is Token || ks[0] == ElemT::Node(NodeT::Params)) && all_tokens(ks.drop_first())
}

/// Every production of the grouped productions `gs` is one that trimming handles.
pub open spec fn groups_trimmable(gs: Seq<(NodeT, Seq<Seq<ElemT>>)>) -> bool {
    forall|g: int, r: int| 0 <= g < gs.len() && 0 <= r < gs[g].1.len() ==> #[trigger] trimmable_rule(gs[g].0, gs[g].1[r])
}

/// Flattening keeps each production of the groups.
proof fn lemma_flatten_trimmable(gs: Seq<(NodeT, Seq<Seq<ElemT>>)>)
    requires
        groups_trimmable(gs),
    ensures
        forall|i: int| 0 <= i < flatten_groups(gs).len() ==> #[trigger] trimmable_rule(flatten_groups(gs)[i].0, flatten_groups(gs)[i].1),
    decreases gs.len(),
{
    if gs.len() > 0 {
        let last = gs.last();
        assert(groups_trimmable(gs.drop_last())) by {
            assert forall|g: int, r: int| 0 <= g < gs.drop_last().len() && 0 <= r < gs.drop_last()[g].1.len() implies #[trigger] trimmable_rule(gs.drop_last()[g].0, gs.drop_last()[g].1[r]) by {
                assert(gs.drop_last()[g] == gs[g]);
            }
        }
        lemma_flatten_trimmable(gs.drop_last());
        let f0 = flatten_groups(gs.drop_last());
        let gr = crate::productions::group_rules(last.0, last.1);
        assert forall|i: int| 0 <= i < flatten_groups(gs).len() implies #[trigger] trimmable_rule(flatten_groups(gs)[i].0, flatten_groups(gs)[i].1) by {
            if i < f0.len() {
                assert(flatten_groups(gs)[i] == f0[i]);
            } else {
                let r = i - f0.len();
                assert(flatten_groups(gs)[i] == gr[r]);
                assert(gr[r] == (last.0, last.1[r]));
                assert(trimmable_rule(gs[gs.len() - 1].0, gs[gs.len() - 1].1[r]));
            }
        }
    }
}

/// The productions of `Block` are ones that trimming handles.
proof fn lemma_block_rules_trimmable()
    ensures
        forall|r: int| 0 <= r < language_groups()[0].1.len() ==> #[trigger] trimmable_rule(language_groups()[0].0, language_groups()[0].1[r]),
{
    let gs = language_groups();
    reveal_with_fuel(kept_syms, 9);
    reveal_with_fuel(drops_punct, 9);
    reveal_with_fuel(in_list, 5);
    assert(gs[0].1.len() == 2);
    assert(trimmable_rule(gs[0].0, gs[0].1[0]));
    assert(trimmable_rule(gs[0].0, gs[0].1[1]));
}

/// The productions of `List` are ones that trimming handles.
proof fn lemma_list_rules_trimmable()
    ensures
        forall|r: int| 0 <= r < language_groups()[1].1.len() ==> #[trigger] trimmable_rule(language_groups()[1].0, language_groups()[1].1[r]),
{
    let gs = language_groups();
    reveal_with_fuel(kept_syms, 9);
    reveal_with_fuel(drops_punct, 9);
    reveal_with_fuel(in_list, 5);
    assert(gs[1].1.len() == 2);
    assert(trimmable_rule(gs[1].0, gs[1].1[0]));
    assert(trimmable_rule(gs[1].0, gs[1].1[1]));
}

/// The productions of `Params` are ones that trimming handles.
proof fn lemma_params_rules_trimmable()
    ensures
        forall|r: int| 0 <= r < language_groups()[2].1.len() ==> #[trigger] trimmable_rule(language_groups()[2].0, language_groups()[2].1[r]),
{
    let gs = language_groups();
    reveal_with_fuel(kept_syms, 9);
    reveal_with_fuel(drops_punct, 9);
    reveal_with_fuel(in_list, 5);
    reveal_with_fuel(all_tokens, 3);
    assert(gs[2].1.len() == 2);
    let k0 = kept_syms(NodeT::Params, gs[2].1[0]);
    let k1 = kept_syms(NodeT::Params, gs[2].1[1]);
    assert(k0 =~= seq![ElemT::Token(TokenT::IDENT), ElemT::Token(TokenT::TYPE)]);
    assert(k1 =~= seq![ElemT::Node(NodeT::Params), ElemT::Token(TokenT::IDENT), ElemT::Token(TokenT::TYPE)]);
    assert(k0.drop_first() =~= seq![ElemT::Token(TokenT::TYPE)]);
    assert(k1.drop_first() =~= seq![ElemT::Token(TokenT::IDENT), ElemT::Token(TokenT::TYPE)]);
    assert(flat_params(k0));
    assert(flat_params(k1));
    assert(trimmable_rule(gs[2].0, gs[2].1[0]));
    assert(trimmable_rule(gs[2].0, gs[2].1[1]));
}

/// The productions of `Function` are ones that trimming handles.
proof fn lemma_function_rules_trimmable()
    ensures
        forall|r: int| 0 <= r < language_groups()[3].1.len() ==> #[trigger] trimmable_rule(language_groups()[3].0, language_groups()[3].1[r]),
{
    let gs = language_groups();
    reveal_with_fuel(kept_syms, 9);
    reveal_with_fuel(drops_punct, 9);
    reveal_with_fuel(in_list, 5);
    assert(gs[3].1.len() == 2);
    assert(trimmable_rule(gs[3].0, gs[3].1[0]));
    assert(trimmable_rule(gs[3].0, gs[3].1[1]));
}

/// The productions of `Statement` are ones that trimming handles.
proof fn lemma_statement_rules_trimmable()
    ensures
        forall|r: int| 0 <= r < language_groups()[4].1.len() ==> #[trigger] trimmable_rule(language_groups()[4].0, language_groups()[4].1[r]),
{
    let gs = language_groups();
    reveal_with_fuel(kept_syms, 9);
    reveal_with_fuel(drops_punct, 9);
    reveal_with_fuel(in_list, 5);
    assert(gs[4].1.len() == 5);
    assert(trimmable_rule(gs[4].0, gs[4].1[0]));
    assert(trimmable_rule(gs[4].0, gs[4].1[1]));
    assert(trimmable_rule(gs[4].0, gs[4].1[2]));
    assert(trimmable_rule(gs[4].0, gs[4].1[3]));
    assert(trimmable_rule(gs[4].0, gs[4].1[4]));
}

/// The productions of `Declaration` are ones that trimming handles.
proof fn lemma_declaration_rules_trimmable()
    ensures
        forall|r: int| 0 <= r < language_groups()[5].1.len() ==> #[trigger] trimmable_rule(language_groups()[5].0, language_groups()[5].1[r]),
{
    let gs = language_groups();
    reveal_with_fuel(kept_syms, 9);
    reveal_with_fuel(drops_punct, 9);
    reveal_with_fuel(in_list, 5);
    assert(gs[5].1.len() == 1);
    assert(trimmable_rule(gs[5].0, gs[5].1[0]));
}

/// The productions of `If` are ones that trimming handles.
proof fn lemma_if_rules_trimmable()
    ensures
        forall|r: int| 0 <= r < language_groups()[6].1.len() ==> #[trigger] trimmable_rule(language_groups()[6].0, language_groups()[6].1[r]),
{
    let gs = language_groups();
    reveal_with_fuel(kept_syms, 9);
    reveal_with_fuel(drops_punct, 9);
    reveal_with_fuel(in_list, 5);
    assert(gs[6].1.len() == 1);
    assert(trimmable_rule(gs[6].0, gs[6].1[0]));
}

/// The productions of `Return` are ones that trimming handles.
proof fn lemma_return_rules_trimmable()
    ensures
        forall|r: int| 0 <= r < language_groups()[7].1.len() ==> #[trigger] trimmable_rule(language_groups()[7].0, language_groups()[7].1[r]),
{
    let gs = language_groups();
    reveal_with_fuel(kept_syms, 9);
    reveal_with_fuel(drops_punct, 9);
    reveal_with_fuel(in_list, 5);
    assert(gs[7].1.len() == 1);
    assert(trimmable_rule(gs[7].0, gs[7].1[0]));
}

/// The productions of `Invoke` are ones that trimming handles.
proof fn lemma_invoke_rules_trimmable()
    ensures
        forall|r: int| 0 <= r < language_groups()[8].1.len() ==> #[trigger] trimmable_rule(language_groups()[8].0, language_groups()[8].1[r]),
{
    let gs = language_groups();
    reveal_with_fuel(kept_syms, 9);
    reveal_with_fuel(drops_punct, 9);
    reveal_with_fuel(in_list, 5);
    assert(gs[8].1.len() == 2);
    assert(trimmable_rule(gs[8].0, gs[8].1[0]));
    assert(trimmable_rule(gs[8].0, gs[8].1[1]));
}

/// The productions of `Args` are ones that trimming handles.
proof fn lemma_args_rules_trimmable()
    ensures
        forall|r: int| 0 <= r < language_groups()[9].1.len() ==> #[trigger] trimmable_rule(language_groups()[9].0, language_groups()[9].1[r]),
{
    let gs = language_groups();
    reveal_with_fuel(kept_syms, 9);
    reveal_with_fuel(drops_punct, 9);
    reveal_with_fuel(in_list, 5);
    assert(gs[9].1.len() == 2);
    assert(trimmable_rule(gs[9].0, gs[9].1[0]));
    assert(trimmable_rule(gs[9].0, gs[9].1[1]));
}

/// The productions of `Expr` are ones that trimming handles.
proof fn lemma_expr_rules_trimmable()
    ensures
        forall|r: int| 0 <= r < language_groups()[10].1.len() ==> #[trigger] trimmable_rule(language_groups()[10].0, language_groups()[10].1[r]),
{
    let gs = language_groups();
    reveal_with_fuel(kept_syms, 9);
    reveal_with_fuel(drops_punct, 9);
    reveal_with_fuel(in_list, 5);
    assert(gs[10].1.len() == 2);
    assert(trimmable_rule(gs[10].0, gs[10].1[0]));
    assert(trimmable_rule(gs[10].0, gs[10].1[1]));
}

/// The productions of `T1` are ones that trimming handles.
proof fn lemma_t1_rules_trimmable()
    ensures
        forall|r: int| 0 <= r < language_groups()[11].1.len() ==> #[trigger] trimmable_rule(language_groups()[11].0, language_groups()[11].1[r]),
{
    let gs = language_groups();
    reveal_with_fuel(kept_syms, 9);
    reveal_with_fuel(drops_punct, 9);
    reveal_with_fuel(in_list, 5);
    assert(gs[11].1.len() == 2);
    assert(trimmable_rule(gs[11].0, gs[11].1[0]));
    assert(trimmable_rule(gs[11].0, gs[11].1[1]));
}

/// The productions of `T2` are ones that trimming handles.
proof fn lemma_t2_rules_trimmable()
    ensures
        forall|r: int| 0 <= r < language_groups()[12].1.len() ==> #[trigger] trimmable_rule(language_groups()[12].0, language_groups()[12].1[r]),
{
    let gs = language_groups();
    reveal_with_fuel(kept_syms, 9);
    reveal_with_fuel(drops_punct, 9);
    reveal_with_fuel(in_list, 5);
    assert(gs[12].1.len() == 2);
    assert(trimmable_rule(gs[12].0, gs[12].1[0]));
    assert(trimmable_rule(gs[12].0, gs[12].1[1]));
}

/// The productions of `T3` are ones that trimming handles.
proof fn lemma_t3_rules_trimmable()
    ensures
        forall|r: int| 0 <= r < language_groups()[13].1.len() ==> #[trigger] trimmable_rule(language_groups()[13].0, language_groups()[13].1[r]),
{
    let gs = language_groups();
    reveal_with_fuel(kept_syms, 9);
    reveal_with_fuel(drops_punct, 9);
    reveal_with_fuel(in_list, 5);
    assert(gs[13].1.len() == 2);
    assert(trimmable_rule(gs[13].0, gs[13].1[0]));
    assert(trimmable_rule(gs[13].0, gs[13].1[1]));
}

/// The productions of `TBase` are ones that trimming handles.
proof fn lemma_t_base_rules_trimmable()
    ensures
        forall|r: int| 0 <= r < language_groups()[14].1.len() ==> #[trigger] trimmable_rule(language_groups()[14].0, language_groups()[14].1[r]),
{
    let gs = language_groups();
    reveal_with_fuel(kept_syms, 9);
    reveal_with_fuel(drops_punct, 9);
    reveal_with_fuel(in_list, 5);
    assert(gs[14].1.len() == 7);
    assert(trimmable_rule(gs[14].0, gs[14].1[0]));
    assert(trimmable_rule(gs[14].0, gs[14].1[1]));
    assert(trimmable_rule(gs[14].0, gs[14].1[2]));
    assert(trimmable_rule(gs[14].0, gs[14].1[3]));
    assert(trimmable_rule(gs[14].0, gs[14].1[4]));
    assert(trimmable_rule(gs[14].0, gs[14].1[5]));
    assert(trimmable_rule(gs[14].0, gs[14].1[6]));
}

/// Every production of the language is one that trimming handles.
proof fn lemma_language_trimmable()
    ensures
        forall|i: int| 0 <= i < flatten_groups(language_groups()).len() ==> #[trigger] trimmable_rule(flatten_groups(language_groups())[i].0, flatten_groups(language_groups())[i].1),
{
    let gs = language_groups();
    assert forall|g: int, r: int| 0 <= g < gs.len() && 0 <= r < gs[g].1.len() implies #[trigger] trimmable_rule(gs[g].0, gs[g].1[r]) by {
        assert(gs.len() == 15);
        if g == 0 {
            lemma_block_rules_trimmable();
        }
        if g == 1 {
            lemma_list_rules_trimmable();
        }
        if g == 2 {
            lemma_params_rules_trimmable();
        }
        if g == 3 {
            lemma_function_rules_trimmable();
        }
        if g == 4 {
            lemma_statement_rules_trimmable();
        }
        if g == 5 {
            lemma_declaration_rules_trimmable();
        }
        if g == 6 {
            lemma_if_rules_trimmable();
        }
        if g == 7 {
            lemma_return_rules_trimmable();
        }
        if g == 8 {
            lemma_invoke_rules_trimmable();
        }
        if g == 9 {
            lemma_args_rules_trimmable();
        }
        if g == 10 {
            lemma_expr_rules_trimmable();
        }
        if g == 11 {
            lemma_t1_rules_trimmable();
        }
        if g == 12 {
            lemma_t2_rules_trimmable();
        }
        if g == 13 {
            lemma_t3_rules_trimmable();
        }
        if g == 14 {
            lemma_t_base_rules_trimmable();
        }
    }
    lemma_flatten_trimmable(gs);
}

/// The symbols of children, in order.
pub open spec fn kid_syms(c: Seq<ElemV>) -> Seq<ElemT> {
    c.map_values(|e: ElemV| elem_t(e))
}

/// `n` is built by the language's productions: each of its nodes has a production of the
/// language whose right-hand side lists the symbols of its children, in order.
pub open spec fn language_tree(n: NodeV) -> bool
    decreases n,
{
    flatten_groups(language_groups()).contains((n.t, kid_syms(n.children))) && language_kids(n.children)
}

/// Every node among the children `c` is built by the language's productions.
pub open spec fn language_kids(c: Seq<ElemV>) -> bool
    decreases c,
{
    c.len() == 0 || (language_kids(c.drop_last()) && match c.last() {
        ElemV::Node(m) => language_tree(m),
        ElemV::Token(_) => true,
    })
}

/// The tokens of `ts` that are not punctuation, in order.
pub open spec fn kept_tokens(ts: Seq<TokenV>) -> Seq<TokenV>
    decreases ts.len(),
{
    if ts.len() == 0 {
        seq![]
    } else {
        kept_tokens(ts.drop_last()) + if is_punct(kind_of(ts.last().data)) { seq![] } else { seq![ts.last()] }
    }
}

/// A trimmed child `e` for the kept symbol `s`: a list or an argument list stays a node of its kind.
pub open spec fn kind_kept(s: ElemT, e: ElemV) -> bool {
    match s {
        ElemT::Node(k) => {
            &&& (k == NodeT::Args || k == NodeT::List || k == NodeT::Params) ==> (e matches ElemV::Node(m) && m.t == k)
            &&& k == NodeT::Params ==> flat_node(e)
        },
        ElemT::Token(_) => e is Token,
    }
}

/// A node whose children are all tokens.
pub open spec fn flat_node(e: ElemV) -> bool {
    e matches ElemV::Node(m) && forall|j: int| 0 <= j < m.children.len() ==> #[trigger] m.children[j] is Token
}

/// `all_tokens` holds of each symbol.
proof fn lemma_all_tokens(ks: Seq<ElemT>)
    requires
        all_tokens(ks),
    ensures
        forall|j: int| 0 <= j < ks.len() ==> #[trigger] ks[j] is Token,
    decreases ks.len(),
{
    if ks.len() > 0 {
        lemma_all_tokens(ks.drop_last());
        assert forall|j: int| 0 <= j < ks.len() implies #[trigger] ks[j] is Token by {
            if j < ks.len() - 1 {
                assert(ks.drop_last()[j] == ks[j]);
            }
        }
    }
}

/// `in_list` is `contains`.
proof fn lemma_in_list(s: Seq<TokenT>, k: TokenT)
    ensures
        in_list(s, k) == s.contains(k),
    decreases s.len(),
{
    if s.len() > 0 {
        lemma_in_list(s.drop_last(), k);
        if s.drop_last().contains(k) {
            let i = choose|i: int| 0 <= i < s.drop_last().len() && s.drop_last()[i] == k;
            assert(s[i] == k);
        }
        if s.contains(k) && s.last() != k {
            let i = choose|i: int| 0 <= i < s.len() && s[i] == k;
            assert(s.drop_last()[i] == k);
        }
    }
}

/// Keeping the non-punctuation tokens of two sequences put together.
proof fn lemma_kept_tokens_add(a: Seq<TokenV>, b: Seq<TokenV>)
    ensures
        kept_tokens(a + b) == kept_tokens(a) + kept_tokens(b),
    decreases b.len(),
{
    if b.len() == 0 {
        assert(a + b =~= a);
    } else {
        lemma_kept_tokens_add(a, b.drop_last());
        assert((a + b).drop_last() =~= a + b.drop_last());
        assert(kept_tokens(a + b) =~= kept_tokens(a) + kept_tokens(b));
    }
}

/// Trimming the children of a node of kind `t` of the language keeps exactly their
/// non-punctuation leaves, one trimmed child for each kept symbol.
proof fn lemma_trim_kids_leaves(t: NodeT, c: Seq<ElemV>)
    requires
        language_kids(c),
        drops_punct(t, kid_syms(c)),
    ensures
        trim_kids(c, dropped(t)) is Some,
        leaves_of(trim_kids(c, dropped(t))->Some_0) == kept_tokens(leaves_of(c)),
        trim_kids(c, dropped(t))->Some_0.len() == kept_syms(t, kid_syms(c)).len(),
        forall|j: int| 0 <= j < kept_syms(t, kid_syms(c)).len() ==> #[trigger] kind_kept(kept_syms(t, kid_syms(c))[j], trim_kids(c, dropped(t))->Some_0[j]),
    decreases c,
{
    if c.len() == 0 {
        assert(kid_syms(c) =~= Seq::<ElemT>::empty());
    } else {
        let c0 = c.drop_last();
        let x = c.last();
        let ks = dropped(t);
        assert(kid_syms(c).drop_last() =~= kid_syms(c0));
        assert(kid_syms(c).last() == elem_t(x));
        lemma_trim_kids_leaves(t, c0);
        let r0 = trim_kids(c0, ks)->Some_0;
        let k0 = kept_syms(t, kid_syms(c0));
        assert(leaves_of(c) == leaves_of(c0) + elem_leaves(x));
        lemma_kept_tokens_add(leaves_of(c0), elem_leaves(x));
        match x {
            ElemV::Token(tk) => {
                let k = kind_of(tk.data);
                lemma_in_list(ks, k);
                let one = seq![tk];
                assert(one.drop_last() =~= Seq::<TokenV>::empty());
                assert(one.last() == tk);
                assert(kept_tokens(one.drop_last()) =~= Seq::<TokenV>::empty());
                assert(kept_tokens(one) =~= if is_punct(k) { Seq::<TokenV>::empty() } else { one });
                if ks.contains(k) {
                    assert(trim_kids(c, ks) == Some(r0));
                    assert(kept_syms(t, kid_syms(c)) =~= k0);
                } else {
                    let r = r0.push(x);
                    assert(trim_kids(c, ks) == Some(r));
                    assert(r.drop_last() =~= r0);
                    assert(leaves_of(r) == leaves_of(r0) + elem_leaves(x));
                    assert(kept_syms(t, kid_syms(c)) =~= k0.push(ElemT::Token(k)));
                    assert forall|j: int| 0 <= j < kept_syms(t, kid_syms(c)).len() implies #[trigger] kind_kept(kept_syms(t, kid_syms(c))[j], r[j]) by {
                        if j < k0.len() {
                            assert(kind_kept(k0[j], r0[j]));
                        }
                    }
                }
            },
            ElemV::Node(m) => {
                language_trim_leaves(m);
                let e = trim_v(m)->Some_0;
                let r = r0.push(e);
                assert(trim_kids(c, ks) == Some(r));
                assert(r.drop_last() =~= r0);
                assert(leaves_of(r) == leaves_of(r0) + elem_leaves(e));
                assert(kept_syms(t, kid_syms(c)) =~= k0.push(ElemT::Node(m.t)));
                assert forall|j: int| 0 <= j < kept_syms(t, kid_syms(c)).len() implies #[trigger] kind_kept(kept_syms(t, kid_syms(c))[j], r[j]) by {
                    if j < k0.len() {
                        assert(kind_kept(k0[j], r0[j]));
                    }
                }
            },
        }
    }
}

/// Trimming a tree of the language leaves out exactly its punctuation: the leaves of the
/// trimmed tree are the leaves of the tree without the tokens of kinds `K_LET`, `EQ_1`, `K_IF`,
/// `K_RETURN`, `K_FUNC`, `PAREN_L`, `PAREN_R`, `ARROW`, `CURLY_L`, `CURLY_R`, `COMMA` and
/// `COLON`, in order; and trimming does not fail on such a tree.
pub proof fn language_trim_leaves(n: NodeV)
    requires
        language_tree(n),
    ensures
        trim_v(n) is Some,
        elem_leaves(trim_v(n)->Some_0) == kept_tokens(leaves(n)),
        (n.t == NodeT::Args || n.t == NodeT::List || n.t == NodeT::Params) ==> (trim_v(n)->Some_0 matches ElemV::Node(m) && m.t == n.t),
        n.t == NodeT::Params ==> flat_node(trim_v(n)->Some_0),
    decreases n,
{
    let rules = flatten_groups(language_groups());
    let syms = kid_syms(n.children);
    let i = choose|i: int| 0 <= i < rules.len() && rules[i] == (n.t, syms);
    lemma_language_trimmable();
    assert(trimmable_rule(rules[i].0, rules[i].1));
    let ks = dropped(n.t);
    lemma_trim_kids_leaves(n.t, n.children);
    let c = trim_kids(n.children, ks)->Some_0;
    let kept = kept_syms(n.t, syms);
    assert(leaves(n) == leaves_of(n.children));
    if c.len() == 1 {
        lemma_leaves_of_one(c[0]);
        assert(seq![c[0]] =~= c);
    }
    match n.t {
        NodeT::Args | NodeT::List => {
            lemma_into_list_leaves(n.t, c);
        },
        NodeT::Params => {
            lemma_into_list_leaves(n.t, c);
            lemma_all_tokens(kept.drop_first());
            assert forall|j: int| 1 <= j < c.len() implies #[trigger] c[j] is Token by {
                assert(kept.drop_first()[j - 1] == kept[j]);
                assert(kind_kept(kept[j], c[j]));
            }
            assert(kind_kept(kept[0], c[0]));
            let l = into_list(n.t, c);
            assert forall|j: int| 0 <= j < l.len() implies #[trigger] l[j] is Token by {
                if c[0] matches ElemV::Node(m) && m.t == n.t {
                    let m = c[0]->Node_0;
                    if j < m.children.len() {
                        assert(l[j] == m.children[j]);
                    } else {
                        assert(l[j] == c[j - m.children.len() + 1]);
                    }
                }
            }
        },
        NodeT::Invoke => {
            if c.len() > 1 {
                assert(kind_kept(kept[c.len() - 1], c[c.len() - 1]));
                assert(kept.last() == ElemT::Node(NodeT::Args));
                let a = c.last()->Node_0;
                lemma_leaves_of_add(c.drop_last(), seq![c.last()]);
                lemma_leaves_of_one(c.last());
                assert(c.drop_last() + seq![c.last()] =~= c);
                lemma_leaves_of_add(c.drop_last(), a.children);
            }
        },
        NodeT::Block => {
            if c.len() > 0 {
                assert(kept == seq![ElemT::Node(NodeT::List)]);
                assert(kind_kept(kept[0], c[0]));
            }
        },
        _ => {},
    }
}

} // verus!
