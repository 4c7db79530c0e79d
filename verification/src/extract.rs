use vstd::prelude::*;
use crate::grammar::{NodeT, TokenT, elem_evaluable};
use crate::token::{Type, Token, TokenData, TokenDataV, TokenV};
use crate::tree::{Node, Elem, NodeV, ElemV, node_v, elem_v, elems_v, lemma_elems_v, lemma_elems_v_sub, elem_t};
use crate::ast::{NodeData, NodeDataV, LNode, LElem, LToken, LNodeV, LElemV, LTokenV, lnode_v, lelem_v, lelems_v, ltoken_v, params_v, data_v, lemma_lelems_v, lemma_lelems_v_push};

verus! {

/// A token as a leaf of the abstract syntax tree, not typed yet (`Void`).
pub open spec fn ltok_of(t: TokenV) -> LTokenV {
    LTokenV { start: t.start, end: t.end, data: t.data, t: Type::Void }
}

/// A node kind that evaluates to a value.
pub open spec fn evaluable_kind(t: NodeT) -> bool {
    t == NodeT::Expr || t == NodeT::UExpr || t == NodeT::Invoke
}

/// A child as an abstract-syntax-tree child: a token becomes a leaf, a node is extracted; when
/// `eval` is set, a node must be of a kind that evaluates to a value.
pub open spec fn lchild(e: ElemV, eval: bool) -> Option<LElemV>
    decreases e, 0int,
{
    match e {
        ElemV::Node(m) => if eval && !evaluable_kind(m.t) {
            None
        } else {
            match extract_v(m) {
                Some(x) => Some(LElemV::Node(x)),
                None => None,
            }
        },
        ElemV::Token(t) => Some(LElemV::Token(ltok_of(t))),
    }
}

/// The children `c` extracted in turn: as arguments (`stmts` unset: nodes must evaluate to a
/// value) or as statements (`stmts` set: no tokens allowed).
pub open spec fn extract_list(c: Seq<ElemV>, stmts: bool) -> Option<Seq<LElemV>>
    decreases c, 0int,
{
    if c.len() == 0 {
        Some(seq![])
    } else {
        match extract_list(c.drop_last(), stmts) {
            None => None,
            Some(r) => {
                if stmts && c.last() is Token {
                    None
                } else {
                    match lchild(c.last(), !stmts) {
                        None => None,
                        Some(x) => Some(r.push(x)),
                    }
                }
            },
        }
    }
}

/// The identifier of an identifier token.
pub open spec fn ident_tok(e: ElemV) -> Option<Seq<char>> {
    match e {
        ElemV::Token(t) => match t.data {
            TokenDataV::IDENT(s) => Some(s),
            _ => None,
        },
        ElemV::Node(_) => None,
    }
}

/// The type of a type token.
pub open spec fn type_tok(e: ElemV) -> Option<Type> {
    match e {
        ElemV::Token(t) => match t.data {
            TokenDataV::TYPE(ty) => Some(ty),
            _ => None,
        },
        ElemV::Node(_) => None,
    }
}

/// The operator of an operator token.
pub open spec fn op_tok(e: ElemV) -> Option<Seq<char>> {
    match e {
        ElemV::Token(t) => match t.data {
            TokenDataV::OP1_b(s) => Some(s),
            TokenDataV::OP2_b(s) => Some(s),
            TokenDataV::OP3_n(s) => Some(s),
            TokenDataV::OP4_n(s) => Some(s),
            TokenDataV::OP_UNARY(s) => Some(s),
            _ => None,
        },
        ElemV::Node(_) => None,
    }
}

/// The operator of a unary operator token.
pub open spec fn unary_tok(e: ElemV) -> Option<Seq<char>> {
    match e {
        ElemV::Token(t) => match t.data {
            TokenDataV::OP_UNARY(s) => Some(s),
            _ => None,
        },
        ElemV::Node(_) => None,
    }
}

/// The first `k` parameters of a parameter list: pairs of an identifier and a type token.
pub open spec fn params_upto(c: Seq<ElemV>, k: int) -> Option<Seq<(Seq<char>, Type)>>
    decreases k,
{
    if k <= 0 {
        Some(seq![])
    } else {
        match params_upto(c, k - 1) {
            None => None,
            Some(r) => match (ident_tok(c[2 * k - 2]), type_tok(c[2 * k - 1])) {
                (Some(id), Some(ty)) => Some(r.push((id, ty))),
                _ => None,
            },
        }
    }
}

/// The node of the abstract syntax tree for a trimmed node, untyped (`Void`): the values its
/// children hold become fields, the children that stay are extracted too. A declaration holds
/// its identifier and expression, a return and an `if` their expression (and block), an
/// invocation its name and arguments, a parameter list its pairs, an expression its two terms
/// and operator, a unary expression its operator and term, a function its name, parameters,
/// return type and block, a block its statements. `None` where the node does not have that
/// shape or its kind has no such node.
pub open spec fn extract_v(n: NodeV) -> Option<LNodeV>
    decreases n, 0int,
{
    match extract_data(n.t, n.children) {
        Some(d) => Some(LNodeV { start: n.start, end: n.end, data: d, t: Type::Void }),
        None => None,
    }
}

/// The payload that `extract_v` makes of a node of kind `t` with children `c`.
pub open spec fn extract_data(t: NodeT, c: Seq<ElemV>) -> Option<NodeDataV>
    decreases c, 1int,
{
    let len = c.len() as int;
    match t {
        NodeT::Declaration => if len >= 2 && ident_tok(c[0]) is Some {
            match lchild(c[1], true) {
                Some(x) => Some(NodeDataV::Declaration { ident: ident_tok(c[0])->Some_0, expr: Box::new(x) }),
                None => None,
            }
        } else {
            None
        },
        NodeT::Return => if len >= 1 && elem_evaluable(elem_t(c[len - 1])) {
            match lchild(c[len - 1], false) {
                Some(x) => Some(NodeDataV::Return { expr: Box::new(x) }),
                None => None,
            }
        } else {
            None
        },
        NodeT::If => if len >= 2 && (c[len - 1] matches ElemV::Node(b) && b.t == NodeT::Block)
            && elem_evaluable(elem_t(c[len - 2])) {
            match (lchild(c[len - 1], false), lchild(c[len - 2], false)) {
                (Some(b), Some(x)) => Some(NodeDataV::If { expr: Box::new(x), block: Box::new(b) }),
                _ => None,
            }
        } else {
            None
        },
        NodeT::Invoke => if len >= 1 && ident_tok(c[0]) is Some {
            match extract_list(c.subrange(1, len), false) {
                Some(args) => Some(NodeDataV::Invoke { ident: ident_tok(c[0])->Some_0, args }),
                None => None,
            }
        } else {
            None
        },
        NodeT::Params => match params_upto(c, len / 2) {
            Some(v) => Some(NodeDataV::Params { v }),
            None => None,
        },
        NodeT::Expr => if len >= 3 && op_tok(c[len - 2]) is Some {
            match (lchild(c[len - 3], true), lchild(c[len - 1], true)) {
                (Some(t1), Some(t2)) => Some(NodeDataV::Expr { t1: Box::new(t1), t2: Box::new(t2), op: op_tok(c[len - 2])->Some_0 }),
                _ => None,
            }
        } else {
            None
        },
        NodeT::UExpr => if len >= 2 && unary_tok(c[len - 2]) is Some {
            match lchild(c[len - 1], true) {
                Some(t) => Some(NodeDataV::UExpr { op: unary_tok(c[len - 2])->Some_0, t: Box::new(t) }),
                None => None,
            }
        } else {
            None
        },
        NodeT::Function => {
            let hp = len >= 2 && (c[1] matches ElemV::Node(p) && p.t == NodeT::Params);
            let i = if hp { 2int } else { 1int };
            if len >= i + 2 && ident_tok(c[0]) is Some && type_tok(c[i]) is Some
                && (c[i + 1] matches ElemV::Node(b) && b.t == NodeT::Block) {
                match (lchild(c[i + 1], false), if hp { match lchild(c[1], false) { Some(p) => Some(Some(p)), None => None } } else { Some(None) }) {
                    (Some(b), Some(p)) => Some(NodeDataV::Function {
                        ident: ident_tok(c[0])->Some_0,
                        params: match p { Some(q) => Some(Box::new(q)), None => None },
                        r_type: type_tok(c[i])->Some_0,
                        block: Box::new(b),
                    }),
                    _ => None,
                }
            } else {
                None
            }
        },
        NodeT::Block => match extract_list(c, true) {
            Some(v) => Some(NodeDataV::Block { v }),
            None => None,
        },
        _ => None,
    }
}


/// Once extracting a prefix of a list fails, extracting all of it fails.
proof fn lemma_extract_list_none(c: Seq<ElemV>, stmts: bool, j: int)
    requires
        0 <= j <= c.len(),
        extract_list(c.subrange(0, j), stmts) is None,
    ensures
        extract_list(c, stmts) is None,
    decreases c.len() - j,
{
    if j < c.len() {
        assert(c.subrange(0, j + 1).drop_last() =~= c.subrange(0, j));
        lemma_extract_list_none(c, stmts, j + 1);
    } else {
        assert(c.subrange(0, j) =~= c);
    }
}

/// The identifier of an identifier token.
fn ident_exec(e: &Elem) -> (r: Option<String>)
    ensures
        match (ident_tok(elem_v(*e)), r) {
            (None, None) => true,
            (Some(v), Some(x)) => x@ == v,
            _ => false,
        },
{
    match e {
        Elem::Token(t) => match &t.data {
            TokenData::IDENT(s) => Some(s.clone()),
            _ => None,
        },
        Elem::Node(_) => None,
    }
}

/// The type of a type token.
fn type_exec(e: &Elem) -> (r: Option<Type>)
    ensures
        r == type_tok(elem_v(*e)),
{
    match e {
        Elem::Token(t) => match &t.data {
            TokenData::TYPE(ty) => Some(*ty),
            _ => None,
        },
        Elem::Node(_) => None,
    }
}

/// The operator of an operator token.
fn op_exec(e: &Elem) -> (r: Option<String>)
    ensures
        match (op_tok(elem_v(*e)), r) {
            (None, None) => true,
            (Some(v), Some(x)) => x@ == v,
            _ => false,
        },
{
    match e {
        Elem::Token(t) => match &t.data {
            TokenData::OP1_b(s) => Some(s.clone()),
            TokenData::OP2_b(s) => Some(s.clone()),
            TokenData::OP3_n(s) => Some(s.clone()),
            TokenData::OP4_n(s) => Some(s.clone()),
            TokenData::OP_UNARY(s) => Some(s.clone()),
            _ => None,
        },
        Elem::Node(_) => None,
    }
}

/// The operator of a unary operator token.
fn unary_exec(e: &Elem) -> (r: Option<String>)
    ensures
        match (unary_tok(elem_v(*e)), r) {
            (None, None) => true,
            (Some(v), Some(x)) => x@ == v,
            _ => false,
        },
{
    match e {
        Elem::Token(t) => match &t.data {
            TokenData::OP_UNARY(s) => Some(s.clone()),
            _ => None,
        },
        Elem::Node(_) => None,
    }
}

/// The parameters of a parameter list, as `params_upto` says.
fn params_exec(c: &Vec<Elem>) -> (r: Option<Vec<(String, Type)>>)
    ensures
        match (params_upto(elems_v(c@), c@.len() as int / 2), r) {
            (None, None) => true,
            (Some(v), Some(x)) => params_v(x@) == v,
            _ => false,
        },
{
    let ghost cv = elems_v(c@);
    proof {
        lemma_elems_v(c@);
    }
    let half = c.len() / 2;
    let mut v: Vec<(String, Type)> = Vec::new();
    let mut k: usize = 0;
    while k < half
        invariant
            k <= half,
            half == c@.len() / 2,
            2 * half <= c@.len(),
            c@.len() == c.len(),
            cv == elems_v(c@),
            cv.len() == c@.len(),
            forall|j: int| 0 <= j < c@.len() ==> #[trigger] cv[j] == elem_v(c@[j]),
            params_upto(cv, k as int) == Some(params_v(v@)),
        decreases half - k,
    {
        let id = ident_exec(&c[2 * k]);
        let ty = type_exec(&c[2 * k + 1]);
        match (id, ty) {
            (Some(id), Some(ty)) => {
                let ghost before = v@;
                v.push((id, ty));
                assert(params_v(v@) =~= params_v(before).push((id@, ty)));
            },
            _ => {
                proof {
                    lemma_params_none(cv, k as int + 1, half as int);
                }
                return None;
            },
        }
        k += 1;
    }
    Some(v)
}

/// Once the parameters up to `j` fail, those up to `k` fail.
proof fn lemma_params_none(c: Seq<ElemV>, j: int, k: int)
    requires
        0 <= j <= k,
        params_upto(c, j) is None,
    ensures
        params_upto(c, k) is None,
    decreases k - j,
{
    if j < k {
        lemma_params_none(c, j + 1, k);
    }
}

/// A child as an abstract-syntax-tree child, as `lchild` says.
fn lchild_exec(e: Elem, eval: bool) -> (r: Option<LElem>)
    ensures
        match (lchild(elem_v(e), eval), r) {
            (None, None) => true,
            (Some(v), Some(x)) => lelem_v(x) == v,
            _ => false,
        },
    decreases elem_v(e), 0int,
{
    let ghost ev = elem_v(e);
    match e {
        Elem::Node(m) => {
            if eval && !m.t.is_evaluable() {
                return None;
            }
            proof {
                assert(decreases_to!(ev => ev->Node_0));
            }
            match m.try_extract() {
                Some(x) => Some(LElem::Node(x)),
                None => None,
            }
        },
        Elem::Token(t) => Some(LElem::Token(LToken::from(t))),
    }
}

/// The children extracted in turn, as `extract_list` says.
#[verifier::loop_isolation(false)]
fn extract_list_exec(c: Vec<Elem>, stmts: bool) -> (r: Option<Vec<Box<LElem>>>)
    ensures
        match (extract_list(elems_v(c@), stmts), r) {
            (None, None) => true,
            (Some(v), Some(x)) => lelems_v(x@) == v,
            _ => false,
        },
    decreases elems_v(c@), 0int,
{
    let ghost c0 = c@;
    let ghost cv = elems_v(c0);
    proof {
        lemma_elems_v(c0);
        assert(cv.subrange(0, 0) =~= seq![]);
    }
    let mut c = c;
    let mut out: Vec<Box<LElem>> = Vec::new();
    let ghost mut k: int = 0;
    while c.len() > 0
        invariant
            0 <= k <= c0.len(),
            c@ == c0.subrange(k, c0.len() as int),
            cv == elems_v(c0),
            cv.len() == c0.len(),
            forall|j: int| 0 <= j < c0.len() ==> #[trigger] cv[j] == elem_v(c0[j]),
            extract_list(cv.subrange(0, k), stmts) == Some(lelems_v(out@)),
        decreases c@.len(),
    {
        let e = c.remove(0);
        proof {
            assert(e == c0[k]);
            assert(cv.subrange(0, k + 1).drop_last() =~= cv.subrange(0, k));
            assert(cv.subrange(0, k + 1).last() == elem_v(e));
        }
        let is_tok = match &e {
            Elem::Token(_) => true,
            Elem::Node(_) => false,
        };
        if stmts && is_tok {
            proof {
                lemma_extract_list_none(cv, stmts, k + 1);
            }
            return None;
        }
        proof {
            assert(decreases_to!(cv => cv[k]));
        }
        match lchild_exec(e, !stmts) {
            None => {
                proof {
                    lemma_extract_list_none(cv, stmts, k + 1);
                }
                return None;
            },
            Some(x) => {
                proof {
                    lemma_lelems_v_push(out@, Box::new(x));
                }
                out.push(Box::new(x));
            },
        }
        proof {
            k = k + 1;
        }
    }
    proof {
        assert(cv.subrange(0, k) =~= cv);
    }
    Some(out)
}

impl Node {
    /// The node of the abstract syntax tree for this trimmed node, as `extract_v` says; the
    /// node must be one that `extract_v` has a node for.
    pub fn extract(self) -> (r: LNode)
        requires
            extract_v(node_v(self)) is Some,
        ensures
            lnode_v(r) == extract_v(node_v(self))->Some_0,
    {
        self.try_extract().unwrap()
    }

    /// The node of the abstract syntax tree for this trimmed node, as `extract_v` says, or
    /// `None` where `extract_v` has none.
    pub fn try_extract(self) -> (r: Option<LNode>)
        ensures
            match (extract_v(node_v(self)), r) {
                (None, None) => true,
                (Some(v), Some(x)) => lnode_v(x) == v,
                _ => false,
            },
        decreases node_v(self), 0int,
    {
        let ghost nv = node_v(self);
        let Node { start, end, t, children } = self;
        proof {
            assert(decreases_to!(nv => nv.children));
        }
        match extract_data_exec(t, children) {
            Some(d) => Some(LNode { start, end, data: d, t: Type::Void }),
            None => None,
        }
    }
}

/// The payload for a node of kind `t` with children `c`, as `extract_data` says.
#[verifier::rlimit(80)]
fn extract_data_exec(t: NodeT, c: Vec<Elem>) -> (r: Option<NodeData>)
    ensures
        match (extract_data(t, elems_v(c@)), r) {
            (None, None) => true,
            (Some(v), Some(x)) => data_v(x) == v,
            _ => false,
        },
    decreases elems_v(c@), 1int,
{
    let ghost c0 = c@;
    let ghost cv = elems_v(c0);
    let len = c.len();
    proof {
        lemma_elems_v(c0);
    }
    let mut c = c;
    match t {
        NodeT::Declaration => {
            if len < 2 {
                return None;
            }
            let id = match ident_exec(&c[0]) {
                Some(s) => s,
                None => {
                    return None;
                },
            };
            let e = c.remove(1);
            proof {
                assert(decreases_to!(cv => cv[1]));
                assert(cv[1] == elem_v(e));
            }
            match lchild_exec(e, true) {
                Some(x) => Some(NodeData::Declaration { ident: id, expr: Box::new(x) }),
                None => None,
            }
        },
        NodeT::Return => {
            if len < 1 {
                return None;
            }
            let e = c.pop().unwrap();
            proof {
                assert(decreases_to!(cv => cv[len - 1]));
                assert(cv[len - 1] == elem_v(e));
            }
            if !e.t().is_evaluable() {
                return None;
            }
            match lchild_exec(e, false) {
                Some(x) => Some(NodeData::Return { expr: Box::new(x) }),
                None => None,
            }
        },
        NodeT::If => {
            if len < 2 {
                return None;
            }
            let b = c.pop().unwrap();
            let ok_b = match &b {
                Elem::Node(n) => n.t == NodeT::Block,
                Elem::Token(_) => false,
            };
            if !ok_b {
                return None;
            }
            let e = c.pop().unwrap();
            proof {
                assert(decreases_to!(cv => cv[len - 1]));
                assert(cv[len - 1] == elem_v(b));
                assert(decreases_to!(cv => cv[len - 2]));
                assert(cv[len - 2] == elem_v(e));
            }
            if !e.t().is_evaluable() {
                return None;
            }
            let bb = lchild_exec(b, false);
            let ee = lchild_exec(e, false);
            match (bb, ee) {
                (Some(b), Some(x)) => Some(NodeData::If { expr: Box::new(x), block: Box::new(b) }),
                _ => None,
            }
        },
        NodeT::Invoke => {
            if len < 1 {
                return None;
            }
            let id = match ident_exec(&c[0]) {
                Some(s) => s,
                None => {
                    return None;
                },
            };
            c.remove(0);
            proof {
                lemma_elems_v_sub(c0, 1, len as int);
                assert(c@ =~= c0.subrange(1, len as int));
                assert(decreases_to!(cv => cv.subrange(1, len as int)));
            }
            match extract_list_exec(c, false) {
                Some(args) => Some(NodeData::Invoke { ident: id, args }),
                None => None,
            }
        },
        NodeT::Params => match params_exec(&c) {
            Some(v) => Some(NodeData::Params { v }),
            None => None,
        },
        NodeT::Expr => {
            if len < 3 {
                return None;
            }
            let op = match op_exec(&c[len - 2]) {
                Some(s) => s,
                None => {
                    return None;
                },
            };
            let t2e = c.pop().unwrap();
            let _ = c.pop();
            let t1e = c.pop().unwrap();
            proof {
                assert(decreases_to!(cv => cv[len - 1]));
                assert(cv[len - 1] == elem_v(t2e));
                assert(decreases_to!(cv => cv[len - 3]));
                assert(cv[len - 3] == elem_v(t1e));
            }
            let a = lchild_exec(t1e, true);
            let b = lchild_exec(t2e, true);
            match (a, b) {
                (Some(t1), Some(t2)) => Some(NodeData::Expr { t1: Box::new(t1), t2: Box::new(t2), op }),
                _ => None,
            }
        },
        NodeT::UExpr => {
            if len < 2 {
                return None;
            }
            let op = match unary_exec(&c[len - 2]) {
                Some(s) => s,
                None => {
                    return None;
                },
            };
            let te = c.pop().unwrap();
            proof {
                assert(decreases_to!(cv => cv[len - 1]));
                assert(cv[len - 1] == elem_v(te));
            }
            match lchild_exec(te, true) {
                Some(x) => Some(NodeData::UExpr { op, t: Box::new(x) }),
                None => None,
            }
        },
        NodeT::Function => {
            let hp = len >= 2 && match &c[1] {
                Elem::Node(p) => p.t == NodeT::Params,
                Elem::Token(_) => false,
            };
            let i: usize = if hp {
                2
            } else {
                1
            };
            if len < i + 2 {
                return None;
            }
            let id = match ident_exec(&c[0]) {
                Some(s) => s,
                None => {
                    return None;
                },
            };
            let ty = match type_exec(&c[i]) {
                Some(ty) => ty,
                None => {
                    return None;
                },
            };
            let ok_b = match &c[i + 1] {
                Elem::Node(n) => n.t == NodeT::Block,
                Elem::Token(_) => false,
            };
            if !ok_b {
                return None;
            }
            let be = c.remove(i + 1);
            proof {
                assert(decreases_to!(cv => cv[i + 1]));
                assert(cv[i + 1] == elem_v(be));
            }
            let b = lchild_exec(be, false);
            let p: Option<Option<LElem>> = if hp {
                let pe = c.remove(1);
                proof {
                    assert(decreases_to!(cv => cv[1]));
                    assert(cv[1] == elem_v(pe));
                }
                match lchild_exec(pe, false) {
                    Some(x) => Some(Some(x)),
                    None => None,
                }
            } else {
                Some(None)
            };
            match (b, p) {
                (Some(b), Some(p)) => Some(NodeData::Function {
                    ident: id,
                    params: match p {
                        Some(q) => Some(Box::new(q)),
                        None => None,
                    },
                    r_type: ty,
                    block: Box::new(b),
                }),
                _ => None,
            }
        },
        NodeT::Block => match extract_list_exec(c, true) {
            Some(v) => Some(NodeData::Block { v }),
            None => None,
        },
        _ => None,
    }
}


/// A node keeps its span when it becomes a node of the abstract syntax tree, which starts out
/// untyped.
pub proof fn extract_keeps_span(n: NodeV)
    requires
        extract_v(n) is Some,
    ensures
        extract_v(n)->Some_0.start == n.start,
        extract_v(n)->Some_0.end == n.end,
        extract_v(n)->Some_0.t == Type::Void,
{
}

} // verus!
