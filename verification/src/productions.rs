use vstd::prelude::*;
use crate::bits::cell;
use crate::follows::{rules_wf, follows_table_ok, in_follows, make_follows, follow_is, follows_hold_next_begins, begins_hold_end, MAX_RHS, MAX_PRODS};
use crate::grammar::{Production, NodeT, TokenT, ElemT, node_idx, sym_idx, node_index, symbol_index, lemma_node_idx, lemma_sym_idx, NUM_SYMBOLS, NUM_NODES, NUM_TOKENS};

verus! {

/// A production as a pair of its node and its right-hand side.
pub open spec fn prod_view(p: Production) -> (NodeT, Seq<ElemT>) {
    (p.node, p.v@)
}

/// The productions of a grammar as pairs.
pub open spec fn rules_view(g: Seq<Production>) -> Seq<(NodeT, Seq<ElemT>)> {
    g.map_values(|p: Production| prod_view(p))
}

/// Grouped productions as given to `Productions::new`, viewed as sequences.
pub open spec fn groups_view(gs: Seq<(NodeT, Vec<Vec<ElemT>>)>) -> Seq<(NodeT, Seq<Seq<ElemT>>)> {
    gs.map_values(|e: (NodeT, Vec<Vec<ElemT>>)| (e.0, e.1@.map_values(|v: Vec<ElemT>| v@)))
}

/// Productions of one group, in order.
pub open spec fn group_rules(n: NodeT, rs: Seq<Seq<ElemT>>) -> Seq<(NodeT, Seq<ElemT>)> {
    rs.map_values(|r: Seq<ElemT>| (n, r))
}

/// Grouped productions flattened in order.
pub open spec fn flatten_groups(gs: Seq<(NodeT, Seq<Seq<ElemT>>)>) -> Seq<(NodeT, Seq<ElemT>)>
    decreases gs.len(),
{
    if gs.len() == 0 {
        seq![]
    } else {
        flatten_groups(gs.drop_last()) + group_rules(gs.last().0, gs.last().1)
    }
}

/// The production `ROOT -> r ROOT` for each root `r`, in order.
pub open spec fn root_rules(roots: Seq<NodeT>) -> Seq<(NodeT, Seq<ElemT>)> {
    roots.map_values(|r: NodeT| (NodeT::ROOT, seq![ElemT::Node(r), ElemT::Node(NodeT::ROOT)]))
}

/// The groups of productions of the language. Binary operators group to the left at each
/// level of precedence: `OP4_n` binds tightest, then `OP3_n`, `OP2_b` and `OP1_b`.
pub open spec fn language_groups() -> Seq<(NodeT, Seq<Seq<ElemT>>)> {
    seq![
        (NodeT::Block, seq![seq![ElemT::Token(TokenT::CURLY_L), ElemT::Node(NodeT::List), ElemT::Token(TokenT::CURLY_R)], seq![ElemT::Token(TokenT::CURLY_L), ElemT::Token(TokenT::CURLY_R)]]),
        (NodeT::List, seq![seq![ElemT::Node(NodeT::List), ElemT::Node(NodeT::Statement)], seq![ElemT::Node(NodeT::Statement)]]),
        (NodeT::Params, seq![seq![ElemT::Token(TokenT::IDENT), ElemT::Token(TokenT::COLON), ElemT::Token(TokenT::TYPE)], seq![ElemT::Node(NodeT::Params), ElemT::Token(TokenT::COMMA), ElemT::Token(TokenT::IDENT), ElemT::Token(TokenT::COLON), ElemT::Token(TokenT::TYPE)]]),
        (NodeT::Function, seq![seq![ElemT::Token(TokenT::K_FUNC), ElemT::Token(TokenT::IDENT), ElemT::Token(TokenT::PAREN_L), ElemT::Node(NodeT::Params), ElemT::Token(TokenT::PAREN_R), ElemT::Token(TokenT::ARROW), ElemT::Token(TokenT::TYPE), ElemT::Node(NodeT::Block)], seq![ElemT::Token(TokenT::K_FUNC), ElemT::Token(TokenT::IDENT), ElemT::Token(TokenT::PAREN_L), ElemT::Token(TokenT::PAREN_R), ElemT::Token(TokenT::ARROW), ElemT::Token(TokenT::TYPE), ElemT::Node(NodeT::Block)]]),
        (NodeT::Statement, seq![seq![ElemT::Node(NodeT::Declaration)], seq![ElemT::Node(NodeT::Block)], seq![ElemT::Node(NodeT::Invoke)], seq![ElemT::Node(NodeT::If)], seq![ElemT::Node(NodeT::Return)]]),
        (NodeT::Declaration, seq![seq![ElemT::Token(TokenT::K_LET), ElemT::Token(TokenT::IDENT), ElemT::Token(TokenT::EQ_1), ElemT::Node(NodeT::Expr)]]),
        (NodeT::If, seq![seq![ElemT::Token(TokenT::K_IF), ElemT::Node(NodeT::Expr), ElemT::Node(NodeT::Block)]]),
        (NodeT::Return, seq![seq![ElemT::Token(TokenT::K_RETURN), ElemT::Node(NodeT::Expr)]]),
        (NodeT::Invoke, seq![seq![ElemT::Token(TokenT::IDENT), ElemT::Token(TokenT::PAREN_L), ElemT::Node(NodeT::Args), ElemT::Token(TokenT::PAREN_R)], seq![ElemT::Token(TokenT::IDENT), ElemT::Token(TokenT::PAREN_L), ElemT::Token(TokenT::PAREN_R)]]),
        (NodeT::Args, seq![seq![ElemT::Node(NodeT::Args), ElemT::Token(TokenT::COMMA), ElemT::Node(NodeT::Expr)], seq![ElemT::Node(NodeT::Expr)]]),
        (NodeT::Expr, seq![seq![ElemT::Node(NodeT::Expr), ElemT::Token(TokenT::OP1_b), ElemT::Node(NodeT::T1)], seq![ElemT::Node(NodeT::T1)]]),
        (NodeT::T1, seq![seq![ElemT::Node(NodeT::T1), ElemT::Token(TokenT::OP2_b), ElemT::Node(NodeT::T2)], seq![ElemT::Node(NodeT::T2)]]),
        (NodeT::T2, seq![seq![ElemT::Node(NodeT::T2), ElemT::Token(TokenT::OP3_n), ElemT::Node(NodeT::T3)], seq![ElemT::Node(NodeT::T3)]]),
        (NodeT::T3, seq![seq![ElemT::Node(NodeT::T3), ElemT::Token(TokenT::OP4_n), ElemT::Node(NodeT::TBase)], seq![ElemT::Node(NodeT::TBase)]]),
        (NodeT::TBase, seq![seq![ElemT::Node(NodeT::Invoke)], seq![ElemT::Token(TokenT::INT)], seq![ElemT::Token(TokenT::BOOL)], seq![ElemT::Token(TokenT::IDENT)], seq![ElemT::Token(TokenT::STR_LIT)], seq![ElemT::Token(TokenT::OP_UNARY), ElemT::Node(NodeT::TBase)], seq![ElemT::Token(TokenT::PAREN_L), ElemT::Node(NodeT::Expr), ElemT::Token(TokenT::PAREN_R)]]),
    ]
}

/// The groups of productions of the small test grammar `S -> A A`, `A -> b | a A`.
pub open spec fn test_groups() -> Seq<(NodeT, Seq<Seq<ElemT>>)> {
    seq![
        (NodeT::S, seq![seq![ElemT::Node(NodeT::A), ElemT::Node(NodeT::A)]]),
        (NodeT::A, seq![seq![ElemT::Token(TokenT::b)], seq![ElemT::Token(TokenT::a), ElemT::Node(NodeT::A)]]),
    ]
}

/// A list of productions together with the FOLLOWS table and the root nodes. `table_rules`
/// holds the productions followed by `ROOT -> r ROOT` for each root `r`: the rules that FOLLOWS
/// and the parse table are built over, so that the table's first state starts from the roots
/// and the parser takes one root node after another.
pub struct Productions {
    pub v: Vec<Production>,
    pub follows: Vec<bool>,
    pub roots: Vec<NodeT>,
    pub table_rules: Vec<Production>,
}

impl Productions {
    /// The table's rules are the productions followed by the root rules, every one is well
    /// sized, and `follows` is their FOLLOWS table.
    pub open spec fn wf(&self) -> bool {
        &&& rules_view(self.table_rules@) == rules_view(self.v@) + root_rules(self.roots@)
        &&& rules_wf(self.table_rules@)
        &&& follows_table_ok(self.table_rules@, self.follows@)
    }

    /// Builds the productions from grouped right-hand sides, and, for the table, the same
    /// productions with `ROOT -> r ROOT` for each root `r` after them; FOLLOWS is computed over
    /// the latter.
    fn new(roots: Vec<NodeT>, productions: Vec<(NodeT, Vec<Vec<ElemT>>)>) -> (s: Self)
        requires
            flatten_groups(groups_view(productions@)).len() + roots@.len() <= MAX_PRODS,
            forall|i: int|
                0 <= i < flatten_groups(groups_view(productions@)).len() ==> 1 <= (
                #[trigger] flatten_groups(groups_view(productions@))[i]).1.len() <= MAX_RHS,
        ensures
            s.wf(),
            rules_view(s.v@) == flatten_groups(groups_view(productions@)),
            s.roots@ == roots@,
    {
        let ghost target = flatten_groups(groups_view(productions@));
        let mut v: Vec<Production> = Vec::new();
        let mut gi: usize = 0;
        while gi < productions.len()
            invariant
                gi <= productions@.len(),
                rules_view(v@) == flatten_groups(groups_view(productions@).subrange(0, gi as int)),
            decreases productions@.len() - gi,
        {
            let ghost before = v@;
            let node = productions[gi].0;
            let group = &productions[gi].1;
            let mut k: usize = 0;
            while k < group.len()
                invariant
                    k <= group@.len(),
                    gi < productions@.len(),
                    group == productions@[gi as int].1,
                    node == productions@[gi as int].0,
                    v@.len() == before.len() + k,
                    forall|j: int| 0 <= j < before.len() ==> v@[j] == before[j],
                    forall|j: int| 0 <= j < k ==> #[trigger] prod_view(v@[before.len() + j]) == (node, group@[j]@),
                decreases group@.len() - k,
            {
                let rhs = copy_elems(&group[k]);
                v.push(Production { node, v: rhs });
                k = k + 1;
            }
            proof {
                let gv = groups_view(productions@);
                assert(gv.subrange(0, gi + 1).drop_last() =~= gv.subrange(0, gi as int));
                assert(gv[gi as int] == (node, group@.map_values(|w: Vec<ElemT>| w@)));
                let gr = group_rules(node, group@.map_values(|w: Vec<ElemT>| w@));
                assert forall|j: int| 0 <= j < v@.len() implies #[trigger] rules_view(v@)[j] == (rules_view(before) + gr)[j] by {
                    if j >= before.len() {
                        assert(prod_view(v@[before.len() + (j - before.len())]) == (node, group@[j - before.len()]@));
                    }
                }
                assert(rules_view(v@) =~= rules_view(before) + gr);
            }
            gi = gi + 1;
        }
        proof {
            assert(groups_view(productions@).subrange(0, productions@.len() as int) =~= groups_view(productions@));
        }
        let grammar = copy_rules(&v);
        let ghost before = v@;
        let mut r: usize = 0;
        while r < roots.len()
            invariant
                r <= roots@.len(),
                v@.len() == before.len() + r,
                forall|j: int| 0 <= j < before.len() ==> v@[j] == before[j],
                forall|j: int| 0 <= j < r ==> #[trigger] prod_view(v@[before.len() + j]) == (NodeT::ROOT, seq![ElemT::Node(roots@[j]), ElemT::Node(NodeT::ROOT)]),
            decreases roots@.len() - r,
        {
            let rhs = vec![ElemT::Node(roots[r]), ElemT::Node(NodeT::ROOT)];
            v.push(Production { node: NodeT::ROOT, v: rhs });
            r = r + 1;
        }
        assert forall|j: int| 0 <= j < v@.len() implies #[trigger] rules_view(v@)[j] == (target + root_rules(roots@))[j] by {
            if j >= before.len() {
                assert(prod_view(v@[before.len() + (j - before.len())]) == (NodeT::ROOT, seq![ElemT::Node(roots@[j - before.len()]), ElemT::Node(NodeT::ROOT)]));
            } else {
                assert(rules_view(before)[j] == target[j]);
            }
        }
        assert(rules_view(v@) =~= target + root_rules(roots@));
        assert(rules_wf(v@)) by {
            assert forall|p: int| 0 <= p < v@.len() implies 1 <= #[trigger] v@[p].v@.len() <= MAX_RHS by {
                assert(rules_view(v@)[p] == prod_view(v@[p]));
                if p < target.len() {
                    assert(target[p] == (target + root_rules(roots@))[p]);
                }
            }
        }
        let follows = make_follows(&v);
        assert(rules_view(grammar@) == target);
        Productions { v: grammar, follows, roots, table_rules: v }
    }

    /// The productions of the language, with roots `Statement` and `Function`.
    pub fn make() -> (s: Self)
        ensures
            s.wf(),
            rules_view(s.v@) == flatten_groups(language_groups()),
            s.roots@ == seq![NodeT::Statement, NodeT::Function],
    {
        let roots = vec![NodeT::Statement, NodeT::Function];
        let v = vec![
        (NodeT::Block, vec![vec![ElemT::Token(TokenT::CURLY_L), ElemT::Node(NodeT::List), ElemT::Token(TokenT::CURLY_R)], vec![ElemT::Token(TokenT::CURLY_L), ElemT::Token(TokenT::CURLY_R)]]),
        (NodeT::List, vec![vec![ElemT::Node(NodeT::List), ElemT::Node(NodeT::Statement)], vec![ElemT::Node(NodeT::Statement)]]),
        (NodeT::Params, vec![vec![ElemT::Token(TokenT::IDENT), ElemT::Token(TokenT::COLON), ElemT::Token(TokenT::TYPE)], vec![ElemT::Node(NodeT::Params), ElemT::Token(TokenT::COMMA), ElemT::Token(TokenT::IDENT), ElemT::Token(TokenT::COLON), ElemT::Token(TokenT::TYPE)]]),
        (NodeT::Function, vec![vec![ElemT::Token(TokenT::K_FUNC), ElemT::Token(TokenT::IDENT), ElemT::Token(TokenT::PAREN_L), ElemT::Node(NodeT::Params), ElemT::Token(TokenT::PAREN_R), ElemT::Token(TokenT::ARROW), ElemT::Token(TokenT::TYPE), ElemT::Node(NodeT::Block)], vec![ElemT::Token(TokenT::K_FUNC), ElemT::Token(TokenT::IDENT), ElemT::Token(TokenT::PAREN_L), ElemT::Token(TokenT::PAREN_R), ElemT::Token(TokenT::ARROW), ElemT::Token(TokenT::TYPE), ElemT::Node(NodeT::Block)]]),
        (NodeT::Statement, vec![vec![ElemT::Node(NodeT::Declaration)], vec![ElemT::Node(NodeT::Block)], vec![ElemT::Node(NodeT::Invoke)], vec![ElemT::Node(NodeT::If)], vec![ElemT::Node(NodeT::Return)]]),
        (NodeT::Declaration, vec![vec![ElemT::Token(TokenT::K_LET), ElemT::Token(TokenT::IDENT), ElemT::Token(TokenT::EQ_1), ElemT::Node(NodeT::Expr)]]),
        (NodeT::If, vec![vec![ElemT::Token(TokenT::K_IF), ElemT::Node(NodeT::Expr), ElemT::Node(NodeT::Block)]]),
        (NodeT::Return, vec![vec![ElemT::Token(TokenT::K_RETURN), ElemT::Node(NodeT::Expr)]]),
        (NodeT::Invoke, vec![vec![ElemT::Token(TokenT::IDENT), ElemT::Token(TokenT::PAREN_L), ElemT::Node(NodeT::Args), ElemT::Token(TokenT::PAREN_R)], vec![ElemT::Token(TokenT::IDENT), ElemT::Token(TokenT::PAREN_L), ElemT::Token(TokenT::PAREN_R)]]),
        (NodeT::Args, vec![vec![ElemT::Node(NodeT::Args), ElemT::Token(TokenT::COMMA), ElemT::Node(NodeT::Expr)], vec![ElemT::Node(NodeT::Expr)]]),
        (NodeT::Expr, vec![vec![ElemT::Node(NodeT::Expr), ElemT::Token(TokenT::OP1_b), ElemT::Node(NodeT::T1)], vec![ElemT::Node(NodeT::T1)]]),
        (NodeT::T1, vec![vec![ElemT::Node(NodeT::T1), ElemT::Token(TokenT::OP2_b), ElemT::Node(NodeT::T2)], vec![ElemT::Node(NodeT::T2)]]),
        (NodeT::T2, vec![vec![ElemT::Node(NodeT::T2), ElemT::Token(TokenT::OP3_n), ElemT::Node(NodeT::T3)], vec![ElemT::Node(NodeT::T3)]]),
        (NodeT::T3, vec![vec![ElemT::Node(NodeT::T3), ElemT::Token(TokenT::OP4_n), ElemT::Node(NodeT::TBase)], vec![ElemT::Node(NodeT::TBase)]]),
        (NodeT::TBase, vec![vec![ElemT::Node(NodeT::Invoke)], vec![ElemT::Token(TokenT::INT)], vec![ElemT::Token(TokenT::BOOL)], vec![ElemT::Token(TokenT::IDENT)], vec![ElemT::Token(TokenT::STR_LIT)], vec![ElemT::Token(TokenT::OP_UNARY), ElemT::Node(NodeT::TBase)], vec![ElemT::Token(TokenT::PAREN_L), ElemT::Node(NodeT::Expr), ElemT::Token(TokenT::PAREN_R)]]),
    ];
        assert(groups_view(v@) =~~= language_groups());
        proof {
            reveal_with_fuel(flatten_groups, 16);
        }
        assert(roots@ =~= seq![NodeT::Statement, NodeT::Function]);
        Self::new(roots, v)
    }

    /// The test grammar `S -> A A`, `A -> b | a A`, with root `S`.
    pub fn make_test() -> (s: Self)
        ensures
            s.wf(),
            rules_view(s.v@) == flatten_groups(test_groups()),
            s.roots@ == seq![NodeT::S],
    {
        let roots = vec![NodeT::S];
        let v = vec![
        (NodeT::S, vec![vec![ElemT::Node(NodeT::A), ElemT::Node(NodeT::A)]]),
        (NodeT::A, vec![vec![ElemT::Token(TokenT::b)], vec![ElemT::Token(TokenT::a), ElemT::Node(NodeT::A)]]),
    ];
        assert(groups_view(v@) =~~= test_groups());
        proof {
            reveal_with_fuel(flatten_groups, 3);
        }
        assert(roots@ =~= seq![NodeT::S]);
        Self::new(roots, v)
    }
}

/// A copy of a list of productions.
fn copy_rules(v: &Vec<Production>) -> (r: Vec<Production>)
    ensures
        rules_view(r@) == rules_view(v@),
{
    let mut r: Vec<Production> = Vec::new();
    let mut i: usize = 0;
    while i < v.len()
        invariant
            i <= v@.len(),
            r@.len() == i,
            forall|j: int| 0 <= j < i ==> #[trigger] prod_view(r@[j]) == prod_view(v@[j]),
        decreases v@.len() - i,
    {
        let rhs = copy_elems(&v[i].v);
        r.push(Production { node: v[i].node, v: rhs });
        i = i + 1;
    }
    assert(rules_view(r@) =~= rules_view(v@)) by {
        assert forall|j: int| 0 <= j < r@.len() implies #[trigger] rules_view(r@)[j] == rules_view(v@)[j] by {
            assert(prod_view(r@[j]) == prod_view(v@[j]));
        }
    }
    r
}

/// A copy of a vector of symbols.
fn copy_elems(v: &Vec<ElemT>) -> (r: Vec<ElemT>)
    ensures
        r@ == v@,
{
    let mut r: Vec<ElemT> = Vec::new();
    let mut i: usize = 0;
    while i < v.len()
        invariant
            i <= v@.len(),
            r@ == v@.subrange(0, i as int),
        decreases v@.len() - i,
    {
        r.push(v[i]);
        i = i + 1;
    }
    assert(r@ =~= v@);
    r
}


/// Each root may be followed by the end of input: its FOLLOWS set holds `EOF`.
pub proof fn roots_followed_by_end(p: Productions, i: int)
    requires
        p.wf(),
        0 <= i < p.roots@.len(),
    ensures
        cell(p.follows@, NUM_SYMBOLS as int, node_idx(p.roots@[i]), 0),
{
    let g = p.table_rules@;
    let r = p.roots@[i];
    let q = p.v@.len() + i;
    assert(rules_view(g).len() == g.len());
    assert(rules_view(p.v@).len() == p.v@.len());
    assert((rules_view(p.v@) + root_rules(p.roots@))[q] == root_rules(p.roots@)[i]);
    assert(root_rules(p.roots@)[i] == (NodeT::ROOT, seq![ElemT::Node(r), ElemT::Node(NodeT::ROOT)]));
    assert(rules_view(g)[q] == prod_view(g[q]));
    assert(g[q].v@ == seq![ElemT::Node(r), ElemT::Node(NodeT::ROOT)]);
    lemma_node_idx(r);
    lemma_node_idx(NodeT::ROOT);
    assert(follow_is(g, q, 0, node_idx(r), NUM_TOKENS + node_idx(NodeT::ROOT)));
    begins_hold_end(g, node_idx(NodeT::ROOT));
    follows_hold_next_begins(g, node_idx(r), node_idx(NodeT::ROOT), 0);
    assert(in_follows(g, node_idx(r), 0));
}

} // verus!
