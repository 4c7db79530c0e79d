use vstd::prelude::*;
use crate::grammar::{Production, NodeT, ElemT};
use crate::productions::{flatten_groups, language_groups, group_rules, rules_view, prod_view, root_rules};
use crate::tree::{NodeV, ElemV, elem_t, elem_leaves, leaves_of, make_v};
use crate::grammar::{Action, sym_idx, lemma_sym_idx, NUM_SYMBOLS};
use crate::follows::rules_wf;
use crate::table::{State, table_ok, edges_done, edge_val_ok, state_items_ok, items_ok, kernel_part, has_item, is_goto, reducible, has_next, lemma_item_cells, ITEM_W};
use crate::parser::{step, top_state, firsts, all_leaves, input_leaves, lemma_step_keeps_leaves, lemma_input_leaves, run, accepting, input_of, step_bound, parse_spec, error_at, parse_fails_where};
use crate::token::TokenV;

verus! {

/// The unit rank of a node kind: a production of the language whose right-hand side is a
/// single node leads from a kind of higher rank to one of lower rank.
pub open spec fn unit_rank(n: NodeT) -> int {
    match n {
        NodeT::Args => 6,
        NodeT::Expr => 5,
        NodeT::T1 => 4,
        NodeT::T2 => 3,
        NodeT::T3 => 2,
        NodeT::TBase => 1,
        NodeT::List => 2,
        NodeT::Statement => 1,
        _ => 0,
    }
}

/// The rank of a tree: that of its kind, and the highest for a token.
pub open spec fn elem_rank(e: ElemV) -> int {
    match e {
        ElemV::Node(n) => unit_rank(n.t),
        ElemV::Token(_) => 6,
    }
}

/// A tree whose nodes all have children, and whose nodes with a single node as child rank
/// above that child.
pub open spec fn ranked(e: ElemV) -> bool
    decreases e,
{
    match e {
        ElemV::Token(_) => true,
        ElemV::Node(n) => {
            &&& n.children.len() >= 1
            &&& (n.children.len() == 1 && n.children[0] is Node ==> unit_rank(n.t) > unit_rank(n.children[0]->Node_0.t))
            &&& ranked_all(n.children)
        },
    }
}

/// Every tree among `c` is ranked.
pub open spec fn ranked_all(c: Seq<ElemV>) -> bool
    decreases c,
{
    c.len() == 0 || (ranked_all(c.drop_last()) && ranked(c.last()))
}

/// The number of nodes of a tree.
pub open spec fn node_count(e: ElemV) -> nat
    decreases e,
{
    match e {
        ElemV::Token(_) => 0,
        ElemV::Node(n) => 1 + nodes_all(n.children),
    }
}

/// The number of nodes of the trees `c`.
pub open spec fn nodes_all(c: Seq<ElemV>) -> nat
    decreases c,
{
    if c.len() == 0 {
        0
    } else {
        nodes_all(c.drop_last()) + node_count(c.last())
    }
}

/// `ranked_all` holds of each tree.
proof fn lemma_ranked_all(c: Seq<ElemV>)
    ensures
        ranked_all(c) <==> forall|i: int| 0 <= i < c.len() ==> #[trigger] ranked(c[i]),
    decreases c.len(),
{
    if c.len() > 0 {
        lemma_ranked_all(c.drop_last());
        if ranked_all(c) {
            assert forall|i: int| 0 <= i < c.len() implies #[trigger] ranked(c[i]) by {
                if i < c.len() - 1 {
                    assert(c.drop_last()[i] == c[i]);
                }
            }
        }
        if forall|i: int| 0 <= i < c.len() ==> #[trigger] ranked(c[i]) {
            assert forall|i: int| 0 <= i < c.drop_last().len() implies #[trigger] ranked(c.drop_last()[i]) by {
                assert(c.drop_last()[i] == c[i]);
            }
            assert(ranked(c[c.len() - 1]));
        }
    }
}

/// Node counts add up over trees put together.
proof fn lemma_nodes_all_add(a: Seq<ElemV>, b: Seq<ElemV>)
    ensures
        nodes_all(a + b) == nodes_all(a) + nodes_all(b),
    decreases b.len(),
{
    if b.len() == 0 {
        assert(a + b =~= a);
    } else {
        lemma_nodes_all_add(a, b.drop_last());
        assert((a + b).drop_last() =~= a + b.drop_last());
    }
}

/// A ranked tree has at most `7 (2 L - 1) - (6 - rank)` nodes, where `L` is its number of
/// leaves, which is at least one.
proof fn lemma_ranked_count(e: ElemV)
    requires
        ranked(e),
    ensures
        elem_leaves(e).len() >= 1,
        node_count(e) + 6 - elem_rank(e) <= 7 * (2 * elem_leaves(e).len() - 1),
    decreases e,
{
    match e {
        ElemV::Token(_) => {},
        ElemV::Node(n) => {
            let c = n.children;
            lemma_ranked_count_all(c);
            if c.len() == 1 {
                assert(c.drop_last() =~= Seq::<ElemV>::empty());
                assert(c.last() == c[0]);
                assert(nodes_all(c.drop_last()) == 0);
                assert(leaves_of(c.drop_last()).len() == 0);
                assert(nodes_all(c) == node_count(c[0]));
                assert(leaves_of(c) =~= elem_leaves(c[0]));
                lemma_ranked_all(c);
                lemma_ranked_count(c[0]);
            }
        },
    }
}

/// Ranked trees `c` have at most `7 (2 L - |c|)` nodes, where `L >= |c|` is their number of
/// leaves.
proof fn lemma_ranked_count_all(c: Seq<ElemV>)
    requires
        ranked_all(c),
    ensures
        leaves_of(c).len() >= c.len(),
        nodes_all(c) <= 7 * (2 * leaves_of(c).len() - c.len()),
    decreases c,
{
    if c.len() > 0 {
        lemma_ranked_count_all(c.drop_last());
        lemma_ranked_count(c.last());
        assert(leaves_of(c) == leaves_of(c.drop_last()) + elem_leaves(c.last()));
    }
}

/// A production `t -> ks` whose right-hand side is a single node leads to a node of lower rank.
pub open spec fn unit_ranked_rule(t: NodeT, ks: Seq<ElemT>) -> bool {
    ks.len() == 1 && ks[0] is Node ==> unit_rank(t) > unit_rank(ks[0]->Node_0)
}

/// Flattening keeps each production of the groups.
proof fn lemma_flatten_unit_ranked(gs: Seq<(NodeT, Seq<Seq<ElemT>>)>)
    requires
        forall|g: int, r: int| 0 <= g < gs.len() && 0 <= r < gs[g].1.len() ==> #[trigger] unit_ranked_rule(gs[g].0, gs[g].1[r]),
    ensures
        forall|i: int| 0 <= i < flatten_groups(gs).len() ==> #[trigger] unit_ranked_rule(flatten_groups(gs)[i].0, flatten_groups(gs)[i].1),
    decreases gs.len(),
{
    if gs.len() > 0 {
        let last = gs.last();
        assert forall|g: int, r: int| 0 <= g < gs.drop_last().len() && 0 <= r < gs.drop_last()[g].1.len() implies #[trigger] unit_ranked_rule(gs.drop_last()[g].0, gs.drop_last()[g].1[r]) by {
            assert(gs.drop_last()[g] == gs[g]);
        }
        lemma_flatten_unit_ranked(gs.drop_last());
        let f0 = flatten_groups(gs.drop_last());
        let gr = group_rules(last.0, last.1);
        assert forall|i: int| 0 <= i < flatten_groups(gs).len() implies #[trigger] unit_ranked_rule(flatten_groups(gs)[i].0, flatten_groups(gs)[i].1) by {
            if i < f0.len() {
                assert(flatten_groups(gs)[i] == f0[i]);
            } else {
                let r = i - f0.len();
                assert(flatten_groups(gs)[i] == gr[r]);
                assert(gr[r] == (last.0, last.1[r]));
                assert(unit_ranked_rule(gs[gs.len() - 1].0, gs[gs.len() - 1].1[r]));
            }
        }
    }
}

/// Every production of the language with a single node on its right leads to a lower rank.
proof fn lemma_language_unit_ranked()
    ensures
        forall|i: int| 0 <= i < flatten_groups(language_groups()).len() ==> #[trigger] unit_ranked_rule(flatten_groups(language_groups())[i].0, flatten_groups(language_groups())[i].1),
{
    let gs = language_groups();
    assert forall|g: int, r: int| 0 <= g < gs.len() && 0 <= r < gs[g].1.len() implies #[trigger] unit_ranked_rule(gs[g].0, gs[g].1[r]) by {
        assert(gs.len() == 15);
    }
    lemma_flatten_unit_ranked(gs);
}

/// A production of the language's table rules with a single node on its right leads to a
/// kind of lower rank.
proof fn lemma_table_rule_unit_ranked(g: Seq<Production>, p: int)
    requires
        rules_view(g) == flatten_groups(language_groups()) + root_rules(seq![NodeT::Statement, NodeT::Function]),
        0 <= p < g.len(),
    ensures
        unit_ranked_rule(g[p].node, g[p].v@),
{
    let fl = flatten_groups(language_groups());
    let rr = root_rules(seq![NodeT::Statement, NodeT::Function]);
    assert(rules_view(g)[p] == prod_view(g[p]));
    assert(rules_view(g).len() == g.len());
    assert(rr.len() == 2);
    if p < fl.len() {
        lemma_language_unit_ranked();
        assert((fl + rr)[p] == fl[p]);
        assert(unit_ranked_rule(fl[p].0, fl[p].1));
    } else {
        let i = p - fl.len();
        assert((fl + rr)[p] == rr[i]);
        assert(rr[i] == (NodeT::ROOT, seq![ElemT::Node(seq![NodeT::Statement, NodeT::Function][i]), ElemT::Node(NodeT::ROOT)]));
    }
}

/// The tables of the language: its productions (with the root rules) and an SLR(1) table over
/// them.
pub open spec fn language_tables(g: Seq<Production>, f: Seq<bool>, t: Seq<State>) -> bool {
    &&& rules_view(g) == flatten_groups(language_groups()) + root_rules(seq![NodeT::Statement, NodeT::Function])
    &&& rules_wf(g)
    &&& table_ok(g, f, t)
}

/// The state under stack entry `i`: that of the entry below it, or the first state.
pub open spec fn state_below(l: Seq<(ElemV, int)>, i: int) -> int {
    if i == 0 {
        0
    } else {
        l[i - 1].1
    }
}

/// Every stack entry was shifted: its state is the table's shift target from the state below
/// it over the entry's symbol.
pub open spec fn on_path(t: Seq<State>, l: Seq<(ElemV, int)>) -> bool {
    forall|i: int| 0 <= i < l.len() ==> {
        &&& 0 <= #[trigger] l[i].1 < t.len()
        &&& t[state_below(l, i)].edges@[sym_idx(elem_t(l[i].0))] matches Some(Action::Shift(ns)) && ns as int == l[i].1
    }
}

/// What the parser keeps of its stack and input: the stack is a path of shifts, and every
/// tree on either is ranked.
pub open spec fn config_ok(t: Seq<State>, l: Seq<(ElemV, int)>, r: Seq<ElemV>) -> bool {
    &&& on_path(t, l)
    &&& forall|i: int| 0 <= i < l.len() ==> #[trigger] ranked(l[i].0)
    &&& forall|j: int| 0 <= j < r.len() ==> #[trigger] ranked(r[j])
}

/// The number of nodes on stack and input.
pub open spec fn config_nodes(l: Seq<(ElemV, int)>, r: Seq<ElemV>) -> int {
    (nodes_all(firsts(l)) + nodes_all(r)) as int
}

/// What bounds the steps still to come: twice the nodes that can still be made, and the
/// input left.
pub open spec fn potential(l: Seq<(ElemV, int)>, r: Seq<ElemV>) -> int {
    2 * (14 * all_leaves(l, r).len() - config_nodes(l, r)) + r.len()
}

/// The input's leaves are as many as the leaves of its trees.
proof fn lemma_input_leaves_len(r: Seq<ElemV>)
    ensures
        input_leaves(r).len() == leaves_of(r).len(),
    decreases r.len(),
{
    if r.len() > 0 {
        lemma_input_leaves_len(r.drop_last());
    }
}

/// Stack and input hold at most fourteen nodes for each leaf.
proof fn lemma_config_bound(t: Seq<State>, l: Seq<(ElemV, int)>, r: Seq<ElemV>)
    requires
        config_ok(t, l, r),
    ensures
        config_nodes(l, r) <= 14 * all_leaves(l, r).len(),
        potential(l, r) >= 0,
{
    let fl = firsts(l);
    assert forall|i: int| 0 <= i < fl.len() implies #[trigger] ranked(fl[i]) by {
        assert(fl[i] == l[i].0);
    }
    lemma_ranked_all(fl);
    lemma_ranked_all(r);
    lemma_ranked_count_all(fl);
    lemma_ranked_count_all(r);
    lemma_input_leaves_len(r);
}

/// The top entry of a stack on a path, reduced by a production of one symbol, has that
/// symbol: the kernel of its state came from the state below by a shift over it.
proof fn lemma_unit_reduce_symbol(g: Seq<Production>, f: Seq<bool>, t: Seq<State>, l: Seq<(ElemV, int)>, p: int, xs: int)
    requires
        language_tables(g, f, t),
        on_path(t, l),
        l.len() >= 1,
        0 <= p < g.len(),
        g[p].v@.len() == 1,
        reducible(g, f, t[top_state(l)].items@, p, xs),
    ensures
        g[p].v@[0] == elem_t(l.last().0),
{
    let m = l.len() - 1;
    let s = l[m].1;
    let sb = state_below(l, m);
    let y = sym_idx(elem_t(l[m].0));
    assert(0 <= l[m].1 < t.len());
    assert(t[sb].edges@[y] matches Some(Action::Shift(ns)) && ns as int == l[m].1);
    assert(0 <= sb < t.len()) by {
        if m > 0 {
            assert(0 <= l[m - 1].1 < t.len());
        }
    }
    lemma_sym_idx(elem_t(l[m].0));
    assert(edges_done(g, f, t, sb));
    assert(edge_val_ok(g, f, t, t[sb].items@, y, t[sb].edges@[y]));
    assert(state_items_ok(g, t, s));
    assert(has_item(t[s].items@, p, 1));
    lemma_item_cells(g, t[s].items@, p, 1);
    assert(is_goto(g, t[sb].items@, y, kernel_part(t[s].items@)));
    assert(has_item(kernel_part(t[s].items@), p, 1));
    assert(sym_idx(g[p].v@[0]) == y);
    lemma_sym_idx(g[p].v@[0]);
}

/// A shift keeps what the parser keeps, and lowers the potential by one.
#[verifier::spinoff_prover]
proof fn lemma_shift_config(g: Seq<Production>, f: Seq<bool>, t: Seq<State>, l: Seq<(ElemV, int)>, r: Seq<ElemV>, ns: usize)
    requires
        language_tables(g, f, t),
        config_ok(t, l, r),
        r.len() > 0,
        0 <= top_state(l) < t.len(),
        ns < t.len(),
        t[top_state(l)].edges@[sym_idx(elem_t(r.last()))] == Some(Action::Shift(ns)),
    ensures
        config_ok(t, l.push((r.last(), ns as int)), r.drop_last()),
        config_nodes(l.push((r.last(), ns as int)), r.drop_last()) == config_nodes(l, r),
{
    let x = r.last();
    let l2 = l.push((x, ns as int));
    let r2 = r.drop_last();
    assert forall|i: int| 0 <= i < l2.len() implies {
        &&& 0 <= #[trigger] l2[i].1 < t.len()
        &&& t[state_below(l2, i)].edges@[sym_idx(elem_t(l2[i].0))] matches Some(Action::Shift(ms)) && ms as int == l2[i].1
    } by {
        if i > 0 {
            assert(l2[i - 1] == l[i - 1]);
        }
        if i < l.len() {
            assert(l2[i] == l[i]);
            assert(state_below(l2, i) == state_below(l, i));
        } else {
            assert(state_below(l2, i) == top_state(l));
        }
    }
    assert forall|i: int| 0 <= i < l2.len() implies #[trigger] ranked(l2[i].0) by {
        if i < l.len() {
            assert(l2[i] == l[i]);
        }
    }
    assert forall|j: int| 0 <= j < r2.len() implies #[trigger] ranked(r2[j]) by {
        assert(r2[j] == r[j]);
    }
    assert(firsts(l2) =~= firsts(l).push(x));
    assert(firsts(l).push(x).drop_last() =~= firsts(l));
    assert(nodes_all(firsts(l2)) == nodes_all(firsts(l)) + node_count(x));
    assert(nodes_all(r) == nodes_all(r2) + node_count(x));
}

/// A reduction keeps what the parser keeps, and makes one node more.
#[verifier::spinoff_prover]
proof fn lemma_reduce_config(g: Seq<Production>, f: Seq<bool>, t: Seq<State>, l: Seq<(ElemV, int)>, r: Seq<ElemV>, p: int, xs: int)
    requires
        language_tables(g, f, t),
        config_ok(t, l, r),
        0 <= p < g.len(),
        1 <= g[p].v@.len() <= l.len(),
        reducible(g, f, t[top_state(l)].items@, p, xs),
    ensures
        ({
            let k = l.len() - g[p].v@.len();
            let nd = make_v(g[p].node, firsts(l.subrange(k, l.len() as int)));
            &&& config_ok(t, l.subrange(0, k), r.push(ElemV::Node(nd)))
            &&& config_nodes(l.subrange(0, k), r.push(ElemV::Node(nd))) == config_nodes(l, r) + 1
        }),
{
    let len = g[p].v@.len();
    let k = l.len() - len;
    let kids = firsts(l.subrange(k, l.len() as int));
    let nd = make_v(g[p].node, kids);
    let l2 = l.subrange(0, k);
    let r2 = r.push(ElemV::Node(nd));
    assert forall|i: int| 0 <= i < l2.len() implies {
        &&& 0 <= #[trigger] l2[i].1 < t.len()
        &&& t[state_below(l2, i)].edges@[sym_idx(elem_t(l2[i].0))] matches Some(Action::Shift(ms)) && ms as int == l2[i].1
    } by {
        assert(l2[i] == l[i]);
        if i > 0 {
            assert(l2[i - 1] == l[i - 1]);
        }
        assert(state_below(l2, i) == state_below(l, i));
    }
    assert forall|i: int| 0 <= i < l2.len() implies #[trigger] ranked(l2[i].0) by {
        assert(l2[i] == l[i]);
    }
    assert forall|i: int| 0 <= i < kids.len() implies #[trigger] ranked(kids[i]) by {
        assert(kids[i] == l[k + i].0);
    }
    lemma_ranked_all(kids);
    if len == 1 && kids[0] is Node {
        lemma_unit_reduce_symbol(g, f, t, l, p, xs);
        assert(kids[0] == l.last().0);
        lemma_table_rule_unit_ranked(g, p);
    }
    assert(ranked(ElemV::Node(nd)));
    assert forall|j: int| 0 <= j < r2.len() implies #[trigger] ranked(r2[j]) by {
        if j < r.len() {
            assert(r2[j] == r[j]);
        }
    }
    assert(firsts(l) =~= firsts(l2) + kids);
    lemma_nodes_all_add(firsts(l2), kids);
    assert(r2.drop_last() =~= r);
    assert(nodes_all(r2) == nodes_all(r) + node_count(ElemV::Node(nd)));
}

/// A step keeps what the parser keeps, and lowers the potential by one.
proof fn lemma_step_config(g: Seq<Production>, f: Seq<bool>, t: Seq<State>, l: Seq<(ElemV, int)>, r: Seq<ElemV>)
    requires
        language_tables(g, f, t),
        config_ok(t, l, r),
        step(g, t, l, r) is Some,
    ensures
        config_ok(t, step(g, t, l, r).unwrap().0, step(g, t, l, r).unwrap().1),
        potential(step(g, t, l, r).unwrap().0, step(g, t, l, r).unwrap().1) == potential(l, r) - 1,
{
    lemma_step_keeps_leaves(g, t, l, r);
    let s = top_state(l);
    let xs = sym_idx(elem_t(r.last()));
    lemma_sym_idx(elem_t(r.last()));
    assert(edges_done(g, f, t, s));
    assert(edge_val_ok(g, f, t, t[s].items@, xs, t[s].edges@[xs]));
    match t[s].edges@[xs] {
        Some(Action::Shift(ns)) => {
            lemma_shift_config(g, f, t, l, r, ns);
        },
        Some(Action::Reduce(p)) => {
            lemma_reduce_config(g, f, t, l, r, p as int, xs);
        },
        None => {},
    }
}

/// With more steps than its potential, a run stops only where it accepts or has no step to take.
proof fn lemma_run_within(g: Seq<Production>, f: Seq<bool>, t: Seq<State>, roots: Seq<NodeT>, l: Seq<(ElemV, int)>, r: Seq<ElemV>, fuel: nat)
    requires
        language_tables(g, f, t),
        config_ok(t, l, r),
        fuel > potential(l, r),
    ensures
        !run(g, t, roots, l, r, fuel).2 ==> step(g, t, run(g, t, roots, l, r, fuel).0, run(g, t, roots, l, r, fuel).1) is None,
    decreases fuel,
{
    lemma_config_bound(t, l, r);
    if !accepting(roots, l, r) {
        match step(g, t, l, r) {
            None => {},
            Some((l2, r2)) => {
                lemma_step_config(g, f, t, l, r);
                lemma_run_within(g, f, t, roots, l2, r2, (fuel - 1) as nat);
            },
        }
    }
}

/// The input holds no node.
proof fn lemma_input_no_nodes(toks: Seq<TokenV>)
    ensures
        nodes_all(input_of(toks)) == 0,
        forall|j: int| 0 <= j < input_of(toks).len() ==> #[trigger] ranked(input_of(toks)[j]),
    decreases toks.len(),
{
    let r = input_of(toks);
    if toks.len() > 0 {
        let rest = toks.subrange(1, toks.len() as int);
        assert(r.drop_last() =~= input_of(rest));
        lemma_input_no_nodes(rest);
        assert(r.last() == ElemV::Token(toks[0]));
        assert(node_count(r.last()) == 0);
    }
}

/// The parser's step budget never runs out on the language's tables: a run that does not
/// accept stops where its table has no entry for its state and next symbol (or a reduction
/// is longer than its stack), never for want of steps. It takes fewer than thirty steps for
/// each token.
pub proof fn step_bound_suffices(g: Seq<Production>, f: Seq<bool>, t: Seq<State>, roots: Seq<NodeT>, toks: Seq<TokenV>)
    requires
        language_tables(g, f, t),
        toks.len() < usize::MAX / 128,
    ensures
        ({
            let (l, r, ok) = run(g, t, roots, seq![], input_of(toks), step_bound(toks.len() as int) as nat);
            !ok ==> step(g, t, l, r) is None
        }),
{
    let r0 = input_of(toks);
    let l0 = Seq::<(ElemV, int)>::empty();
    lemma_input_no_nodes(toks);
    lemma_input_leaves(toks);
    assert(firsts(l0) =~= Seq::<ElemV>::empty());
    assert(all_leaves(l0, r0) == toks);
    assert(config_ok(t, l0, r0));
    assert(potential(l0, r0) == 29 * toks.len());
    lemma_run_within(g, f, t, roots, l0, r0, step_bound(toks.len() as int) as nat);
}

/// On the language's tables, parsing fails only where the run meets a state with no entry
/// for the next symbol (or a reduction longer than its stack), reported there, or where it
/// accepts with a token still on its stack.
pub proof fn parse_fails_only_at_gaps(g: Seq<Production>, f: Seq<bool>, t: Seq<State>, roots: Seq<NodeT>, toks: Seq<TokenV>)
    requires
        language_tables(g, f, t),
        toks.len() < usize::MAX / 128,
        parse_spec(g, t, roots, toks) is Err,
    ensures
        ({
            let (l, r, ok) = run(g, t, roots, seq![], input_of(toks), step_bound(toks.len() as int) as nat);
            &&& parse_spec(g, t, roots, toks)->Err_0 == error_at(t, l, r)
            &&& (ok && exists|i: int| 0 <= i < l.len() && #[trigger] l[i].0 is Token)
                || (!ok && !accepting(roots, l, r) && step(g, t, l, r) is None)
        }),
{
    parse_fails_where(g, t, roots, toks);
    step_bound_suffices(g, f, t, roots, toks);
}

} // verus!
