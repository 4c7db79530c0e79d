use vstd::prelude::*;
use crate::bits::{cell, lemma_cell_set, lemma_cell_in, lemma_cell_pos, count_true, le_bits, lemma_count_bound, lemma_count_set, falses};
use crate::grammar::{Production, NodeT, ElemT, node_idx, sym_idx, tok_idx, NUM_TOKENS, NUM_NODES, NUM_SYMBOLS, node_index, symbol_index};

verus! {

/// Most symbols on the right-hand side of a production.
pub const MAX_RHS: usize = 15;

/// Most productions in a grammar.
pub const MAX_PRODS: usize = 4096;

/// Every production has between one and `MAX_RHS` symbols, and there are at most `MAX_PRODS`.
pub open spec fn rules_wf(g: Seq<Production>) -> bool {
    &&& g.len() <= MAX_PRODS
    &&& forall|p: int| 0 <= p < g.len() ==> 1 <= #[trigger] g[p].v@.len() <= MAX_RHS
}

/// Production `q` is a production of node `n` whose first symbol has index `s`.
pub open spec fn first_is(g: Seq<Production>, q: int, n: int, s: int) -> bool {
    node_idx(g[q].node) == n && sym_idx(g[q].v@[0]) == s
}

/// Among the first `k` productions, one of node `n` starts with symbol `s`.
pub open spec fn first_upto(g: Seq<Production>, k: int, n: int, s: int) -> bool {
    exists|q: int| 0 <= q < k && #[trigger] first_is(g, q, n, s)
}

/// Some production of node `n` starts with node `x`.
pub open spec fn first_node(g: Seq<Production>, n: int, x: int) -> bool {
    first_upto(g, g.len() as int, n, NUM_TOKENS + x)
}

/// A node may begin with the end-of-input token, or with any token some production of it starts with.
pub open spec fn begins_init(g: Seq<Production>, n: int, t: int) -> bool {
    t == 0 || first_upto(g, g.len() as int, n, t)
}

/// `m` (nodes by tokens) holds the initial beginnings and is closed under
/// "a node that starts with node `x` begins with what `x` begins with".
pub open spec fn begins_closed(g: Seq<Production>, m: Seq<bool>) -> bool {
    &&& m.len() == NUM_NODES * NUM_TOKENS
    &&& forall|n: int, t: int|
        0 <= n < NUM_NODES && 0 <= t < NUM_TOKENS && begins_init(g, n, t) ==> #[trigger] cell(
            m,
            NUM_TOKENS as int,
            n,
            t,
        )
    &&& forall|n: int, x: int, t: int|
        0 <= n < NUM_NODES && 0 <= x < NUM_NODES && 0 <= t < NUM_TOKENS && #[trigger] first_node(
            g,
            n,
            x,
        ) && #[trigger] cell(m, NUM_TOKENS as int, x, t) ==> cell(m, NUM_TOKENS as int, n, t)
}

/// Token `t` is in BEGINS(n): the least set closed as `begins_closed` describes.
pub open spec fn in_begins(g: Seq<Production>, n: int, t: int) -> bool {
    forall|m: Seq<bool>| #[trigger] begins_closed(g, m) ==> cell(m, NUM_TOKENS as int, n, t)
}

/// In production `q`, node `n` stands at position `i` and the symbol with index `s` right after it.
pub open spec fn follow_is(g: Seq<Production>, q: int, i: int, n: int, s: int) -> bool {
    0 <= i < g[q].v@.len() - 1 && sym_idx(g[q].v@[i]) == NUM_TOKENS + n && sym_idx(g[q].v@[i + 1])
        == s
}

/// Among the first `k` productions, symbol `s` directly follows node `n` somewhere.
pub open spec fn follow_upto(g: Seq<Production>, k: int, n: int, s: int) -> bool {
    exists|q: int, i: int| 0 <= q < k && #[trigger] follow_is(g, q, i, n, s)
}

/// Node `x` directly follows node `n` in some production.
pub open spec fn followed_node(g: Seq<Production>, n: int, x: int) -> bool {
    follow_upto(g, g.len() as int, n, NUM_TOKENS + x)
}

/// Token `t` directly follows node `n` in some production, or `n` is `ROOT` and `t` the end of input.
pub open spec fn follow_init(g: Seq<Production>, n: int, t: int) -> bool {
    (n == node_idx(NodeT::ROOT) && t == 0) || follow_upto(g, g.len() as int, n, t)
}

/// Tokens after node `n` once each node that directly follows `n` contributes its BEGINS set.
pub open spec fn follow_expanded(g: Seq<Production>, n: int, t: int) -> bool {
    follow_init(g, n, t) || exists|x: int|
        0 <= x < NUM_NODES && #[trigger] followed_node(g, n, x) && in_begins(g, x, t)
}

/// Production `q` is a production of node `h` that ends with node `n`.
pub open spec fn tail_is(g: Seq<Production>, q: int, n: int, h: int) -> bool {
    node_idx(g[q].node) == h && sym_idx(g[q].v@.last()) == NUM_TOKENS + n
}

/// Among the first `k` productions, one of node `h` ends with node `n`.
pub open spec fn tail_upto(g: Seq<Production>, k: int, n: int, h: int) -> bool {
    exists|q: int| 0 <= q < k && #[trigger] tail_is(g, q, n, h)
}

/// Some production of node `h` ends with node `n`, so what may follow `h` may follow `n`.
pub open spec fn tail_node(g: Seq<Production>, n: int, h: int) -> bool {
    tail_upto(g, g.len() as int, n, h)
}

/// `m` (nodes by tokens) holds the expanded tokens after each node and is closed under
/// "the node that ends a production may be followed by what may follow the production's node".
pub open spec fn follows_closed(g: Seq<Production>, m: Seq<bool>) -> bool {
    &&& m.len() == NUM_NODES * NUM_TOKENS
    &&& forall|n: int, t: int|
        0 <= n < NUM_NODES && 0 <= t < NUM_TOKENS && follow_expanded(g, n, t) ==> #[trigger] cell(
            m,
            NUM_TOKENS as int,
            n,
            t,
        )
    &&& forall|n: int, h: int, t: int|
        0 <= n < NUM_NODES && 0 <= h < NUM_NODES && 0 <= t < NUM_TOKENS && #[trigger] tail_node(
            g,
            n,
            h,
        ) && #[trigger] cell(m, NUM_TOKENS as int, h, t) ==> cell(m, NUM_TOKENS as int, n, t)
}

/// Token `t` may follow node `n`: the least set closed as `follows_closed` describes.
pub open spec fn in_follow_tokens(g: Seq<Production>, n: int, t: int) -> bool {
    forall|m: Seq<bool>| #[trigger] follows_closed(g, m) ==> cell(m, NUM_TOKENS as int, n, t)
}

/// Symbol `s` is in FOLLOWS(n): the nodes directly after `n`, and the tokens of
/// `in_follow_tokens`.
pub open spec fn in_follows(g: Seq<Production>, n: int, s: int) -> bool {
    if s < NUM_TOKENS {
        in_follow_tokens(g, n, s)
    } else {
        followed_node(g, n, s - NUM_TOKENS)
    }
}

/// The FOLLOWS table of a grammar, as a matrix of nodes by symbols.
pub open spec fn follows_table_ok(g: Seq<Production>, f: Seq<bool>) -> bool {
    &&& f.len() == NUM_NODES * NUM_SYMBOLS
    &&& forall|n: int, s: int|
        0 <= n < NUM_NODES && 0 <= s < NUM_SYMBOLS ==> (#[trigger] cell(f, NUM_SYMBOLS as int, n, s)
            <==> in_follows(g, n, s))
}


/// Scans the productions once and collects, as matrices: the nodes each node starts with, the
/// initial BEGINS tokens, the nodes directly after each node, and the initial FOLLOWS tokens.
fn scan_productions(g: &Vec<Production>) -> (res: (Vec<bool>, Vec<bool>, Vec<bool>, Vec<bool>))
    requires
        rules_wf(g@),
    ensures
        res.0@.len() == NUM_NODES * NUM_NODES,
        res.1@.len() == NUM_NODES * NUM_TOKENS,
        res.2@.len() == NUM_NODES * NUM_NODES,
        res.3@.len() == NUM_NODES * NUM_TOKENS,
        forall|n: int, x: int|
            0 <= n < NUM_NODES && 0 <= x < NUM_NODES ==> (#[trigger] cell(
                res.0@,
                NUM_NODES as int,
                n,
                x,
            ) <==> first_node(g@, n, x)),
        forall|n: int, t: int|
            0 <= n < NUM_NODES && 0 <= t < NUM_TOKENS ==> (#[trigger] cell(
                res.1@,
                NUM_TOKENS as int,
                n,
                t,
            ) <==> begins_init(g@, n, t)),
        forall|n: int, x: int|
            0 <= n < NUM_NODES && 0 <= x < NUM_NODES ==> (#[trigger] cell(
                res.2@,
                NUM_NODES as int,
                n,
                x,
            ) <==> followed_node(g@, n, x)),
        forall|n: int, t: int|
            0 <= n < NUM_NODES && 0 <= t < NUM_TOKENS ==> (#[trigger] cell(
                res.3@,
                NUM_TOKENS as int,
                n,
                t,
            ) <==> follow_init(g@, n, t)),
{
    let mut bn = falses(NUM_NODES * NUM_NODES);
    let mut bt = falses(NUM_NODES * NUM_TOKENS);
    let mut fnn = falses(NUM_NODES * NUM_NODES);
    let mut ft = falses(NUM_NODES * NUM_TOKENS);
    let mut n: usize = 0;
    while n < NUM_NODES
        invariant
            n <= NUM_NODES,
            bt@.len() == NUM_NODES * NUM_TOKENS,
            forall|m: int, t: int|
                0 <= m < NUM_NODES && 0 <= t < NUM_TOKENS ==> (#[trigger] cell(
                    bt@,
                    NUM_TOKENS as int,
                    m,
                    t,
                ) <==> (t == 0 && m < n)),
        decreases NUM_NODES - n,
    {
        proof {
            lemma_cell_set(bt@, NUM_TOKENS as int, NUM_NODES as int, n as int, 0);
        }
        bt.set(n * NUM_TOKENS, true);
        n = n + 1;
    }
    let root = node_index(NodeT::ROOT);
    proof {
        lemma_cell_set(ft@, NUM_TOKENS as int, NUM_NODES as int, root as int, 0);
    }
    ft.set(root * NUM_TOKENS, true);
    let mut p: usize = 0;
    while p < g.len()
        invariant
            p <= g@.len(),
            rules_wf(g@),
            bn@.len() == NUM_NODES * NUM_NODES,
            bt@.len() == NUM_NODES * NUM_TOKENS,
            fnn@.len() == NUM_NODES * NUM_NODES,
            ft@.len() == NUM_NODES * NUM_TOKENS,
            forall|m: int, x: int|
                0 <= m < NUM_NODES && 0 <= x < NUM_NODES ==> (#[trigger] cell(
                    bn@,
                    NUM_NODES as int,
                    m,
                    x,
                ) <==> first_upto(g@, p as int, m, NUM_TOKENS + x)),
            forall|m: int, t: int|
                0 <= m < NUM_NODES && 0 <= t < NUM_TOKENS ==> (#[trigger] cell(
                    bt@,
                    NUM_TOKENS as int,
                    m,
                    t,
                ) <==> (t == 0 || first_upto(g@, p as int, m, t))),
            forall|m: int, x: int|
                0 <= m < NUM_NODES && 0 <= x < NUM_NODES ==> (#[trigger] cell(
                    fnn@,
                    NUM_NODES as int,
                    m,
                    x,
                ) <==> follow_upto(g@, p as int, m, NUM_TOKENS + x)),
            forall|m: int, t: int|
                0 <= m < NUM_NODES && 0 <= t < NUM_TOKENS ==> (#[trigger] cell(
                    ft@,
                    NUM_TOKENS as int,
                    m,
                    t,
                ) <==> ((m == node_idx(NodeT::ROOT) && t == 0) || follow_upto(
                    g@,
                    p as int,
                    m,
                    t,
                ))),
        decreases g@.len() - p,
    {
        let prod = &g[p];
        assert(1 <= g@[p as int].v@.len() <= MAX_RHS);
        let nd = node_index(prod.node);
        let f = symbol_index(prod.v[0]);
        let ghost bn0 = bn@;
        let ghost bt0 = bt@;
        if f < NUM_TOKENS {
            proof {
                lemma_cell_set(bt@, NUM_TOKENS as int, NUM_NODES as int, nd as int, f as int);
            }
            bt.set(nd * NUM_TOKENS + f, true);
        } else {
            proof {
                lemma_cell_set(bn@, NUM_NODES as int, NUM_NODES as int, nd as int, f - NUM_TOKENS);
            }
            bn.set(nd * NUM_NODES + (f - NUM_TOKENS), true);
        }
        assert forall|m: int, x: int| 0 <= m < NUM_NODES && 0 <= x < NUM_NODES implies (#[trigger] cell(
            bn@,
            NUM_NODES as int,
            m,
            x,
        ) <==> first_upto(g@, p + 1, m, NUM_TOKENS + x)) by {
            assert(cell(bn0, NUM_NODES as int, m, x) <==> first_upto(g@, p as int, m, NUM_TOKENS + x));
            if first_upto(g@, p + 1, m, NUM_TOKENS + x) && !first_upto(g@, p as int, m, NUM_TOKENS + x) {
                let q = choose|q: int| 0 <= q < p + 1 && #[trigger] first_is(g@, q, m, NUM_TOKENS + x);
                assert(q == p);
            }
            if first_is(g@, p as int, m, NUM_TOKENS + x) {
                assert(first_upto(g@, p + 1, m, NUM_TOKENS + x));
            }
            if first_upto(g@, p as int, m, NUM_TOKENS + x) {
                let q = choose|q: int| 0 <= q < p && #[trigger] first_is(g@, q, m, NUM_TOKENS + x);
                assert(first_upto(g@, p + 1, m, NUM_TOKENS + x));
            }
        }
        assert forall|m: int, t: int| 0 <= m < NUM_NODES && 0 <= t < NUM_TOKENS implies (#[trigger] cell(
            bt@,
            NUM_TOKENS as int,
            m,
            t,
        ) <==> (t == 0 || first_upto(g@, p + 1, m, t))) by {
            assert(cell(bt0, NUM_TOKENS as int, m, t) <==> (t == 0 || first_upto(g@, p as int, m, t)));
            if first_upto(g@, p + 1, m, t) && !first_upto(g@, p as int, m, t) {
                let q = choose|q: int| 0 <= q < p + 1 && #[trigger] first_is(g@, q, m, t);
                assert(q == p);
            }
            if first_is(g@, p as int, m, t) {
                assert(first_upto(g@, p + 1, m, t));
            }
            if first_upto(g@, p as int, m, t) {
                let q = choose|q: int| 0 <= q < p && #[trigger] first_is(g@, q, m, t);
                assert(first_upto(g@, p + 1, m, t));
            }
        }
        let len = prod.v.len();
        let mut i: usize = 0;
        while i < len - 1
            invariant
                i <= len - 1,
                len == g@[p as int].v@.len(),
                1 <= len <= MAX_RHS,
                p < g@.len(),
                prod == g@[p as int],
                fnn@.len() == NUM_NODES * NUM_NODES,
                ft@.len() == NUM_NODES * NUM_TOKENS,
                forall|m: int, x: int|
                    0 <= m < NUM_NODES && 0 <= x < NUM_NODES ==> (#[trigger] cell(
                        fnn@,
                        NUM_NODES as int,
                        m,
                        x,
                    ) <==> (follow_upto(g@, p as int, m, NUM_TOKENS + x) || exists|j: int|
                        0 <= j < i && #[trigger] follow_is(g@, p as int, j, m, NUM_TOKENS + x))),
                forall|m: int, t: int|
                    0 <= m < NUM_NODES && 0 <= t < NUM_TOKENS ==> (#[trigger] cell(
                        ft@,
                        NUM_TOKENS as int,
                        m,
                        t,
                    ) <==> ((m == node_idx(NodeT::ROOT) && t == 0) || follow_upto(
                        g@,
                        p as int,
                        m,
                        t,
                    ) || exists|j: int| 0 <= j < i && #[trigger] follow_is(g@, p as int, j, m, t))),
            decreases len - 1 - i,
        {
            let a = symbol_index(prod.v[i]);
            let ghost fnn0 = fnn@;
            let ghost ft0 = ft@;
            if a >= NUM_TOKENS {
                let b = symbol_index(prod.v[i + 1]);
                if b < NUM_TOKENS {
                    proof {
                        lemma_cell_set(ft@, NUM_TOKENS as int, NUM_NODES as int, a - NUM_TOKENS, b as int);
                    }
                    ft.set((a - NUM_TOKENS) * NUM_TOKENS + b, true);
                } else {
                    proof {
                        lemma_cell_set(fnn@, NUM_NODES as int, NUM_NODES as int, a - NUM_TOKENS, b - NUM_TOKENS);
                    }
                    fnn.set((a - NUM_TOKENS) * NUM_NODES + (b - NUM_TOKENS), true);
                }
            }
            assert forall|m: int, x: int| 0 <= m < NUM_NODES && 0 <= x < NUM_NODES implies (#[trigger] cell(
                fnn@,
                NUM_NODES as int,
                m,
                x,
            ) <==> (follow_upto(g@, p as int, m, NUM_TOKENS + x) || exists|j: int|
                0 <= j < i + 1 && #[trigger] follow_is(g@, p as int, j, m, NUM_TOKENS + x))) by {
                if follow_is(g@, p as int, i as int, m, NUM_TOKENS + x) {
                    assert(a >= NUM_TOKENS);
                }
                if exists|j: int| 0 <= j < i + 1 && #[trigger] follow_is(g@, p as int, j, m, NUM_TOKENS + x) {
                    let j = choose|j: int| 0 <= j < i + 1 && #[trigger] follow_is(g@, p as int, j, m, NUM_TOKENS + x);
                    if j < i {
                        assert(exists|j: int| 0 <= j < i && #[trigger] follow_is(g@, p as int, j, m, NUM_TOKENS + x));
                    }
                }
                if exists|j: int| 0 <= j < i && #[trigger] follow_is(g@, p as int, j, m, NUM_TOKENS + x) {
                    let j = choose|j: int| 0 <= j < i && #[trigger] follow_is(g@, p as int, j, m, NUM_TOKENS + x);
                    assert(exists|j: int| 0 <= j < i + 1 && #[trigger] follow_is(g@, p as int, j, m, NUM_TOKENS + x));
                }
            }
            assert forall|m: int, t: int| 0 <= m < NUM_NODES && 0 <= t < NUM_TOKENS implies (#[trigger] cell(
                ft@,
                NUM_TOKENS as int,
                m,
                t,
            ) <==> ((m == node_idx(NodeT::ROOT) && t == 0) || follow_upto(
                g@,
                p as int,
                m,
                t,
            ) || exists|j: int| 0 <= j < i + 1 && #[trigger] follow_is(g@, p as int, j, m, t))) by {
                if follow_is(g@, p as int, i as int, m, t) {
                    assert(a >= NUM_TOKENS);
                }
                if exists|j: int| 0 <= j < i + 1 && #[trigger] follow_is(g@, p as int, j, m, t) {
                    let j = choose|j: int| 0 <= j < i + 1 && #[trigger] follow_is(g@, p as int, j, m, t);
                    if j < i {
                        assert(exists|j: int| 0 <= j < i && #[trigger] follow_is(g@, p as int, j, m, t));
                    }
                }
                if exists|j: int| 0 <= j < i && #[trigger] follow_is(g@, p as int, j, m, t) {
                    let j = choose|j: int| 0 <= j < i && #[trigger] follow_is(g@, p as int, j, m, t);
                    assert(exists|j: int| 0 <= j < i + 1 && #[trigger] follow_is(g@, p as int, j, m, t));
                }
            }
            i = i + 1;
        }
        assert forall|m: int, s: int| 0 <= m < NUM_NODES && 0 <= s < NUM_SYMBOLS implies
            (follow_upto(g@, p + 1, m, s) <==> (follow_upto(g@, p as int, m, s) || exists|j: int|
                0 <= j < len - 1 && #[trigger] follow_is(g@, p as int, j, m, s))) by {
            if follow_upto(g@, p + 1, m, s) {
                let (q, j) = choose|q: int, j: int| 0 <= q < p + 1 && #[trigger] follow_is(g@, q, j, m, s);
                if q < p {
                    assert(follow_upto(g@, p as int, m, s));
                } else {
                    assert(0 <= j < len - 1 && follow_is(g@, p as int, j, m, s));
                }
            }
            if follow_upto(g@, p as int, m, s) {
                let (q, j) = choose|q: int, j: int| 0 <= q < p && #[trigger] follow_is(g@, q, j, m, s);
                assert(follow_upto(g@, p + 1, m, s));
            }
            if exists|j: int| 0 <= j < len - 1 && #[trigger] follow_is(g@, p as int, j, m, s) {
                let j = choose|j: int| 0 <= j < len - 1 && #[trigger] follow_is(g@, p as int, j, m, s);
                assert(follow_is(g@, p as int, j, m, s));
                assert(follow_upto(g@, p + 1, m, s));
            }
        }
        p = p + 1;
    }
    (bn, bt, fnn, ft)
}


/// `t` (below `NUM_TOKENS`) is among the tokens `n` may begin with, given the matrix `bn` of
/// "starts with node" and `bt` of tokens: one step of the closure holds at `(n, x, t)`.
pub open spec fn begins_step_ok(g: Seq<Production>, bt: Seq<bool>, n: int, x: int, t: int) -> bool {
    first_node(g, n, x) && cell(bt, NUM_TOKENS as int, x, t) ==> cell(bt, NUM_TOKENS as int, n, t)
}

/// Computes BEGINS as the least fixpoint, starting from the initial tokens.
fn close_begins(g: &Vec<Production>, bn: &Vec<bool>, bt0: Vec<bool>) -> (bt: Vec<bool>)
    requires
        rules_wf(g@),
        bn@.len() == NUM_NODES * NUM_NODES,
        bt0@.len() == NUM_NODES * NUM_TOKENS,
        forall|n: int, x: int|
            0 <= n < NUM_NODES && 0 <= x < NUM_NODES ==> (#[trigger] cell(
                bn@,
                NUM_NODES as int,
                n,
                x,
            ) <==> first_node(g@, n, x)),
        forall|n: int, t: int|
            0 <= n < NUM_NODES && 0 <= t < NUM_TOKENS ==> (#[trigger] cell(
                bt0@,
                NUM_TOKENS as int,
                n,
                t,
            ) <==> begins_init(g@, n, t)),
    ensures
        bt@.len() == NUM_NODES * NUM_TOKENS,
        forall|n: int, t: int|
            0 <= n < NUM_NODES && 0 <= t < NUM_TOKENS ==> (#[trigger] cell(
                bt@,
                NUM_TOKENS as int,
                n,
                t,
            ) <==> in_begins(g@, n, t)),
{
    let mut bt = bt0;
    let mut done = false;
    assert forall|m: Seq<bool>| #[trigger] begins_closed(g@, m) implies le_bits(bt@, m) by {
        assert forall|i: int| 0 <= i < bt@.len() && #[trigger] bt@[i] implies m[i] by {
            let n = i / (NUM_TOKENS as int);
            let t = i % (NUM_TOKENS as int);
            assert(i == n * NUM_TOKENS + t);
            assert(0 <= n < NUM_NODES);
            assert(cell(bt0@, NUM_TOKENS as int, n, t));
            assert(begins_init(g@, n, t));
            assert(cell(m, NUM_TOKENS as int, n, t));
        }
    }
    while !done
        invariant
            rules_wf(g@),
            bn@.len() == NUM_NODES * NUM_NODES,
            bt@.len() == NUM_NODES * NUM_TOKENS,
            forall|n: int, x: int|
                0 <= n < NUM_NODES && 0 <= x < NUM_NODES ==> (#[trigger] cell(
                    bn@,
                    NUM_NODES as int,
                    n,
                    x,
                ) <==> first_node(g@, n, x)),
            forall|n: int, t: int|
                0 <= n < NUM_NODES && 0 <= t < NUM_TOKENS && begins_init(g@, n, t) ==> #[trigger] cell(
                    bt@,
                    NUM_TOKENS as int,
                    n,
                    t,
                ),
            forall|m: Seq<bool>| #[trigger] begins_closed(g@, m) ==> le_bits(bt@, m),
            done ==> forall|n: int, x: int, t: int|
                0 <= n < NUM_NODES && 0 <= x < NUM_NODES && 0 <= t < NUM_TOKENS
                    ==> #[trigger] begins_step_ok(g@, bt@, n, x, t),
        decreases NUM_NODES * NUM_TOKENS - count_true(bt@) + if done {
            0int
        } else {
            1int
        },
    {
        proof {
            lemma_count_bound(bt@);
        }
        let ghost c0 = count_true(bt@);
        let ghost b0 = bt@;
        let mut mutated = false;
        let mut n: usize = 0;
        while n < NUM_NODES
            invariant
                n <= NUM_NODES,
                rules_wf(g@),
                bn@.len() == NUM_NODES * NUM_NODES,
                bt@.len() == NUM_NODES * NUM_TOKENS,
                forall|n: int, x: int|
                    0 <= n < NUM_NODES && 0 <= x < NUM_NODES ==> (#[trigger] cell(
                        bn@,
                        NUM_NODES as int,
                        n,
                        x,
                    ) <==> first_node(g@, n, x)),
                forall|n: int, t: int|
                    0 <= n < NUM_NODES && 0 <= t < NUM_TOKENS && begins_init(g@, n, t)
                        ==> #[trigger] cell(bt@, NUM_TOKENS as int, n, t),
                forall|m: Seq<bool>| #[trigger] begins_closed(g@, m) ==> le_bits(bt@, m),
                mutated ==> count_true(bt@) > c0,
                !mutated ==> bt@ == b0,
                count_true(bt@) >= c0,
                !mutated ==> forall|n2: int, x: int, t: int|
                    0 <= n2 < n && 0 <= x < NUM_NODES && 0 <= t < NUM_TOKENS
                        ==> #[trigger] begins_step_ok(g@, bt@, n2, x, t),
            decreases NUM_NODES - n,
        {
            let mut x: usize = 0;
            while x < NUM_NODES
                invariant
                    n < NUM_NODES,
                    x <= NUM_NODES,
                    rules_wf(g@),
                    bn@.len() == NUM_NODES * NUM_NODES,
                    bt@.len() == NUM_NODES * NUM_TOKENS,
                    forall|n: int, x: int|
                        0 <= n < NUM_NODES && 0 <= x < NUM_NODES ==> (#[trigger] cell(
                            bn@,
                            NUM_NODES as int,
                            n,
                            x,
                        ) <==> first_node(g@, n, x)),
                    forall|n: int, t: int|
                        0 <= n < NUM_NODES && 0 <= t < NUM_TOKENS && begins_init(g@, n, t)
                            ==> #[trigger] cell(bt@, NUM_TOKENS as int, n, t),
                    forall|m: Seq<bool>| #[trigger] begins_closed(g@, m) ==> le_bits(bt@, m),
                    mutated ==> count_true(bt@) > c0,
                    !mutated ==> bt@ == b0,
                    count_true(bt@) >= c0,
                    !mutated ==> forall|n2: int, x2: int, t: int|
                        0 <= n2 < NUM_NODES && 0 <= x2 < NUM_NODES && 0 <= t < NUM_TOKENS && (n2
                            < n || (n2 == n && x2 < x)) ==> #[trigger] begins_step_ok(
                            g@,
                            bt@,
                            n2,
                            x2,
                            t,
                        ),
                decreases NUM_NODES - x,
            {
                proof {
                    lemma_cell_in(NUM_NODES as int, NUM_NODES as int, n as int, x as int);
                }
                let has = bn[n * NUM_NODES + x];
                assert(has == cell(bn@, NUM_NODES as int, n as int, x as int));
                if has {
                    let mut t: usize = 0;
                    while t < NUM_TOKENS
                        invariant
                            n < NUM_NODES,
                            x < NUM_NODES,
                            t <= NUM_TOKENS,
                            rules_wf(g@),
                            first_node(g@, n as int, x as int),
                            bt@.len() == NUM_NODES * NUM_TOKENS,
                            forall|n: int, t: int|
                                0 <= n < NUM_NODES && 0 <= t < NUM_TOKENS && begins_init(g@, n, t)
                                    ==> #[trigger] cell(bt@, NUM_TOKENS as int, n, t),
                            forall|m: Seq<bool>| #[trigger] begins_closed(g@, m) ==> le_bits(bt@, m),
                            mutated ==> count_true(bt@) > c0,
                            !mutated ==> bt@ == b0,
                            count_true(bt@) >= c0,
                            !mutated ==> forall|n2: int, x2: int, t2: int|
                                0 <= n2 < NUM_NODES && 0 <= x2 < NUM_NODES && 0 <= t2 < NUM_TOKENS
                                    && (n2 < n || (n2 == n && x2 < x) || (n2 == n && x2 == x && t2
                                    < t)) ==> #[trigger] begins_step_ok(g@, bt@, n2, x2, t2),
                        decreases NUM_TOKENS - t,
                    {
                        proof {
                            lemma_cell_in(NUM_TOKENS as int, NUM_NODES as int, n as int, t as int);
                            lemma_cell_in(NUM_TOKENS as int, NUM_NODES as int, x as int, t as int);
                        }
                        if bt[x * NUM_TOKENS + t] && !bt[n * NUM_TOKENS + t] {
                            let ghost old_bt = bt@;
                            let k = n * NUM_TOKENS + t;
                            proof {
                                lemma_cell_set(bt@, NUM_TOKENS as int, NUM_NODES as int, n as int, t as int);
                                lemma_count_set(bt@, k as int);
                            }
                            bt.set(k, true);
                            mutated = true;
                            assert forall|m: Seq<bool>| #[trigger] begins_closed(g@, m) implies le_bits(bt@, m) by {
                                assert(le_bits(old_bt, m));
                                assert(old_bt[x * NUM_TOKENS + t]);
                                assert(cell(m, NUM_TOKENS as int, x as int, t as int));
                                assert(cell(m, NUM_TOKENS as int, n as int, t as int));
                            }
                        }
                        t = t + 1;
                    }
                } else {
                    assert forall|t: int| 0 <= t < NUM_TOKENS implies #[trigger] begins_step_ok(
                        g@,
                        bt@,
                        n as int,
                        x as int,
                        t,
                    ) by {}
                }
                x = x + 1;
            }
            n = n + 1;
        }
        if !mutated {
            done = true;
        }
        proof {
            lemma_count_bound(bt@);
        }
    }
    assert(begins_closed(g@, bt@)) by {
        assert forall|n: int, x: int, t: int|
            0 <= n < NUM_NODES && 0 <= x < NUM_NODES && 0 <= t < NUM_TOKENS && #[trigger] first_node(
                g@,
                n,
                x,
            ) && #[trigger] cell(bt@, NUM_TOKENS as int, x, t) implies cell(
            bt@,
            NUM_TOKENS as int,
            n,
            t,
        ) by {
            assert(begins_step_ok(g@, bt@, n, x, t));
        }
    }
    assert forall|n: int, t: int| 0 <= n < NUM_NODES && 0 <= t < NUM_TOKENS implies (#[trigger] cell(
        bt@,
        NUM_TOKENS as int,
        n,
        t,
    ) <==> in_begins(g@, n, t)) by {
        if cell(bt@, NUM_TOKENS as int, n, t) {
            assert forall|m: Seq<bool>| #[trigger] begins_closed(g@, m) implies cell(
                m,
                NUM_TOKENS as int,
                n,
                t,
            ) by {
                assert(le_bits(bt@, m));
                lemma_cell_in(NUM_TOKENS as int, NUM_NODES as int, n, t);
                assert(bt@[n * NUM_TOKENS + t]);
            }
        }
    }
    bt
}


/// One step of the FOLLOWS closure holds at `(n, x, t)`: where a production of `x` ends with `n`
/// and `t` may follow `x`, `t` may follow `n`.
pub open spec fn follows_step_ok(g: Seq<Production>, ft: Seq<bool>, n: int, x: int, t: int) -> bool {
    tail_node(g, n, x) && cell(ft, NUM_TOKENS as int, x, t) ==> cell(ft, NUM_TOKENS as int, n, t)
}

/// Computes the tokens of FOLLOWS as the least fixpoint, starting from the expanded tokens, by
/// passes over the tail relation until one changes nothing.
fn close_follows(g: &Vec<Production>, tl: &Vec<bool>, ft0: Vec<bool>) -> (ft: Vec<bool>)
    requires
        rules_wf(g@),
        tl@.len() == NUM_NODES * NUM_NODES,
        ft0@.len() == NUM_NODES * NUM_TOKENS,
        forall|n: int, x: int|
            0 <= n < NUM_NODES && 0 <= x < NUM_NODES ==> (#[trigger] cell(
                tl@,
                NUM_NODES as int,
                n,
                x,
            ) <==> tail_node(g@, n, x)),
        forall|n: int, t: int|
            0 <= n < NUM_NODES && 0 <= t < NUM_TOKENS ==> (#[trigger] cell(
                ft0@,
                NUM_TOKENS as int,
                n,
                t,
            ) <==> follow_expanded(g@, n, t)),
    ensures
        ft@.len() == NUM_NODES * NUM_TOKENS,
        forall|n: int, t: int|
            0 <= n < NUM_NODES && 0 <= t < NUM_TOKENS ==> (#[trigger] cell(
                ft@,
                NUM_TOKENS as int,
                n,
                t,
            ) <==> in_follow_tokens(g@, n, t)),
{
    let mut ft = ft0;
    let mut done = false;
    assert forall|m: Seq<bool>| #[trigger] follows_closed(g@, m) implies le_bits(ft@, m) by {
        assert forall|i: int| 0 <= i < ft@.len() && #[trigger] ft@[i] implies m[i] by {
            let n = i / (NUM_TOKENS as int);
            let t = i % (NUM_TOKENS as int);
            assert(i == n * NUM_TOKENS + t);
            assert(0 <= n < NUM_NODES);
            assert(cell(ft0@, NUM_TOKENS as int, n, t));
            assert(follow_expanded(g@, n, t));
            assert(cell(m, NUM_TOKENS as int, n, t));
        }
    }
    while !done
        invariant
            rules_wf(g@),
            tl@.len() == NUM_NODES * NUM_NODES,
            ft@.len() == NUM_NODES * NUM_TOKENS,
            forall|n: int, x: int|
                0 <= n < NUM_NODES && 0 <= x < NUM_NODES ==> (#[trigger] cell(
                    tl@,
                    NUM_NODES as int,
                    n,
                    x,
                ) <==> tail_node(g@, n, x)),
            forall|n: int, t: int|
                0 <= n < NUM_NODES && 0 <= t < NUM_TOKENS && follow_expanded(g@, n, t) ==> #[trigger] cell(
                    ft@,
                    NUM_TOKENS as int,
                    n,
                    t,
                ),
            forall|m: Seq<bool>| #[trigger] follows_closed(g@, m) ==> le_bits(ft@, m),
            done ==> forall|n: int, x: int, t: int|
                0 <= n < NUM_NODES && 0 <= x < NUM_NODES && 0 <= t < NUM_TOKENS
                    ==> #[trigger] follows_step_ok(g@, ft@, n, x, t),
        decreases NUM_NODES * NUM_TOKENS - count_true(ft@) + if done {
            0int
        } else {
            1int
        },
    {
        proof {
            lemma_count_bound(ft@);
        }
        let ghost c0 = count_true(ft@);
        let ghost b0 = ft@;
        let mut mutated = false;
        let mut n: usize = 0;
        while n < NUM_NODES
            invariant
                n <= NUM_NODES,
                rules_wf(g@),
                tl@.len() == NUM_NODES * NUM_NODES,
                ft@.len() == NUM_NODES * NUM_TOKENS,
                forall|n: int, x: int|
                    0 <= n < NUM_NODES && 0 <= x < NUM_NODES ==> (#[trigger] cell(
                        tl@,
                        NUM_NODES as int,
                        n,
                        x,
                    ) <==> tail_node(g@, n, x)),
                forall|n: int, t: int|
                    0 <= n < NUM_NODES && 0 <= t < NUM_TOKENS && follow_expanded(g@, n, t)
                        ==> #[trigger] cell(ft@, NUM_TOKENS as int, n, t),
                forall|m: Seq<bool>| #[trigger] follows_closed(g@, m) ==> le_bits(ft@, m),
                mutated ==> count_true(ft@) > c0,
                !mutated ==> ft@ == b0,
                count_true(ft@) >= c0,
                !mutated ==> forall|n2: int, x: int, t: int|
                    0 <= n2 < n && 0 <= x < NUM_NODES && 0 <= t < NUM_TOKENS
                        ==> #[trigger] follows_step_ok(g@, ft@, n2, x, t),
            decreases NUM_NODES - n,
        {
            let mut x: usize = 0;
            while x < NUM_NODES
                invariant
                    n < NUM_NODES,
                    x <= NUM_NODES,
                    rules_wf(g@),
                    tl@.len() == NUM_NODES * NUM_NODES,
                    ft@.len() == NUM_NODES * NUM_TOKENS,
                    forall|n: int, x: int|
                        0 <= n < NUM_NODES && 0 <= x < NUM_NODES ==> (#[trigger] cell(
                            tl@,
                            NUM_NODES as int,
                            n,
                            x,
                        ) <==> tail_node(g@, n, x)),
                    forall|n: int, t: int|
                        0 <= n < NUM_NODES && 0 <= t < NUM_TOKENS && follow_expanded(g@, n, t)
                            ==> #[trigger] cell(ft@, NUM_TOKENS as int, n, t),
                    forall|m: Seq<bool>| #[trigger] follows_closed(g@, m) ==> le_bits(ft@, m),
                    mutated ==> count_true(ft@) > c0,
                    !mutated ==> ft@ == b0,
                    count_true(ft@) >= c0,
                    !mutated ==> forall|n2: int, x2: int, t: int|
                        0 <= n2 < NUM_NODES && 0 <= x2 < NUM_NODES && 0 <= t < NUM_TOKENS && (n2
                            < n || (n2 == n && x2 < x)) ==> #[trigger] follows_step_ok(
                            g@,
                            ft@,
                            n2,
                            x2,
                            t,
                        ),
                decreases NUM_NODES - x,
            {
                proof {
                    lemma_cell_in(NUM_NODES as int, NUM_NODES as int, n as int, x as int);
                }
                let has = tl[n * NUM_NODES + x];
                assert(has == cell(tl@, NUM_NODES as int, n as int, x as int));
                if has {
                    let mut t: usize = 0;
                    while t < NUM_TOKENS
                        invariant
                            n < NUM_NODES,
                            x < NUM_NODES,
                            t <= NUM_TOKENS,
                            rules_wf(g@),
                            tail_node(g@, n as int, x as int),
                            ft@.len() == NUM_NODES * NUM_TOKENS,
                            forall|n: int, t: int|
                                0 <= n < NUM_NODES && 0 <= t < NUM_TOKENS && follow_expanded(g@, n, t)
                                    ==> #[trigger] cell(ft@, NUM_TOKENS as int, n, t),
                            forall|m: Seq<bool>| #[trigger] follows_closed(g@, m) ==> le_bits(ft@, m),
                            mutated ==> count_true(ft@) > c0,
                            !mutated ==> ft@ == b0,
                            count_true(ft@) >= c0,
                            !mutated ==> forall|n2: int, x2: int, t2: int|
                                0 <= n2 < NUM_NODES && 0 <= x2 < NUM_NODES && 0 <= t2 < NUM_TOKENS
                                    && (n2 < n || (n2 == n && x2 < x) || (n2 == n && x2 == x && t2
                                    < t)) ==> #[trigger] follows_step_ok(g@, ft@, n2, x2, t2),
                        decreases NUM_TOKENS - t,
                    {
                        proof {
                            lemma_cell_in(NUM_TOKENS as int, NUM_NODES as int, n as int, t as int);
                            lemma_cell_in(NUM_TOKENS as int, NUM_NODES as int, x as int, t as int);
                        }
                        if ft[x * NUM_TOKENS + t] && !ft[n * NUM_TOKENS + t] {
                            let ghost old_bt = ft@;
                            let k = n * NUM_TOKENS + t;
                            proof {
                                lemma_cell_set(ft@, NUM_TOKENS as int, NUM_NODES as int, n as int, t as int);
                                lemma_count_set(ft@, k as int);
                            }
                            ft.set(k, true);
                            mutated = true;
                            assert forall|m: Seq<bool>| #[trigger] follows_closed(g@, m) implies le_bits(ft@, m) by {
                                assert(le_bits(old_bt, m));
                                assert(old_bt[x * NUM_TOKENS + t]);
                                assert(cell(m, NUM_TOKENS as int, x as int, t as int));
                                assert(cell(m, NUM_TOKENS as int, n as int, t as int));
                            }
                        }
                        t = t + 1;
                    }
                } else {
                    assert forall|t: int| 0 <= t < NUM_TOKENS implies #[trigger] follows_step_ok(
                        g@,
                        ft@,
                        n as int,
                        x as int,
                        t,
                    ) by {}
                }
                x = x + 1;
            }
            n = n + 1;
        }
        if !mutated {
            done = true;
        }
        proof {
            lemma_count_bound(ft@);
        }
    }
    assert(follows_closed(g@, ft@)) by {
        assert forall|n: int, x: int, t: int|
            0 <= n < NUM_NODES && 0 <= x < NUM_NODES && 0 <= t < NUM_TOKENS && #[trigger] tail_node(
                g@,
                n,
                x,
            ) && #[trigger] cell(ft@, NUM_TOKENS as int, x, t) implies cell(
            ft@,
            NUM_TOKENS as int,
            n,
            t,
        ) by {
            assert(follows_step_ok(g@, ft@, n, x, t));
        }
    }
    assert forall|n: int, t: int| 0 <= n < NUM_NODES && 0 <= t < NUM_TOKENS implies (#[trigger] cell(
        ft@,
        NUM_TOKENS as int,
        n,
        t,
    ) <==> in_follow_tokens(g@, n, t)) by {
        if cell(ft@, NUM_TOKENS as int, n, t) {
            assert forall|m: Seq<bool>| #[trigger] follows_closed(g@, m) implies cell(
                m,
                NUM_TOKENS as int,
                n,
                t,
            ) by {
                assert(le_bits(ft@, m));
                lemma_cell_in(NUM_TOKENS as int, NUM_NODES as int, n, t);
                assert(ft@[n * NUM_TOKENS + t]);
            }
        }
    }
    ft
}


/// ORs row `src` of the token matrix `from` into row `dst` of the token matrix `to`.
fn row_or_from(to: &mut Vec<bool>, from: &Vec<bool>, dst: usize, src: usize)
    requires
        old(to)@.len() == NUM_NODES * NUM_TOKENS,
        from@.len() == NUM_NODES * NUM_TOKENS,
        dst < NUM_NODES,
        src < NUM_NODES,
    ensures
        final(to)@.len() == NUM_NODES * NUM_TOKENS,
        forall|r: int, t: int|
            0 <= r < NUM_NODES && 0 <= t < NUM_TOKENS ==> #[trigger] cell(
                final(to)@,
                NUM_TOKENS as int,
                r,
                t,
            ) == (cell(old(to)@, NUM_TOKENS as int, r, t) || (r == dst && cell(
                from@,
                NUM_TOKENS as int,
                src as int,
                t,
            ))),
{
    let mut t: usize = 0;
    while t < NUM_TOKENS
        invariant
            t <= NUM_TOKENS,
            dst < NUM_NODES,
            src < NUM_NODES,
            to@.len() == NUM_NODES * NUM_TOKENS,
            from@.len() == NUM_NODES * NUM_TOKENS,
            forall|r: int, t2: int|
                0 <= r < NUM_NODES && 0 <= t2 < NUM_TOKENS ==> #[trigger] cell(
                    to@,
                    NUM_TOKENS as int,
                    r,
                    t2,
                ) == (cell(old(to)@, NUM_TOKENS as int, r, t2) || (r == dst && t2 < t && cell(
                    from@,
                    NUM_TOKENS as int,
                    src as int,
                    t2,
                ))),
        decreases NUM_TOKENS - t,
    {
        proof {
            lemma_cell_in(NUM_TOKENS as int, NUM_NODES as int, src as int, t as int);
        }
        if from[src * NUM_TOKENS + t] {
            proof {
                lemma_cell_set(to@, NUM_TOKENS as int, NUM_NODES as int, dst as int, t as int);
            }
            to.set(dst * NUM_TOKENS + t, true);
        }
        t = t + 1;
    }
}

/// ORs row `src` of the token matrix `m` into its row `dst`, reading `src` as it was before.
fn row_or_self(m: &mut Vec<bool>, dst: usize, src: usize)
    requires
        old(m)@.len() == NUM_NODES * NUM_TOKENS,
        dst < NUM_NODES,
        src < NUM_NODES,
    ensures
        final(m)@.len() == NUM_NODES * NUM_TOKENS,
        forall|r: int, t: int|
            0 <= r < NUM_NODES && 0 <= t < NUM_TOKENS ==> #[trigger] cell(
                final(m)@,
                NUM_TOKENS as int,
                r,
                t,
            ) == (cell(old(m)@, NUM_TOKENS as int, r, t) || (r == dst && cell(
                old(m)@,
                NUM_TOKENS as int,
                src as int,
                t,
            ))),
{
    let ghost m0 = m@;
    let mut t: usize = 0;
    while t < NUM_TOKENS
        invariant
            t <= NUM_TOKENS,
            dst < NUM_NODES,
            src < NUM_NODES,
            m0 == old(m)@,
            m@.len() == NUM_NODES * NUM_TOKENS,
            m0.len() == NUM_NODES * NUM_TOKENS,
            forall|r: int, t2: int|
                0 <= r < NUM_NODES && 0 <= t2 < NUM_TOKENS ==> #[trigger] cell(
                    m@,
                    NUM_TOKENS as int,
                    r,
                    t2,
                ) == (cell(m0, NUM_TOKENS as int, r, t2) || (r == dst && t2 < t && cell(
                    m0,
                    NUM_TOKENS as int,
                    src as int,
                    t2,
                ))),
        decreases NUM_TOKENS - t,
    {
        proof {
            lemma_cell_in(NUM_TOKENS as int, NUM_NODES as int, src as int, t as int);
        }
        let b = m[src * NUM_TOKENS + t];
        assert(b == cell(m@, NUM_TOKENS as int, src as int, t as int));
        if b {
            proof {
                lemma_cell_set(m@, NUM_TOKENS as int, NUM_NODES as int, dst as int, t as int);
            }
            m.set(dst * NUM_TOKENS + t, true);
        }
        t = t + 1;
    }
}

/// The matrix of `tail_node`: row `n`, column `h` is set when a production of `h` ends with `n`.
fn tail_matrix(g: &Vec<Production>) -> (tl: Vec<bool>)
    requires
        rules_wf(g@),
    ensures
        tl@.len() == NUM_NODES * NUM_NODES,
        forall|n: int, h: int|
            0 <= n < NUM_NODES && 0 <= h < NUM_NODES ==> (#[trigger] cell(
                tl@,
                NUM_NODES as int,
                n,
                h,
            ) <==> tail_node(g@, n, h)),
{
    let mut tl = falses(NUM_NODES * NUM_NODES);
    let mut p: usize = 0;
    while p < g.len()
        invariant
            p <= g@.len(),
            rules_wf(g@),
            tl@.len() == NUM_NODES * NUM_NODES,
            forall|n: int, h: int|
                0 <= n < NUM_NODES && 0 <= h < NUM_NODES ==> (#[trigger] cell(
                    tl@,
                    NUM_NODES as int,
                    n,
                    h,
                ) <==> tail_upto(g@, p as int, n, h)),
        decreases g@.len() - p,
    {
        assert(1 <= g@[p as int].v@.len() <= MAX_RHS);
        let len = g[p].v.len();
        let last = symbol_index(g[p].v[len - 1]);
        let hd = node_index(g[p].node);
        let ghost tl0 = tl@;
        assert(g@[p as int].v@.last() == g@[p as int].v@[len - 1]);
        if last >= NUM_TOKENS {
            proof {
                lemma_cell_set(tl@, NUM_NODES as int, NUM_NODES as int, last - NUM_TOKENS, hd as int);
            }
            tl.set((last - NUM_TOKENS) * NUM_NODES + hd, true);
        }
        assert forall|n: int, h: int| 0 <= n < NUM_NODES && 0 <= h < NUM_NODES implies (#[trigger] cell(
            tl@,
            NUM_NODES as int,
            n,
            h,
        ) <==> tail_upto(g@, p + 1, n, h)) by {
            assert(cell(tl0, NUM_NODES as int, n, h) <==> tail_upto(g@, p as int, n, h));
            if tail_upto(g@, p + 1, n, h) {
                let q = choose|q: int| 0 <= q < p + 1 && #[trigger] tail_is(g@, q, n, h);
                if q < p {
                    assert(tail_upto(g@, p as int, n, h));
                }
            }
            if tail_upto(g@, p as int, n, h) {
                let q = choose|q: int| 0 <= q < p && #[trigger] tail_is(g@, q, n, h);
                assert(tail_upto(g@, p + 1, n, h));
            }
            if last >= NUM_TOKENS && n == last - NUM_TOKENS && h == hd {
                assert(tail_is(g@, p as int, n, h));
                assert(tail_upto(g@, p + 1, n, h));
            }
        }
        p = p + 1;
    }
    tl
}

/// Among nodes below `lim`, one directly follows `n` and begins with `t`.
pub open spec fn expanded_upto(g: Seq<Production>, n: int, t: int, lim: int) -> bool {
    exists|x: int| 0 <= x < lim && #[trigger] followed_node(g, n, x) && in_begins(g, x, t)
}

/// Computes the FOLLOWS table: for each node, the nodes and tokens that may come right after it.
pub fn make_follows(g: &Vec<Production>) -> (f: Vec<bool>)
    requires
        rules_wf(g@),
    ensures
        follows_table_ok(g@, f@),
{
    let (bn, bt0, fnn, ft0) = scan_productions(g);
    let bt = close_begins(g, &bn, bt0);
    let mut ft = ft0;
    let mut n: usize = 0;
    while n < NUM_NODES
        invariant
            n <= NUM_NODES,
            fnn@.len() == NUM_NODES * NUM_NODES,
            bt@.len() == NUM_NODES * NUM_TOKENS,
            ft@.len() == NUM_NODES * NUM_TOKENS,
            forall|m: int, x: int|
                0 <= m < NUM_NODES && 0 <= x < NUM_NODES ==> (#[trigger] cell(
                    fnn@,
                    NUM_NODES as int,
                    m,
                    x,
                ) <==> followed_node(g@, m, x)),
            forall|m: int, t: int|
                0 <= m < NUM_NODES && 0 <= t < NUM_TOKENS ==> (#[trigger] cell(
                    bt@,
                    NUM_TOKENS as int,
                    m,
                    t,
                ) <==> in_begins(g@, m, t)),
            forall|m: int, t: int|
                0 <= m < NUM_NODES && 0 <= t < NUM_TOKENS ==> (#[trigger] cell(
                    ft@,
                    NUM_TOKENS as int,
                    m,
                    t,
                ) <==> (follow_init(g@, m, t) || expanded_upto(
                    g@,
                    m,
                    t,
                    if m < n {
                        NUM_NODES as int
                    } else {
                        0
                    },
                ))),
        decreases NUM_NODES - n,
    {
        let mut x: usize = 0;
        while x < NUM_NODES
            invariant
                n < NUM_NODES,
                x <= NUM_NODES,
                fnn@.len() == NUM_NODES * NUM_NODES,
                bt@.len() == NUM_NODES * NUM_TOKENS,
                ft@.len() == NUM_NODES * NUM_TOKENS,
                forall|m: int, x: int|
                    0 <= m < NUM_NODES && 0 <= x < NUM_NODES ==> (#[trigger] cell(
                        fnn@,
                        NUM_NODES as int,
                        m,
                        x,
                    ) <==> followed_node(g@, m, x)),
                forall|m: int, t: int|
                    0 <= m < NUM_NODES && 0 <= t < NUM_TOKENS ==> (#[trigger] cell(
                        bt@,
                        NUM_TOKENS as int,
                        m,
                        t,
                    ) <==> in_begins(g@, m, t)),
                forall|m: int, t: int|
                    0 <= m < NUM_NODES && 0 <= t < NUM_TOKENS ==> (#[trigger] cell(
                        ft@,
                        NUM_TOKENS as int,
                        m,
                        t,
                    ) <==> (follow_init(g@, m, t) || expanded_upto(
                        g@,
                        m,
                        t,
                        if m < n {
                            NUM_NODES as int
                        } else if m == n {
                            x as int
                        } else {
                            0
                        },
                    ))),
            decreases NUM_NODES - x,
        {
            proof {
                lemma_cell_in(NUM_NODES as int, NUM_NODES as int, n as int, x as int);
            }
            let has = fnn[n * NUM_NODES + x];
            assert(has == cell(fnn@, NUM_NODES as int, n as int, x as int));
            let ghost ft_before = ft@;
            if has {
                row_or_from(&mut ft, &bt, n, x);
            }
            assert forall|m: int, t: int| 0 <= m < NUM_NODES && 0 <= t < NUM_TOKENS implies (
            #[trigger] cell(ft@, NUM_TOKENS as int, m, t) <==> (follow_init(g@, m, t)
                || expanded_upto(
                g@,
                m,
                t,
                if m < n {
                    NUM_NODES as int
                } else if m == n {
                    x + 1
                } else {
                    0
                },
            ))) by {
                assert(cell(ft_before, NUM_TOKENS as int, m, t) <==> (follow_init(g@, m, t)
                    || expanded_upto(
                    g@,
                    m,
                    t,
                    if m < n {
                        NUM_NODES as int
                    } else if m == n {
                        x as int
                    } else {
                        0
                    },
                )));
                if m == n {
                    assert(cell(bt@, NUM_TOKENS as int, x as int, t) <==> in_begins(g@, x as int, t));
                    if expanded_upto(g@, m, t, x + 1) {
                        let y = choose|y: int| 0 <= y < x + 1 && #[trigger] followed_node(g@, m, y) && in_begins(g@, y, t);
                        if y < x {
                            assert(expanded_upto(g@, m, t, x as int));
                        }
                    }
                    if expanded_upto(g@, m, t, x as int) {
                        let y = choose|y: int| 0 <= y < x && #[trigger] followed_node(g@, m, y) && in_begins(g@, y, t);
                        assert(expanded_upto(g@, m, t, x + 1));
                    }
                    if has && in_begins(g@, x as int, t) {
                        assert(followed_node(g@, m, x as int));
                        assert(expanded_upto(g@, m, t, x + 1));
                    }
                }
            }
            x = x + 1;
        }
        n = n + 1;
    }
    assert forall|m: int, t: int| 0 <= m < NUM_NODES && 0 <= t < NUM_TOKENS implies (#[trigger] cell(
        ft@,
        NUM_TOKENS as int,
        m,
        t,
    ) <==> follow_expanded(g@, m, t)) by {
        if expanded_upto(g@, m, t, NUM_NODES as int) {
            let y = choose|y: int| 0 <= y < NUM_NODES && #[trigger] followed_node(g@, m, y) && in_begins(g@, y, t);
            assert(followed_node(g@, m, y) && in_begins(g@, y, t));
        }
        if follow_expanded(g@, m, t) && !follow_init(g@, m, t) {
            let y = choose|y: int| 0 <= y < NUM_NODES && #[trigger] followed_node(g@, m, y) && in_begins(g@, y, t);
            assert(expanded_upto(g@, m, t, NUM_NODES as int));
        }
    }
    let tl = tail_matrix(g);
    let ft = close_follows(g, &tl, ft);
    let mut out: Vec<bool> = Vec::new();
    let mut n: usize = 0;
    while n < NUM_NODES
        invariant
            n <= NUM_NODES,
            fnn@.len() == NUM_NODES * NUM_NODES,
            ft@.len() == NUM_NODES * NUM_TOKENS,
            out@.len() == n * NUM_SYMBOLS,
            forall|m: int, x: int|
                0 <= m < NUM_NODES && 0 <= x < NUM_NODES ==> (#[trigger] cell(
                    fnn@,
                    NUM_NODES as int,
                    m,
                    x,
                ) <==> followed_node(g@, m, x)),
            forall|m: int, t: int|
                0 <= m < NUM_NODES && 0 <= t < NUM_TOKENS ==> (#[trigger] cell(
                    ft@,
                    NUM_TOKENS as int,
                    m,
                    t,
                ) <==> in_follow_tokens(g@, m, t)),
            forall|m: int, s: int|
                0 <= m < n && 0 <= s < NUM_SYMBOLS ==> (#[trigger] cell(
                    out@,
                    NUM_SYMBOLS as int,
                    m,
                    s,
                ) <==> in_follows(g@, m, s)),
        decreases NUM_NODES - n,
    {
        let mut s: usize = 0;
        while s < NUM_SYMBOLS
            invariant
                n < NUM_NODES,
                s <= NUM_SYMBOLS,
                fnn@.len() == NUM_NODES * NUM_NODES,
                ft@.len() == NUM_NODES * NUM_TOKENS,
                out@.len() == n * NUM_SYMBOLS + s,
                forall|m: int, x: int|
                    0 <= m < NUM_NODES && 0 <= x < NUM_NODES ==> (#[trigger] cell(
                        fnn@,
                        NUM_NODES as int,
                        m,
                        x,
                    ) <==> followed_node(g@, m, x)),
                forall|m: int, t: int|
                    0 <= m < NUM_NODES && 0 <= t < NUM_TOKENS ==> (#[trigger] cell(
                        ft@,
                        NUM_TOKENS as int,
                        m,
                        t,
                    ) <==> in_follow_tokens(g@, m, t)),
                forall|m: int, s2: int|
                    0 <= m < NUM_NODES && 0 <= s2 < NUM_SYMBOLS && (m < n || (m == n && s2 < s))
                        ==> (#[trigger] cell(out@, NUM_SYMBOLS as int, m, s2) <==> in_follows(
                        g@,
                        m,
                        s2,
                    )),
            decreases NUM_SYMBOLS - s,
        {
            let v = if s < NUM_TOKENS {
                proof {
                    lemma_cell_in(NUM_TOKENS as int, NUM_NODES as int, n as int, s as int);
                }
                let b = ft[n * NUM_TOKENS + s];
                assert(b == cell(ft@, NUM_TOKENS as int, n as int, s as int));
                b
            } else {
                proof {
                    lemma_cell_in(NUM_NODES as int, NUM_NODES as int, n as int, s - NUM_TOKENS);
                }
                let b = fnn[n * NUM_NODES + (s - NUM_TOKENS)];
                assert(b == cell(fnn@, NUM_NODES as int, n as int, s - NUM_TOKENS));
                b
            };
            let ghost out0 = out@;
            out.push(v);
            assert forall|m: int, s2: int|
                0 <= m < NUM_NODES && 0 <= s2 < NUM_SYMBOLS && (m < n || (m == n && s2 < s + 1))
                    implies (#[trigger] cell(out@, NUM_SYMBOLS as int, m, s2) <==> in_follows(
                    g@,
                    m,
                    s2,
                )) by {
                lemma_cell_pos(NUM_SYMBOLS as int, m, s2, n as int, s as int);
                if m < n {
                    assert(m * NUM_SYMBOLS + s2 < n * NUM_SYMBOLS) by (nonlinear_arith)
                        requires
                            m < n,
                            0 <= s2 < NUM_SYMBOLS,
                    ;
                }
                if !(m == n && s2 == s) {
                    assert(cell(out0, NUM_SYMBOLS as int, m, s2) <==> in_follows(g@, m, s2));
                }
            }
            s = s + 1;
        }
        n = n + 1;
    }
    assert forall|m: int, s: int| 0 <= m < NUM_NODES && 0 <= s < NUM_SYMBOLS implies (#[trigger] cell(
        out@,
        NUM_SYMBOLS as int,
        m,
        s,
    ) <==> in_follows(g@, m, s)) by {}
    out
}


/// What may begin a node that stands right after node `n` in some production may follow `n`.
pub proof fn follows_hold_next_begins(g: Seq<Production>, n: int, x: int, t: int)
    requires
        0 <= n < NUM_NODES,
        0 <= x < NUM_NODES,
        0 <= t < NUM_TOKENS,
        followed_node(g, n, x),
        in_begins(g, x, t),
    ensures
        in_follow_tokens(g, n, t),
{
    assert forall|m: Seq<bool>| #[trigger] follows_closed(g, m) implies cell(m, NUM_TOKENS as int, n, t) by {
        assert(follow_expanded(g, n, t));
    }
}

/// Every node may begin with the end of input.
pub proof fn begins_hold_end(g: Seq<Production>, n: int)
    requires
        0 <= n < NUM_NODES,
    ensures
        in_begins(g, n, 0),
{
    assert forall|m: Seq<bool>| #[trigger] begins_closed(g, m) implies cell(m, NUM_TOKENS as int, n, 0) by {
        assert(begins_init(g, n, 0));
    }
}

/// What may follow the node of a production may follow the node that ends it: the tokens of
/// FOLLOWS pass from a production's node to its last node, for every production.
pub proof fn follows_pass_to_tails(g: Seq<Production>, n: int, h: int, t: int)
    requires
        0 <= n < NUM_NODES,
        0 <= h < NUM_NODES,
        0 <= t < NUM_TOKENS,
        tail_node(g, n, h),
        in_follow_tokens(g, h, t),
    ensures
        in_follow_tokens(g, n, t),
{
    assert forall|m: Seq<bool>| #[trigger] follows_closed(g, m) implies cell(m, NUM_TOKENS as int, n, t) by {
        assert(cell(m, NUM_TOKENS as int, h, t));
    }
}

} // verus!
