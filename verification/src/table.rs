use vstd::prelude::*;
use crate::bits::{lemma_index_split, cell, count_true, le_bits, lemma_count_bound, lemma_count_set, lemma_cell_set, lemma_cell_in, lemma_cell_pos, falses, two_pow, lemma_distinct_bound};
use crate::follows::{rules_wf, MAX_RHS, MAX_PRODS};
use crate::grammar::{Production, NodeT, ElemT, Action, node_idx, sym_idx, node_index, symbol_index, node_of_index, symbol_of_index, lemma_sym_idx, lemma_node_idx, NUM_TOKENS, NUM_NODES, NUM_SYMBOLS};
use crate::productions::Productions;

verus! {

/// Width of a production's row in an item set: positions `0..=MAX_RHS`.
pub const ITEM_W: usize = 16;

/// An LR(0) item: production `prod` with the dot before position `pos`.
#[derive(Clone, Copy, Debug, PartialEq, Eq, Hash, Structural)]
pub struct Item {
    pub prod: usize,
    pub pos: usize,
}

/// Item `(p, pos)` is in the item set `s`.
pub open spec fn has_item(s: Seq<bool>, p: int, pos: int) -> bool {
    cell(s, ITEM_W as int, p, pos)
}

/// `s` is an item set of `g`: one row per production, and only dots within the production.
pub open spec fn items_ok(g: Seq<Production>, s: Seq<bool>) -> bool {
    &&& s.len() == g.len() * ITEM_W
    &&& forall|p: int, pos: int|
        0 <= p < g.len() && 0 <= pos < ITEM_W && #[trigger] has_item(s, p, pos) ==> pos
            <= g[p].v@.len()
}

/// In production `p`, node `n` stands right after the dot at `pos`.
pub open spec fn next_node_at(g: Seq<Production>, p: int, pos: int, n: int) -> bool {
    0 <= pos < g[p].v@.len() && sym_idx(g[p].v@[pos]) == NUM_TOKENS + n
}

/// `m` (one flag per node) holds each node right after the dot of an item of `k`, and the
/// node first in each production of a node of `m`.
pub open spec fn cnodes_closed(g: Seq<Production>, k: Seq<bool>, m: Seq<bool>) -> bool {
    &&& m.len() == NUM_NODES
    &&& forall|p: int, pos: int, n: int|
        0 <= p < g.len() && 0 <= pos < ITEM_W && 0 <= n < NUM_NODES && #[trigger] has_item(k, p, pos)
            && #[trigger] next_node_at(g, p, pos, n) ==> m[n]
    &&& forall|p: int, n: int|
        0 <= p < g.len() && 0 <= n < NUM_NODES && m[node_idx(g[p].node)] && #[trigger] next_node_at(
            g,
            p,
            0,
            n,
        ) ==> m[n]
}

/// Node `n` is in the least set that `cnodes_closed` describes.
pub open spec fn in_cnodes(g: Seq<Production>, k: Seq<bool>, n: int) -> bool {
    forall|m: Seq<bool>| #[trigger] cnodes_closed(g, k, m) ==> m[n]
}

/// `r` is the closure of the item set `k`: `k` together with `(p, 0)` for every production `p`
/// of a node that the closure reaches.
pub open spec fn is_closure(g: Seq<Production>, k: Seq<bool>, r: Seq<bool>) -> bool {
    &&& r.len() == g.len() * ITEM_W
    &&& forall|p: int, pos: int|
        0 <= p < g.len() && 0 <= pos < ITEM_W ==> (#[trigger] has_item(r, p, pos) <==> (has_item(
            k,
            p,
            pos,
        ) || (pos == 0 && in_cnodes(g, k, node_idx(g[p].node)))))
}

/// The items of `s` whose dot is past the start.
pub open spec fn kernel_part(s: Seq<bool>) -> Seq<bool> {
    Seq::new(s.len(), |i: int| s[i] && i % (ITEM_W as int) != 0)
}

/// The initial item set: `(p, 0)` for every production `p` of `ROOT`.
pub open spec fn init_set(g: Seq<Production>) -> Seq<bool> {
    Seq::new(
        (g.len() * ITEM_W) as nat,
        |i: int| i % (ITEM_W as int) == 0 && g[i / (ITEM_W as int)].node == NodeT::ROOT,
    )
}

/// Cells of `kernel_part` and `init_set`.
pub proof fn lemma_item_cells(g: Seq<Production>, s: Seq<bool>, p: int, pos: int)
    requires
        0 <= p < g.len(),
        0 <= pos < ITEM_W,
        s.len() == g.len() * ITEM_W,
    ensures
        has_item(kernel_part(s), p, pos) == (has_item(s, p, pos) && pos != 0),
        has_item(init_set(g), p, pos) == (pos == 0 && g[p].node == NodeT::ROOT),
        0 <= p * ITEM_W + pos < g.len() * ITEM_W,
{
    lemma_cell_in(ITEM_W as int, g.len() as int, p, pos);
    vstd::arithmetic::div_mod::lemma_fundamental_div_mod_converse(
        p * ITEM_W + pos,
        ITEM_W as int,
        p,
        pos,
    );
}

impl Item {
    /// The item with the dot at the start of production `prod`.
    pub fn new(prod: usize) -> (r: Item)
        ensures
            r == (Item { prod, pos: 0 }),
    {
        Item { prod, pos: 0 }
    }

    /// Whether the dot is at the end of the production.
    pub fn end(&self, prods: &Productions) -> (r: bool)
        requires
            self.prod < prods.table_rules@.len(),
        ensures
            r == (self.pos == prods.table_rules@[self.prod as int].v@.len()),
    {
        prods.table_rules[self.prod].v.len() == self.pos
    }

    /// The item with the dot moved one place on, if the dot is not at the end.
    pub fn inc(&self, prods: &Productions) -> (r: Option<Item>)
        requires
            self.prod < prods.table_rules@.len(),
        ensures
            self.pos < prods.table_rules@[self.prod as int].v@.len() ==> r == Some(
                Item { prod: self.prod, pos: (self.pos + 1) as usize },
            ),
            self.pos >= prods.table_rules@[self.prod as int].v@.len() ==> r is None,
    {
        if self.pos < prods.table_rules[self.prod].v.len() {
            Some(Item { prod: self.prod, pos: self.pos + 1 })
        } else {
            None
        }
    }

    /// The symbol right after the dot, if the dot is not at the end.
    pub fn next(&self, prods: &Productions) -> (r: Option<ElemT>)
        requires
            self.prod < prods.table_rules@.len(),
            self.pos <= prods.table_rules@[self.prod as int].v@.len(),
        ensures
            self.pos < prods.table_rules@[self.prod as int].v@.len() ==> r == Some(
                prods.table_rules@[self.prod as int].v@[self.pos as int],
            ),
            self.pos == prods.table_rules@[self.prod as int].v@.len() ==> r is None,
    {
        let p = &prods.table_rules[self.prod];
        if self.pos == p.v.len() {
            None
        } else {
            Some(p.v[self.pos])
        }
    }

    /// The node of the item's production.
    pub fn node(&self, prods: &Productions) -> (r: NodeT)
        requires
            self.prod < prods.table_rules@.len(),
        ensures
            r == prods.table_rules@[self.prod as int].node,
    {
        prods.table_rules[self.prod].node
    }
}

impl Productions {
    /// Indices of the productions of `node`, in increasing order.
    pub fn into_node(&self, node: &NodeT) -> (r: Vec<usize>)
        ensures
            forall|i: int| 0 <= i < r@.len() ==> #[trigger] r@[i] < self.table_rules@.len() && self.table_rules@[r@[i] as int].node == *node,
            forall|p: int| 0 <= p < self.table_rules@.len() && self.table_rules@[p].node == *node ==> r@.contains(p as usize),
            forall|i: int, j: int| 0 <= i < j < r@.len() ==> r@[i] < r@[j],
    {
        let mut r: Vec<usize> = Vec::new();
        let mut p: usize = 0;
        while p < self.table_rules.len()
            invariant
                p <= self.table_rules@.len(),
                forall|i: int| 0 <= i < r@.len() ==> #[trigger] r@[i] < p && self.table_rules@[r@[i] as int].node == *node,
                forall|q: int| 0 <= q < p && self.table_rules@[q].node == *node ==> r@.contains(q as usize),
                forall|i: int, j: int| 0 <= i < j < r@.len() ==> r@[i] < r@[j],
            decreases self.table_rules@.len() - p,
        {
            if self.table_rules[p].node == *node {
                let ghost r0 = r@;
                r.push(p);
                assert forall|q: int| 0 <= q < p + 1 && self.table_rules@[q].node == *node implies r@.contains(q as usize) by {
                    if q < p {
                        assert(r0.contains(q as usize));
                        let i = choose|i: int| 0 <= i < r0.len() && r0[i] == q as usize;
                        assert(r@[i] == q as usize);
                    } else {
                        assert(r@[r@.len() - 1] == q as usize);
                    }
                }
            }
            p = p + 1;
        }
        r
    }
}


/// The nodes that the closure of `kernel` reaches, as one flag per node.
fn closure_nodes(prods: &Productions, kernel: &Vec<bool>) -> (nodes: Vec<bool>)
    requires
        prods.wf(),
        items_ok(prods.table_rules@, kernel@),
    ensures
        nodes@.len() == NUM_NODES,
        forall|n: int| 0 <= n < NUM_NODES ==> (#[trigger] nodes@[n] <==> in_cnodes(prods.table_rules@, kernel@, n)),
{
    let ghost g = prods.table_rules@;
    let mut nodes = falses(NUM_NODES);
    let mut p: usize = 0;
    while p < prods.table_rules.len()
        invariant
            p <= g.len(),
            g == prods.table_rules@,
            rules_wf(g),
            items_ok(g, kernel@),
            nodes@.len() == NUM_NODES,
            forall|m: Seq<bool>| #[trigger] cnodes_closed(g, kernel@, m) ==> le_bits(nodes@, m),
            forall|q: int, pos: int, n: int|
                0 <= q < p && 0 <= pos < ITEM_W && 0 <= n < NUM_NODES && #[trigger] has_item(kernel@, q, pos)
                    && #[trigger] next_node_at(g, q, pos, n) ==> nodes@[n],
        decreases g.len() - p,
    {
        assert(1 <= g[p as int].v@.len() <= MAX_RHS);
        let len = prods.table_rules[p].v.len();
        let mut pos: usize = 0;
        while pos < len
            invariant
                p < g.len(),
                g == prods.table_rules@,
                rules_wf(g),
                items_ok(g, kernel@),
                len == g[p as int].v@.len(),
                len <= MAX_RHS,
                pos <= len,
                nodes@.len() == NUM_NODES,
                forall|m: Seq<bool>| #[trigger] cnodes_closed(g, kernel@, m) ==> le_bits(nodes@, m),
                forall|q: int, pos2: int, n: int|
                    0 <= q < g.len() && 0 <= pos2 < ITEM_W && 0 <= n < NUM_NODES && (q < p || (q == p && pos2 < pos)) && #[trigger] has_item(kernel@, q, pos2)
                        && #[trigger] next_node_at(g, q, pos2, n) ==> nodes@[n],
            decreases len - pos,
        {
            proof {
                lemma_item_cells(g, kernel@, p as int, pos as int);
            }
            let k = kernel[p * ITEM_W + pos];
            assert(k == has_item(kernel@, p as int, pos as int));
            if k {
                let e = prods.table_rules[p].v[pos];
                match e {
                    ElemT::Node(nt) => {
                        let n = node_index(nt);
                        assert(next_node_at(g, p as int, pos as int, n as int));
                        let ghost old_nodes = nodes@;
                        nodes.set(n, true);
                        assert forall|m: Seq<bool>| #[trigger] cnodes_closed(g, kernel@, m) implies le_bits(nodes@, m) by {
                            assert(le_bits(old_nodes, m));
                            assert(m[n as int]);
                        }
                    },
                    ElemT::Token(_) => {
                        assert forall|n: int| 0 <= n < NUM_NODES implies !#[trigger] next_node_at(g, p as int, pos as int, n) by {}
                    },
                }
            }
            pos = pos + 1;
        }
        assert forall|q: int, pos2: int, n: int|
            0 <= q < p + 1 && 0 <= pos2 < ITEM_W && 0 <= n < NUM_NODES && #[trigger] has_item(kernel@, q, pos2)
                && #[trigger] next_node_at(g, q, pos2, n) implies nodes@[n] by {
            if q == p && pos2 >= len {
                assert(!next_node_at(g, q, pos2, n));
            }
        }
        p = p + 1;
    }
    let mut done = false;
    while !done
        invariant
            g == prods.table_rules@,
            rules_wf(g),
            items_ok(g, kernel@),
            nodes@.len() == NUM_NODES,
            forall|m: Seq<bool>| #[trigger] cnodes_closed(g, kernel@, m) ==> le_bits(nodes@, m),
            forall|q: int, pos: int, n: int|
                0 <= q < g.len() && 0 <= pos < ITEM_W && 0 <= n < NUM_NODES && #[trigger] has_item(kernel@, q, pos)
                    && #[trigger] next_node_at(g, q, pos, n) ==> nodes@[n],
            done ==> forall|q: int, n: int|
                0 <= q < g.len() && 0 <= n < NUM_NODES && nodes@[node_idx(g[q].node)] && #[trigger] next_node_at(g, q, 0, n) ==> nodes@[n],
        decreases NUM_NODES - count_true(nodes@) + if done { 0int } else { 1int },
    {
        proof {
            lemma_count_bound(nodes@);
        }
        let ghost c0 = count_true(nodes@);
        let ghost n0 = nodes@;
        let mut mutated = false;
        let mut q: usize = 0;
        while q < prods.table_rules.len()
            invariant
                q <= g.len(),
                g == prods.table_rules@,
                rules_wf(g),
                nodes@.len() == NUM_NODES,
                forall|m: Seq<bool>| #[trigger] cnodes_closed(g, kernel@, m) ==> le_bits(nodes@, m),
                le_bits(n0, nodes@),
                mutated ==> count_true(nodes@) > c0,
                !mutated ==> nodes@ == n0,
                count_true(nodes@) >= c0,
                !mutated ==> forall|q2: int, n: int|
                    0 <= q2 < q && 0 <= n < NUM_NODES && nodes@[node_idx(g[q2].node)] && #[trigger] next_node_at(g, q2, 0, n) ==> nodes@[n],
            decreases g.len() - q,
        {
            assert(1 <= g[q as int].v@.len() <= MAX_RHS);
            let nd = node_index(prods.table_rules[q].node);
            let first = prods.table_rules[q].v[0];
            if nodes[nd] {
                match first {
                    ElemT::Node(nt) => {
                        let n = node_index(nt);
                        if !nodes[n] {
                            let ghost old_nodes = nodes@;
                            proof {
                                lemma_count_set(nodes@, n as int);
                            }
                            nodes.set(n, true);
                            mutated = true;
                            assert forall|m: Seq<bool>| #[trigger] cnodes_closed(g, kernel@, m) implies le_bits(nodes@, m) by {
                                assert(le_bits(old_nodes, m));
                                assert(m[nd as int]);
                                assert(next_node_at(g, q as int, 0, n as int));
                                assert(m[n as int]);
                            }
                        }
                    },
                    ElemT::Token(_) => {
                        assert forall|n: int| 0 <= n < NUM_NODES implies !#[trigger] next_node_at(g, q as int, 0, n) by {}
                    },
                }
            }
            q = q + 1;
        }
        if !mutated {
            done = true;
        }
        proof {
            lemma_count_bound(nodes@);
        }
        assert forall|q2: int, pos: int, n: int|
            0 <= q2 < g.len() && 0 <= pos < ITEM_W && 0 <= n < NUM_NODES && #[trigger] has_item(kernel@, q2, pos)
                && #[trigger] next_node_at(g, q2, pos, n) implies nodes@[n] by {
            assert(n0[n]);
        }
    }
    assert(cnodes_closed(g, kernel@, nodes@));
    assert forall|n: int| 0 <= n < NUM_NODES implies (#[trigger] nodes@[n] <==> in_cnodes(g, kernel@, n)) by {
        if nodes@[n] {
            assert forall|m: Seq<bool>| #[trigger] cnodes_closed(g, kernel@, m) implies m[n] by {
                assert(le_bits(nodes@, m));
            }
        }
    }
    nodes
}

/// The closure of an item set: adds `(p, 0)` for each production `p` of a node that stands after
/// a dot, repeatedly.
pub fn closure(prods: &Productions, kernel: &Vec<bool>) -> (items: Vec<bool>)
    requires
        prods.wf(),
        items_ok(prods.table_rules@, kernel@),
    ensures
        is_closure(prods.table_rules@, kernel@, items@),
        items_ok(prods.table_rules@, items@),
{
    let ghost g = prods.table_rules@;
    let nodes = closure_nodes(prods, kernel);
    let mut items = copy_bits(kernel);
    let mut n: usize = 0;
    while n < NUM_NODES
        invariant
            n <= NUM_NODES,
            g == prods.table_rules@,
            rules_wf(g),
            nodes@.len() == NUM_NODES,
            items@.len() == g.len() * ITEM_W,
            forall|p: int, pos: int|
                0 <= p < g.len() && 0 <= pos < ITEM_W ==> (#[trigger] has_item(items@, p, pos) <==> (has_item(
                    kernel@,
                    p,
                    pos,
                ) || (pos == 0 && node_idx(g[p].node) < n && nodes@[node_idx(g[p].node)]))),
        decreases NUM_NODES - n,
    {
        if nodes[n] {
            let nt = node_of_index(n);
            let ps = prods.into_node(&nt);
            let mut j: usize = 0;
            while j < ps.len()
                invariant
                    j <= ps@.len(),
                    n < NUM_NODES,
                    g == prods.table_rules@,
                    rules_wf(g),
                    node_idx(nt) == n,
                    nodes@[n as int],
                    nodes@.len() == NUM_NODES,
                    items@.len() == g.len() * ITEM_W,
                    forall|i: int| 0 <= i < ps@.len() ==> #[trigger] ps@[i] < g.len() && g[ps@[i] as int].node == nt,
                    forall|p: int, pos: int|
                        0 <= p < g.len() && 0 <= pos < ITEM_W ==> (#[trigger] has_item(items@, p, pos) <==> (has_item(
                            kernel@,
                            p,
                            pos,
                        ) || (pos == 0 && node_idx(g[p].node) < n && nodes@[node_idx(g[p].node)])
                          || (pos == 0 && exists|i: int| 0 <= i < j && #[trigger] ps@[i] == p))),
                decreases ps@.len() - j,
            {
                let p = ps[j];
                let ghost old_items = items@;
                proof {
                    lemma_cell_set(items@, ITEM_W as int, g.len() as int, p as int, 0);
                }
                items.set(p * ITEM_W, true);
                assert forall|q: int, pos: int|
                    0 <= q < g.len() && 0 <= pos < ITEM_W implies (#[trigger] has_item(items@, q, pos) <==> (has_item(
                        kernel@,
                        q,
                        pos,
                    ) || (pos == 0 && node_idx(g[q].node) < n && nodes@[node_idx(g[q].node)])
                      || (pos == 0 && exists|i: int| 0 <= i < j + 1 && #[trigger] ps@[i] == q))) by {
                    assert(has_item(old_items, q, pos) <==> (has_item(
                        kernel@,
                        q,
                        pos,
                    ) || (pos == 0 && node_idx(g[q].node) < n && nodes@[node_idx(g[q].node)])
                      || (pos == 0 && exists|i: int| 0 <= i < j && #[trigger] ps@[i] == q)));
                    assert(has_item(items@, q, pos) == (has_item(old_items, q, pos) || (q == p && pos == 0)));
                    if pos == 0 && q == p {
                        assert(ps@[j as int] == q);
                    }
                    if exists|i: int| 0 <= i < j + 1 && #[trigger] ps@[i] == q {
                        let i = choose|i: int| 0 <= i < j + 1 && #[trigger] ps@[i] == q;
                        if i < j {
                            assert(exists|i: int| 0 <= i < j && #[trigger] ps@[i] == q);
                        }
                    }
                    if exists|i: int| 0 <= i < j && #[trigger] ps@[i] == q {
                        let i = choose|i: int| 0 <= i < j && #[trigger] ps@[i] == q;
                        assert(exists|i: int| 0 <= i < j + 1 && #[trigger] ps@[i] == q);
                    }
                }
                j = j + 1;
            }
            assert forall|p: int, pos: int|
                0 <= p < g.len() && 0 <= pos < ITEM_W implies (#[trigger] has_item(items@, p, pos) <==> (has_item(
                    kernel@,
                    p,
                    pos,
                ) || (pos == 0 && node_idx(g[p].node) < n + 1 && nodes@[node_idx(g[p].node)]))) by {
                if pos == 0 && node_idx(g[p].node) == n {
                    lemma_node_idx(g[p].node);
                    lemma_node_idx(nt);
                    assert(ps@.contains(p as usize));
                    let i = choose|i: int| 0 <= i < ps@.len() && ps@[i] == p as usize;
                    assert(ps@[i] == p);
                }
                if exists|i: int| 0 <= i < ps@.len() && #[trigger] ps@[i] == p {
                    let i = choose|i: int| 0 <= i < ps@.len() && #[trigger] ps@[i] == p;
                    assert(g[p].node == nt);
                }
            }
        }
        n = n + 1;
    }
    assert forall|p: int, pos: int|
        0 <= p < g.len() && 0 <= pos < ITEM_W && #[trigger] has_item(items@, p, pos) implies pos <= g[p].v@.len() by {
        assert(1 <= g[p].v@.len());
    }
    assert forall|p: int, pos: int|
        0 <= p < g.len() && 0 <= pos < ITEM_W implies (#[trigger] has_item(items@, p, pos) <==> (has_item(
            kernel@,
            p,
            pos,
        ) || (pos == 0 && in_cnodes(g, kernel@, node_idx(g[p].node))))) by {
        lemma_node_idx(g[p].node);
    }
    items
}

/// A copy of a boolean vector.
pub fn copy_bits(v: &Vec<bool>) -> (r: Vec<bool>)
    ensures
        r@ == v@,
{
    let mut r: Vec<bool> = Vec::new();
    let mut i: usize = 0;
    while i < v.len()
        invariant
            i <= v@.len(),
            r@ == v@.subrange(0, i as int),
        decreases v@.len() - i,
    {
        r.push(v[i]);
        i = i + 1;
    }
    assert(r@ =~= v@);
    r
}


/// Some item of `s` has the symbol with index `x` right after its dot.
pub open spec fn has_next(g: Seq<Production>, s: Seq<bool>, x: int) -> bool {
    exists|p: int, pos: int|
        0 <= p < g.len() && 0 <= pos < g[p].v@.len() && #[trigger] has_item(s, p, pos) && sym_idx(
            g[p].v@[pos],
        ) == x
}

/// `k` is the item set reached from `s` over the symbol with index `x`: the items of `s` with
/// `x` after the dot, with the dot moved past it.
pub open spec fn is_goto(g: Seq<Production>, s: Seq<bool>, x: int, k: Seq<bool>) -> bool {
    &&& k.len() == g.len() * ITEM_W
    &&& forall|p: int, pos: int|
        0 <= p < g.len() && 0 <= pos < ITEM_W ==> (#[trigger] has_item(k, p, pos) <==> (1 <= pos
            <= g[p].v@.len() && has_item(s, p, pos - 1) && sym_idx(g[p].v@[pos - 1]) == x))
}

/// Production `p` is complete in `s` and the symbol with index `x` may follow its node.
pub open spec fn reducible(g: Seq<Production>, f: Seq<bool>, s: Seq<bool>, p: int, x: int) -> bool {
    0 <= p < g.len() && has_item(s, p, g[p].v@.len() as int) && cell(
        f,
        NUM_SYMBOLS as int,
        node_idx(g[p].node),
        x,
    )
}

/// The table entry `e` of a state with items `s` on the symbol with index `x`: a shift to a
/// state whose kernel is the goto set when some item has `x` after its dot; otherwise a reduce
/// by the first production that `reducible` admits, or none.
pub open spec fn edge_val_ok(
    g: Seq<Production>,
    f: Seq<bool>,
    st: Seq<State>,
    s: Seq<bool>,
    x: int,
    e: Option<Action>,
) -> bool {
    if has_next(g, s, x) {
        e matches Some(Action::Shift(j)) && j < st.len() && is_goto(
            g,
            s,
            x,
            kernel_part(st[j as int].items@),
        )
    } else {
        match e {
            Some(Action::Reduce(p)) => reducible(g, f, s, p as int, x) && forall|q: int|
                0 <= q < p ==> !#[trigger] reducible(g, f, s, q, x),
            Some(Action::Shift(_)) => false,
            None => forall|q: int| 0 <= q < g.len() ==> !#[trigger] reducible(g, f, s, q, x),
        }
    }
}

/// All entries of state `i` are as `edge_val_ok` describes.
pub open spec fn edges_done(g: Seq<Production>, f: Seq<bool>, st: Seq<State>, i: int) -> bool {
    &&& st[i].edges@.len() == NUM_SYMBOLS
    &&& forall|x: int| 0 <= x < NUM_SYMBOLS ==> #[trigger] edge_val_ok(g, f, st, st[i].items@, x, st[i].edges@[x])
}

/// State `j` holds the closure of the initial set when it is the first state, and otherwise
/// the closure of its own kernel.
pub open spec fn state_items_ok(g: Seq<Production>, st: Seq<State>, j: int) -> bool {
    &&& items_ok(g, st[j].items@)
    &&& if j == 0 {
        is_closure(g, init_set(g), st[j].items@)
    } else {
        is_closure(g, kernel_part(st[j].items@), st[j].items@)
    }
}

/// The LR(0) automaton with SLR(1) entries: the first state closes the initial set, every state
/// is closed, no two states share a kernel, and all entries are filled as `edge_val_ok` says.
pub open spec fn table_ok(g: Seq<Production>, f: Seq<bool>, t: Seq<State>) -> bool {
    &&& t.len() >= 1
    &&& forall|j: int| 0 <= j < t.len() ==> #[trigger] state_items_ok(g, t, j)
    &&& forall|i: int, j: int| 0 <= i < j < t.len() ==> kernel_part(#[trigger] t[i].items@) != kernel_part(#[trigger] t[j].items@)
    &&& forall|j: int| 0 <= j < t.len() ==> #[trigger] edges_done(g, f, t, j)
}

/// A state of the automaton: its item set and its row of the parse table, indexed by symbol.
pub struct State {
    pub items: Vec<bool>,
    pub edges: Vec<Option<Action>>,
}

/// The parse table: one state per row.
pub type ParseTable = Vec<State>;

/// The states built so far, with the kernel of each as its key.
pub struct States {
    pub map: Vec<Vec<bool>>,
    pub v: Vec<State>,
}

/// The keys are the kernels of the states, the states are closed, and no two keys are equal.
pub open spec fn states_inv(g: Seq<Production>, st: States) -> bool {
    &&& st.map@.len() == st.v@.len()
    &&& forall|j: int| 0 <= j < st.v@.len() ==> (#[trigger] st.map@[j])@ == kernel_part(st.v@[j].items@)
    &&& forall|j: int| 0 <= j < st.v@.len() ==> #[trigger] state_items_ok(g, st.v@, j)
    &&& forall|i: int, j: int| 0 <= i < j < st.v@.len() ==> (#[trigger] st.map@[i])@ != (#[trigger] st.map@[j])@
}

/// Entries stay valid when states are appended.
pub proof fn lemma_edge_extend(g: Seq<Production>, f: Seq<bool>, st1: Seq<State>, st2: Seq<State>, s: Seq<bool>, x: int, e: Option<Action>)
    requires
        edge_val_ok(g, f, st1, s, x, e),
        st1.len() <= st2.len(),
        forall|j: int| 0 <= j < st1.len() ==> (#[trigger] st2[j]).items@ == st1[j].items@,
    ensures
        edge_val_ok(g, f, st2, s, x, e),
{
    if has_next(g, s, x) {
        if let Some(Action::Shift(j)) = e {
            assert(st2[j as int].items@ == st1[j as int].items@);
        }
    }
}

/// The states' count is bounded by the number of possible kernels.
pub proof fn lemma_states_bound(g: Seq<Production>, st: States, extra: Seq<bool>)
    requires
        states_inv(g, st),
        extra.len() == g.len() * ITEM_W,
        forall|j: int| 0 <= j < st.map@.len() ==> (#[trigger] st.map@[j])@ != extra,
    ensures
        st.v@.len() + 1 <= two_pow((g.len() * ITEM_W) as nat),
{
    let ks = st.map@.map_values(|v: Vec<bool>| v@).push(extra);
    assert forall|i: int| 0 <= i < ks.len() implies (#[trigger] ks[i]).len() == g.len() * ITEM_W by {
        if i < st.map@.len() {
            assert(ks[i] == st.map@[i]@);
            assert(st.map@[i]@ == kernel_part(st.v@[i].items@));
            assert(state_items_ok(g, st.v@, i));
        }
    }
    assert(ks.no_duplicates()) by {
        assert forall|i: int, j: int| 0 <= i < ks.len() && 0 <= j < ks.len() && i != j implies ks[i] != ks[j] by {
            if i < st.map@.len() && j < st.map@.len() {
                if i < j {
                    assert(st.map@[i]@ != st.map@[j]@);
                } else {
                    assert(st.map@[j]@ != st.map@[i]@);
                }
            } else if i < st.map@.len() {
                assert(ks[j] == extra);
                assert(st.map@[i]@ != extra);
            } else {
                assert(ks[i] == extra);
                assert(st.map@[j]@ != extra);
            }
        }
    }
    lemma_distinct_bound(ks, (g.len() * ITEM_W) as nat);
}

/// Two boolean vectors are equal.
fn bits_eq(a: &Vec<bool>, b: &Vec<bool>) -> (r: bool)
    ensures
        r == (a@ == b@),
{
    if a.len() != b.len() {
        return false;
    }
    let mut i: usize = 0;
    while i < a.len()
        invariant
            i <= a@.len(),
            a@.len() == b@.len(),
            forall|j: int| 0 <= j < i ==> a@[j] == b@[j],
        decreases a@.len() - i,
    {
        if a[i] != b[i] {
            return false;
        }
        i = i + 1;
    }
    assert(a@ =~= b@);
    true
}

impl State {
    /// The items of this state with the symbol `x` after the dot, with the dot moved past it.
    pub fn get_inheritances(&self, prods: &Productions, x: &ElemT) -> (r: Vec<bool>)
        requires
            prods.wf(),
            items_ok(prods.table_rules@, self.items@),
        ensures
            is_goto(prods.table_rules@, self.items@, sym_idx(*x), r@),
            items_ok(prods.table_rules@, r@),
            r@ == kernel_part(r@),
    {
        let ghost g = prods.table_rules@;
        let sx = symbol_index(*x);
        let mut r = falses(prods.table_rules.len() * ITEM_W);
        let mut p: usize = 0;
        while p < prods.table_rules.len()
            invariant
                p <= g.len(),
                g == prods.table_rules@,
                rules_wf(g),
                items_ok(g, self.items@),
                sx == sym_idx(*x),
                r@.len() == g.len() * ITEM_W,
                forall|q: int, pos: int|
                    0 <= q < g.len() && 0 <= pos < ITEM_W ==> (#[trigger] has_item(r@, q, pos) <==> (q < p && 1 <= pos
                        <= g[q].v@.len() && has_item(self.items@, q, pos - 1) && sym_idx(g[q].v@[pos - 1]) == sx)),
            decreases g.len() - p,
        {
            assert(1 <= g[p as int].v@.len() <= MAX_RHS);
            let len = prods.table_rules[p].v.len();
            let mut pos: usize = 0;
            while pos < len
                invariant
                    p < g.len(),
                    g == prods.table_rules@,
                    rules_wf(g),
                    items_ok(g, self.items@),
                    len == g[p as int].v@.len(),
                    len <= MAX_RHS,
                    pos <= len,
                    sx == sym_idx(*x),
                    r@.len() == g.len() * ITEM_W,
                    forall|q: int, pos2: int|
                        0 <= q < g.len() && 0 <= pos2 < ITEM_W ==> (#[trigger] has_item(r@, q, pos2) <==> ((q < p || (q == p && pos2 <= pos)) && 1 <= pos2
                            <= g[q].v@.len() && has_item(self.items@, q, pos2 - 1) && sym_idx(g[q].v@[pos2 - 1]) == sx)),
                decreases len - pos,
            {
                proof {
                    lemma_item_cells(g, self.items@, p as int, pos as int);
                }
                let it = Item { prod: p, pos };
                let present = self.items[p * ITEM_W + pos];
                assert(present == has_item(self.items@, p as int, pos as int));
                let ghost r0 = r@;
                let ghost hit = present && sym_idx(g[p as int].v@[pos as int]) == sx;
                if present {
                    if let Some(y) = it.next(prods) {
                        if symbol_index(y) == sx {
                            if let Some(ni) = it.inc(prods) {
                                proof {
                                    lemma_cell_set(r@, ITEM_W as int, g.len() as int, p as int, pos + 1);
                                }
                                r.set(ni.prod * ITEM_W + ni.pos, true);
                            }
                        }
                    }
                }
                proof {
                    lemma_cell_set(r0, ITEM_W as int, g.len() as int, p as int, pos + 1);
                    if hit {
                        assert(r@ == r0.update(p * ITEM_W + pos + 1, true));
                    } else {
                        assert(r@ == r0);
                    }
                    assert forall|q: int, pos2: int|
                        0 <= q < g.len() && 0 <= pos2 < ITEM_W implies (#[trigger] has_item(r@, q, pos2) <==> ((q < p || (q == p && pos2 <= pos + 1)) && 1 <= pos2
                            <= g[q].v@.len() && has_item(self.items@, q, pos2 - 1) && sym_idx(g[q].v@[pos2 - 1]) == sx)) by {
                        assert(has_item(r0, q, pos2) <==> ((q < p || (q == p && pos2 <= pos)) && 1 <= pos2
                            <= g[q].v@.len() && has_item(self.items@, q, pos2 - 1) && sym_idx(g[q].v@[pos2 - 1]) == sx));
                    }
                }
                pos = pos + 1;
            }
            p = p + 1;
        }
        assert forall|q: int, pos: int|
            0 <= q < g.len() && 0 <= pos < ITEM_W && #[trigger] has_item(r@, q, pos) implies pos <= g[q].v@.len() by {}
        assert forall|i: int| 0 <= i < r@.len() implies r@[i] == #[trigger] kernel_part(r@)[i] by {
            lemma_index_split(i, ITEM_W as int, g.len() as int);
            let q = i / (ITEM_W as int);
            let pos = i % (ITEM_W as int);
            lemma_item_cells(g, r@, q, pos);
            assert(i == q * ITEM_W + pos);
            assert(kernel_part(r@)[i] == has_item(kernel_part(r@), q, pos));
            assert(r@[i] == has_item(r@, q, pos));
            if pos == 0 {
                assert(!has_item(r@, q, 0));
            }
        }
        assert(r@ =~= kernel_part(r@));
        r
    }

    /// The kernel of an item set: the items whose dot is past the start.
    pub fn to_hash(items: &Vec<bool>) -> (r: Vec<bool>)
        ensures
            r@ == kernel_part(items@),
    {
        let mut r: Vec<bool> = Vec::new();
        let mut i: usize = 0;
        while i < items.len()
            invariant
                i <= items@.len(),
                r@ == kernel_part(items@).subrange(0, i as int),
            decreases items@.len() - i,
        {
            r.push(items[i] && i % ITEM_W != 0);
            i = i + 1;
        }
        assert(r@ =~= kernel_part(items@));
        r
    }

    /// The kernel of this state.
    pub fn make_hash(&self) -> (r: Vec<bool>)
        ensures
            r@ == kernel_part(self.items@),
    {
        Self::to_hash(&self.items)
    }
}

/// Whether some item of `items` has the symbol with index `x` after its dot.
fn has_next_sym(prods: &Productions, items: &Vec<bool>, x: usize) -> (r: bool)
    requires
        prods.wf(),
        items_ok(prods.table_rules@, items@),
    ensures
        r == has_next(prods.table_rules@, items@, x as int),
{
    let ghost g = prods.table_rules@;
    let mut p: usize = 0;
    while p < prods.table_rules.len()
        invariant
            p <= g.len(),
            g == prods.table_rules@,
            rules_wf(g),
            items_ok(g, items@),
            forall|q: int, pos: int|
                0 <= q < p && 0 <= pos < g[q].v@.len() && #[trigger] has_item(items@, q, pos) ==> sym_idx(g[q].v@[pos]) != x,
        decreases g.len() - p,
    {
        assert(1 <= g[p as int].v@.len() <= MAX_RHS);
        let len = prods.table_rules[p].v.len();
        let mut pos: usize = 0;
        while pos < len
            invariant
                p < g.len(),
                g == prods.table_rules@,
                rules_wf(g),
                items_ok(g, items@),
                len == g[p as int].v@.len(),
                len <= MAX_RHS,
                pos <= len,
                forall|q: int, pos2: int|
                    0 <= q < g.len() && 0 <= pos2 < g[q].v@.len() && (q < p || (q == p && pos2 < pos)) && #[trigger] has_item(items@, q, pos2) ==> sym_idx(g[q].v@[pos2]) != x,
            decreases len - pos,
        {
            proof {
                lemma_item_cells(g, items@, p as int, pos as int);
            }
            let present = items[p * ITEM_W + pos];
            assert(present == has_item(items@, p as int, pos as int));
            if present && symbol_index(prods.table_rules[p].v[pos]) == x {
                return true;
            }
            pos = pos + 1;
        }
        p = p + 1;
    }
    false
}

/// The first production that is complete in `items` and whose node the symbol with index `x`
/// may follow.
fn reduce_for(prods: &Productions, items: &Vec<bool>, x: usize) -> (r: Option<usize>)
    requires
        prods.wf(),
        items_ok(prods.table_rules@, items@),
        x < NUM_SYMBOLS,
    ensures
        match r {
            Some(p) => reducible(prods.table_rules@, prods.follows@, items@, p as int, x as int) && forall|q: int|
                0 <= q < p ==> !#[trigger] reducible(prods.table_rules@, prods.follows@, items@, q, x as int),
            None => forall|q: int| 0 <= q < prods.table_rules@.len() ==> !#[trigger] reducible(prods.table_rules@, prods.follows@, items@, q, x as int),
        },
{
    let ghost g = prods.table_rules@;
    let mut p: usize = 0;
    while p < prods.table_rules.len()
        invariant
            p <= g.len(),
            g == prods.table_rules@,
            rules_wf(g),
            x < NUM_SYMBOLS,
            items_ok(g, items@),
            prods.follows@.len() == NUM_NODES * NUM_SYMBOLS,
            forall|q: int| 0 <= q < p ==> !#[trigger] reducible(g, prods.follows@, items@, q, x as int),
        decreases g.len() - p,
    {
        assert(1 <= g[p as int].v@.len() <= MAX_RHS);
        let it = Item { prod: p, pos: prods.table_rules[p].v.len() };
        proof {
            lemma_item_cells(g, items@, p as int, it.pos as int);
        }
        let nd = node_index(it.node(prods));
        proof {
            lemma_cell_in(NUM_SYMBOLS as int, NUM_NODES as int, nd as int, x as int);
        }
        let complete = items[p * ITEM_W + it.pos];
        let follows = prods.follows[nd * NUM_SYMBOLS + x];
        assert(complete == has_item(items@, p as int, g[p as int].v@.len() as int));
        assert(follows == cell(prods.follows@, NUM_SYMBOLS as int, nd as int, x as int));
        if complete && follows {
            return Some(p);
        }
        p = p + 1;
    }
    None
}


/// The kernel of the closure of a set of items whose dots are all past the start is that set.
pub proof fn lemma_closure_kernel(g: Seq<Production>, k: Seq<bool>, r: Seq<bool>)
    requires
        is_closure(g, k, r),
        k.len() == g.len() * ITEM_W,
    ensures
        kernel_part(r) == kernel_part(k),
{
    assert forall|i: int| 0 <= i < r.len() implies #[trigger] kernel_part(r)[i] == kernel_part(k)[i] by {
        lemma_index_split(i, ITEM_W as int, g.len() as int);
        let q = i / (ITEM_W as int);
        let pos = i % (ITEM_W as int);
        lemma_item_cells(g, r, q, pos);
        lemma_item_cells(g, k, q, pos);
        assert(kernel_part(r)[i] == has_item(kernel_part(r), q, pos));
        assert(kernel_part(k)[i] == has_item(kernel_part(k), q, pos));
    }
    assert(kernel_part(r) =~= kernel_part(k));
}

/// The initial set has no item whose dot is past the start.
pub proof fn lemma_init_kernel(g: Seq<Production>)
    ensures
        init_set(g).len() == g.len() * ITEM_W,
        forall|i: int| 0 <= i < g.len() * ITEM_W ==> !#[trigger] kernel_part(init_set(g))[i],
{
    assert forall|i: int| 0 <= i < g.len() * ITEM_W implies !#[trigger] kernel_part(init_set(g))[i] by {
        lemma_index_split(i, ITEM_W as int, g.len() as int);
        let q = i / (ITEM_W as int);
        let pos = i % (ITEM_W as int);
        lemma_item_cells(g, init_set(g), q, pos);
        assert(kernel_part(init_set(g))[i] == has_item(kernel_part(init_set(g)), q, pos));
    }
}

/// The initial item set as a vector.
fn init_items(prods: &Productions) -> (r: Vec<bool>)
    requires
        prods.wf(),
    ensures
        r@ == init_set(prods.table_rules@),
        items_ok(prods.table_rules@, r@),
{
    let ghost g = prods.table_rules@;
    let mut r: Vec<bool> = Vec::new();
    let mut i: usize = 0;
    let n = prods.table_rules.len() * ITEM_W;
    while i < n
        invariant
            i <= n,
            n == g.len() * ITEM_W,
            g == prods.table_rules@,
            rules_wf(g),
            r@ == init_set(g).subrange(0, i as int),
        decreases n - i,
    {
        proof {
            lemma_index_split(i as int, ITEM_W as int, g.len() as int);
        }
        r.push(i % ITEM_W == 0 && prods.table_rules[i / ITEM_W].node == NodeT::ROOT);
        i = i + 1;
    }
    assert(r@ =~= init_set(g));
    assert forall|p: int, pos: int|
        0 <= p < g.len() && 0 <= pos < ITEM_W && #[trigger] has_item(r@, p, pos) implies pos <= g[p].v@.len() by {
        lemma_item_cells(g, r@, p, pos);
    }
    r
}

impl States {
    /// Appends a state, keyed by its kernel, and returns its index.
    pub fn add(&mut self, state: State) -> (index: usize)
        requires
            old(self).map@.len() == old(self).v@.len(),
        ensures
            index == old(self).v@.len(),
            final(self).v@ == old(self).v@.push(state),
            final(self).map@.len() == final(self).v@.len(),
            final(self).map@.subrange(0, index as int) == old(self).map@,
            final(self).map@[index as int]@ == kernel_part(state.items@),
    {
        let key = state.make_hash();
        self.v.push(state);
        let index = self.v.len() - 1;
        self.map.push(key);
        assert(self.map@.subrange(0, index as int) =~= old(self).map@);
        index
    }

    /// The index of the state whose kernel is the kernel of `ni`, if there is one.
    pub fn get(&self, ni: &Vec<bool>) -> (r: Option<usize>)
        ensures
            match r {
                Some(j) => j < self.map@.len() && self.map@[j as int]@ == kernel_part(ni@),
                None => forall|j: int| 0 <= j < self.map@.len() ==> (#[trigger] self.map@[j])@ != kernel_part(ni@),
            },
    {
        let key = State::to_hash(ni);
        let mut j: usize = 0;
        while j < self.map.len()
            invariant
                j <= self.map@.len(),
                key@ == kernel_part(ni@),
                forall|i: int| 0 <= i < j ==> (#[trigger] self.map@[i])@ != kernel_part(ni@),
            decreases self.map@.len() - j,
        {
            if bits_eq(&self.map[j], &key) {
                return Some(j);
            }
            j = j + 1;
        }
        None
    }
}

/// Reduce entries for every symbol, before shifts are filled in.
fn reduce_row(prods: &Productions, items: &Vec<bool>) -> (edges: Vec<Option<Action>>)
    requires
        prods.wf(),
        items_ok(prods.table_rules@, items@),
    ensures
        edges@.len() == NUM_SYMBOLS,
        forall|x: int| 0 <= x < NUM_SYMBOLS ==> #[trigger] reduce_val_ok(prods.table_rules@, prods.follows@, items@, x, edges@[x]),
{
    let mut edges: Vec<Option<Action>> = Vec::new();
    let mut x: usize = 0;
    while x < NUM_SYMBOLS
        invariant
            x <= NUM_SYMBOLS,
            prods.wf(),
            items_ok(prods.table_rules@, items@),
            edges@.len() == x,
            forall|y: int| 0 <= y < x ==> #[trigger] reduce_val_ok(prods.table_rules@, prods.follows@, items@, y, edges@[y]),
        decreases NUM_SYMBOLS - x,
    {
        let e = match reduce_for(prods, items, x) {
            Some(p) => Some(Action::Reduce(p)),
            None => None,
        };
        edges.push(e);
        x = x + 1;
    }
    edges
}

/// The entry `e` is the reduce entry that `edge_val_ok` asks for when no item has `x` after its dot.
pub open spec fn reduce_val_ok(g: Seq<Production>, f: Seq<bool>, s: Seq<bool>, x: int, e: Option<Action>) -> bool {
    match e {
        Some(Action::Reduce(p)) => reducible(g, f, s, p as int, x) && forall|q: int|
            0 <= q < p ==> !#[trigger] reducible(g, f, s, q, x),
        Some(Action::Shift(_)) => false,
        None => forall|q: int| 0 <= q < g.len() ==> !#[trigger] reducible(g, f, s, q, x),
    }
}

/// The closure of the item set `k`.
pub open spec fn closure_set(g: Seq<Production>, k: Seq<bool>) -> Seq<bool> {
    choose|r: Seq<bool>| is_closure(g, k, r)
}

/// The item set reached from `s` over the symbol with index `x`.
pub open spec fn goto_set(g: Seq<Production>, s: Seq<bool>, x: int) -> Seq<bool> {
    choose|k: Seq<bool>| is_goto(g, s, x, k)
}

/// The kernels of the states in the order a depth-first walk discovers them: the walk adds the
/// state of item set `k` to the kernels `ks` found so far, then follows the symbols in index
/// order from its closure. `fuel` bounds the depth of the walk.
pub open spec fn discover_state(g: Seq<Production>, fuel: nat, ks: Seq<Seq<bool>>, k: Seq<bool>) -> Seq<Seq<bool>>
    decreases fuel, 0int,
{
    if fuel == 0 {
        ks
    } else {
        discover_syms(g, (fuel - 1) as nat, ks.push(kernel_part(k)), closure_set(g, k), 0)
    }
}

/// The walk over the symbols from index `x` on out of the state with items `items`: a symbol
/// that some item has after its dot leads to a state, which the walk discovers unless its
/// kernel is among the kernels `ks` found so far.
pub open spec fn discover_syms(g: Seq<Production>, fuel: nat, ks: Seq<Seq<bool>>, items: Seq<bool>, x: int) -> Seq<Seq<bool>>
    decreases fuel, NUM_SYMBOLS - x,
{
    if 0 <= x < NUM_SYMBOLS {
        let ks2 = if has_next(g, items, x) {
            let ni = goto_set(g, items, x);
            if ks.contains(kernel_part(ni)) {
                ks
            } else {
                discover_state(g, fuel, ks, ni)
            }
        } else {
            ks
        };
        discover_syms(g, fuel, ks2, items, x + 1)
    } else {
        ks
    }
}

/// The kernels of the automaton's states in the order the depth-first walk from the initial
/// set discovers them.
pub open spec fn discovery_order(g: Seq<Production>) -> Seq<Seq<bool>> {
    discover_state(g, two_pow((g.len() * ITEM_W) as nat), seq![], init_set(g))
}

/// The states of `t` stand in the order the depth-first walk from the initial set discovers
/// them: the walk follows the symbols in index order, and a state is numbered when first
/// reached.
pub open spec fn in_discovery_order(g: Seq<Production>, t: Seq<State>) -> bool {
    &&& t.len() == discovery_order(g).len()
    &&& forall|j: int| 0 <= j < t.len() ==> kernel_part(#[trigger] t[j].items@) == discovery_order(g)[j]
}

/// The kernels of the states built so far, in order.
pub open spec fn state_keys(st: States) -> Seq<Seq<bool>> {
    st.map@.map_values(|v: Vec<bool>| v@)
}

/// An item set has one closure.
pub proof fn lemma_closure_unique(g: Seq<Production>, k: Seq<bool>, r: Seq<bool>)
    requires
        is_closure(g, k, r),
    ensures
        closure_set(g, k) == r,
{
    let c = closure_set(g, k);
    assert(is_closure(g, k, c));
    assert forall|i: int| 0 <= i < r.len() implies #[trigger] c[i] == r[i] by {
        lemma_index_split(i, ITEM_W as int, g.len() as int);
        let q = i / (ITEM_W as int);
        let pos = i % (ITEM_W as int);
        assert(has_item(c, q, pos) == has_item(r, q, pos));
    }
    assert(c =~= r);
}

/// An item set goes to one item set over a symbol.
pub proof fn lemma_goto_unique(g: Seq<Production>, s: Seq<bool>, x: int, k: Seq<bool>)
    requires
        is_goto(g, s, x, k),
    ensures
        goto_set(g, s, x) == k,
{
    let c = goto_set(g, s, x);
    assert(is_goto(g, s, x, c));
    assert forall|i: int| 0 <= i < k.len() implies #[trigger] c[i] == k[i] by {
        lemma_index_split(i, ITEM_W as int, g.len() as int);
        let q = i / (ITEM_W as int);
        let pos = i % (ITEM_W as int);
        assert(has_item(c, q, pos) == has_item(k, q, pos));
    }
    assert(c =~= k);
}

/// Builds the state for the item set `inherits` and, depth first, every state reachable from
/// it that is not built yet; fills in their table rows. Returns the new state's index.
fn make_state(prods: &Productions, states: &mut States, inherits: Vec<bool>, Ghost(fuel): Ghost<nat>) -> (index: usize)
    requires
        prods.wf(),
        fuel + old(states).v@.len() >= two_pow((prods.table_rules@.len() * ITEM_W) as nat),
        states_inv(prods.table_rules@, *old(states)),
        items_ok(prods.table_rules@, inherits@),
        (old(states).v@.len() == 0 && inherits@ == init_set(prods.table_rules@)) || (old(states).v@.len() > 0
            && inherits@ == kernel_part(inherits@) && forall|j: int|
            0 <= j < old(states).map@.len() ==> (#[trigger] old(states).map@[j])@ != inherits@),
    ensures
        index == old(states).v@.len(),
        states_inv(prods.table_rules@, *final(states)),
        final(states).v@.len() > index,
        forall|j: int| 0 <= j < index ==> #[trigger] final(states).v@[j] == old(states).v@[j],
        forall|j: int| 0 <= j < index ==> #[trigger] final(states).map@[j] == old(states).map@[j],
        forall|j: int| index <= j < final(states).v@.len() ==> #[trigger] edges_done(prods.table_rules@, prods.follows@, final(states).v@, j),
        is_closure(prods.table_rules@, inherits@, final(states).v@[index as int].items@),
        state_keys(*final(states)) == discover_state(prods.table_rules@, fuel, state_keys(*old(states)), inherits@),
    decreases two_pow((prods.table_rules@.len() * ITEM_W) as nat) - old(states).v@.len(),
{
    let ghost g = prods.table_rules@;
    let ghost f = prods.follows@;
    let items = closure(prods, &inherits);
    proof {
        lemma_closure_kernel(g, inherits@, items@);
        if old(states).v@.len() == 0 {
            lemma_init_kernel(g);
        }
        lemma_states_bound(g, *states, kernel_part(items@));
        lemma_closure_unique(g, inherits@, items@);
    }
    let ghost bound = two_pow((g.len() * ITEM_W) as nat);
    let ghost fu = (fuel - 1) as nat;
    let index = states.add(State { items: copy_bits(&items), edges: Vec::new() });
    assert(state_keys(*states) =~= state_keys(*old(states)).push(kernel_part(inherits@))) by {
        lemma_closure_kernel(g, inherits@, items@);
        assert forall|j: int| 0 <= j < index implies #[trigger] states.map@[j] == old(states).map@[j] by {
            assert(states.map@[j] == states.map@.subrange(0, index as int)[j]);
        }
    }
    proof {
        assert forall|j: int| 0 <= j < states.v@.len() implies #[trigger] state_items_ok(g, states.v@, j) by {
            if j < index {
                assert(states.v@[j] == old(states).v@[j]);
                assert(state_items_ok(g, old(states).v@, j));
            } else {
                assert(states.v@[j].items@ == items@);
                if j > 0 {
                    assert(kernel_part(items@) == inherits@);
                }
            }
        }
        assert forall|j: int| 0 <= j < states.v@.len() implies (#[trigger] states.map@[j])@ == kernel_part(states.v@[j].items@) by {
            if j < index {
                assert(states.map@[j] == states.map@.subrange(0, index as int)[j]);
            }
        }
        assert forall|i: int, j: int| 0 <= i < j < states.v@.len() implies (#[trigger] states.map@[i])@ != (#[trigger] states.map@[j])@ by {
            assert(states.map@[i] == states.map@.subrange(0, index as int)[i]);
            if j < index {
                assert(states.map@[j] == states.map@.subrange(0, index as int)[j]);
            } else {
                if index > 0 {
                    assert(old(states).map@[i]@ != inherits@);
                } 
            }
        }
    }
    let ghost base = *states;
    let mut edges = reduce_row(prods, &items);
    let mut x: usize = 0;
    while x < NUM_SYMBOLS
        invariant
            x <= NUM_SYMBOLS,
            prods.wf(),
            g == prods.table_rules@,
            f == prods.follows@,
            items_ok(g, items@),
            is_closure(g, inherits@, items@),
            index < base.v@.len(),
            base.v@.len() == index + 1,
            base.v@[index as int].items@ == items@,
            states_inv(g, *states),
            states.v@.len() >= base.v@.len(),
            forall|j: int| 0 <= j < base.v@.len() ==> #[trigger] states.v@[j] == base.v@[j],
            forall|j: int| 0 <= j < base.v@.len() ==> #[trigger] states.map@[j] == base.map@[j],
            forall|j: int| base.v@.len() <= j < states.v@.len() ==> #[trigger] edges_done(g, f, states.v@, j),
            edges@.len() == NUM_SYMBOLS,
            forall|y: int| 0 <= y < x ==> #[trigger] edge_val_ok(g, f, states.v@, items@, y, edges@[y]),
            forall|y: int| x <= y < NUM_SYMBOLS ==> #[trigger] reduce_val_ok(g, f, items@, y, edges@[y]),
            forall|j: int| 0 <= j < index ==> #[trigger] base.v@[j] == old(states).v@[j],
            forall|j: int| 0 <= j < index ==> #[trigger] base.map@[j] == old(states).map@[j],
            index == old(states).v@.len(),
            fu == fuel - 1,
            fu + states.v@.len() >= bound,
            bound == two_pow((g.len() * ITEM_W) as nat),
            items@ == closure_set(g, inherits@),
            state_keys(base) == state_keys(*old(states)).push(kernel_part(inherits@)),
            discover_syms(g, fu, state_keys(*states), items@, x as int) == discover_syms(g, fu, state_keys(base), items@, 0),
        decreases NUM_SYMBOLS - x,
    {
        let ghost keys0 = state_keys(*states);
        let ghost before = states.v@;
        if has_next_sym(prods, &items, x) {
            let sym = symbol_of_index(x);
            let ni = states.v[index].get_inheritances(prods, &sym);
            proof {
                lemma_goto_unique(g, items@, x as int, ni@);
            }
            let ns = match states.get(&ni) {
                Some(j) => {
                    assert(keys0[j as int] == kernel_part(ni@));
                    j
                },
                None => {
                    proof {
                        lemma_states_bound(g, *states, ni@);
                        assert(states.v@.len() > old(states).v@.len());
                        assert(!keys0.contains(kernel_part(ni@)));
                    }
                    make_state(prods, states, ni, Ghost(fu))
                },
            };
            proof {
                if ns >= before.len() {
                    lemma_closure_kernel(g, ni@, states.v@[ns as int].items@);
                }
                assert(kernel_part(states.v@[ns as int].items@) == ni@);
                assert(is_goto(g, items@, x as int, kernel_part(states.v@[ns as int].items@)));
            }
            edges.set(x, Some(Action::Shift(ns)));
            assert(edge_val_ok(g, f, states.v@, items@, x as int, edges@[x as int]));
        } else {
            assert(reduce_val_ok(g, f, items@, x as int, edges@[x as int]));
            assert(edge_val_ok(g, f, states.v@, items@, x as int, edges@[x as int]));
        }
        proof {
            assert forall|y: int| 0 <= y < x + 1 implies #[trigger] edge_val_ok(g, f, states.v@, items@, y, edges@[y]) by {
                if y < x {
                    lemma_edge_extend(g, f, before, states.v@, items@, y, edges@[y]);
                }
            }
            assert forall|j: int| base.v@.len() <= j < states.v@.len() implies #[trigger] edges_done(g, f, states.v@, j) by {
                if j < before.len() {
                    assert(states.v@[j] == before[j]);
                    assert(edges_done(g, f, before, j));
                    assert forall|y: int| 0 <= y < NUM_SYMBOLS implies #[trigger] edge_val_ok(g, f, states.v@, states.v@[j].items@, y, states.v@[j].edges@[y]) by {
                        lemma_edge_extend(g, f, before, states.v@, before[j].items@, y, before[j].edges@[y]);
                    }
                }
            }
        }
        x = x + 1;
    }
    let ghost before = states.v@;
    let ghost new_edges = edges@;
    let ghost keys_end = state_keys(*states);
    states.v[index].edges = edges;
    assert(state_keys(*states) == keys_end);
    proof {
        assert(states.v@[index as int].edges@ == new_edges);
        assert(states.v@[index as int].items@ == items@);
        assert(states.v@.len() == before.len());
        assert forall|j: int| 0 <= j < states.v@.len() && j != index implies #[trigger] states.v@[j] == before[j] by {}
        assert(before[index as int] == base.v@[index as int]);
        assert forall|j: int| 0 <= j < before.len() implies (#[trigger] states.v@[j]).items@ == before[j].items@ by {
            if j != index {
                assert(states.v@[j] == before[j]);
            }
        }
        assert forall|j: int| index <= j < states.v@.len() implies #[trigger] edges_done(g, f, states.v@, j) by {
            if j == index {
                assert forall|y: int| 0 <= y < NUM_SYMBOLS implies #[trigger] edge_val_ok(g, f, states.v@, states.v@[j].items@, y, states.v@[j].edges@[y]) by {
                    assert(edge_val_ok(g, f, before, items@, y, new_edges[y]));
                    lemma_edge_extend(g, f, before, states.v@, items@, y, new_edges[y]);
                }
            } else {
                assert(states.v@[j] == before[j]);
                assert(edges_done(g, f, before, j));
                assert forall|y: int| 0 <= y < NUM_SYMBOLS implies #[trigger] edge_val_ok(g, f, states.v@, states.v@[j].items@, y, states.v@[j].edges@[y]) by {
                    assert(edge_val_ok(g, f, before, before[j].items@, y, before[j].edges@[y]));
                    lemma_edge_extend(g, f, before, states.v@, before[j].items@, y, before[j].edges@[y]);
                }
            }
        }
        assert forall|j: int| 0 <= j < states.v@.len() implies #[trigger] state_items_ok(g, states.v@, j) by {
            assert(state_items_ok(g, before, j));
        }
    }
    index
}

impl Productions {
    /// Builds the parse table: the LR(0) automaton over the productions, starting from the
    /// productions of `ROOT`, with SLR(1) reduce entries from FOLLOWS; the states are numbered
    /// in the order a depth-first walk over the symbols, in index order, first reaches them.
    pub fn make_table(&self) -> (table: ParseTable)
        requires
            self.wf(),
        ensures
            table_ok(self.table_rules@, self.follows@, table@),
            in_discovery_order(self.table_rules@, table@),
    {
        let mut states = States { map: Vec::new(), v: Vec::new() };
        assert(state_keys(states) =~= seq![]);
        let init = init_items(self);
        make_state(self, &mut states, init, Ghost(two_pow((self.table_rules@.len() * ITEM_W) as nat)));
        let ghost t = states.v@;
        assert forall|i: int, j: int| 0 <= i < j < t.len() implies kernel_part(#[trigger] t[i].items@) != kernel_part(#[trigger] t[j].items@) by {
            assert(states.map@[i]@ != states.map@[j]@);
        }
        assert forall|j: int| 0 <= j < t.len() implies kernel_part(#[trigger] t[j].items@) == discovery_order(self.table_rules@)[j] by {
            assert(state_keys(states)[j] == states.map@[j]@);
        }
        states.v
    }
}

impl State {
    /// The table entry of this state for symbol `x`.
    pub fn get(&self, x: &ElemT) -> (r: Option<&Action>)
        requires
            self.edges@.len() == NUM_SYMBOLS,
        ensures
            r == match self.edges@[sym_idx(*x)] {
                Some(a) => Some(&a),
                None => None,
            },
    {
        let i = symbol_index(*x);
        match &self.edges[i] {
            Some(a) => Some(a),
            None => None,
        }
    }
}

} // verus!
