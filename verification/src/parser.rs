use vstd::prelude::*;
use crate::grammar::{Production, NodeT, ElemT, TokenT, Action, sym_idx, sym_at, symbol_of_index, lemma_sym_idx, NUM_SYMBOLS};
use crate::productions::{Productions, rules_view, flatten_groups, language_groups, test_groups, root_rules};
use crate::follows::{rules_wf, follows_table_ok};
use crate::table::{State, ParseTable, table_ok, in_discovery_order};
use crate::token::{Token, TokenV};
use crate::tree::{Node, Elem, NodeV, ElemV, node_v, elem_v, elems_v, lemma_elems_v, elem_t, elem_start, elem_end, make_v, leaves_of, elem_leaves, forest_leaves, lemma_leaves_of_add};

verus! {

/// A syntax error: the parser found `found`, spanning `start..end`, where the element on top of
/// its stack starts at `at`; the table of that state has entries for the symbols `expected`.
#[derive(Debug)]
pub struct SyntaxError {
    pub at: usize,
    pub start: usize,
    pub end: usize,
    pub found: ElemT,
    pub expected: Vec<ElemT>,
}

/// The mathematical value of a syntax error.
pub struct SyntaxErrorV {
    pub at: int,
    pub start: int,
    pub end: int,
    pub found: ElemT,
    pub expected: Seq<ElemT>,
}

impl View for SyntaxError {
    type V = SyntaxErrorV;

    open spec fn view(&self) -> SyntaxErrorV {
        SyntaxErrorV {
            at: self.at as int,
            start: self.start as int,
            end: self.end as int,
            found: self.found,
            expected: self.expected@,
        }
    }
}

/// The state on top of the stack: that of its last entry, or the first state when it is empty.
pub open spec fn top_state(l: Seq<(ElemV, int)>) -> int {
    if l.len() > 0 {
        l.last().1
    } else {
        0
    }
}

/// The elements of stack entries.
pub open spec fn firsts(l: Seq<(ElemV, int)>) -> Seq<ElemV> {
    Seq::new(l.len(), |i: int| l[i].0)
}

/// One step of the parser on stack `l` and input `r` (read from its end): shift or reduce as
/// the table says, or `None` when no entry applies.
pub open spec fn step(g: Seq<Production>, t: Seq<State>, l: Seq<(ElemV, int)>, r: Seq<ElemV>) -> Option<(Seq<(ElemV, int)>, Seq<ElemV>)> {
    let s = top_state(l);
    if r.len() == 0 || s < 0 || s >= t.len() || t[s].edges@.len() != NUM_SYMBOLS {
        None
    } else {
        match t[s].edges@[sym_idx(elem_t(r.last()))] {
            None => None,
            Some(Action::Shift(ns)) => Some((l.push((r.last(), ns as int)), r.drop_last())),
            Some(Action::Reduce(p)) => {
                if p < g.len() && 1 <= g[p as int].v@.len() <= l.len() {
                    let k = l.len() - g[p as int].v@.len();
                    Some((l.subrange(0, k), r.push(ElemV::Node(make_v(g[p as int].node, firsts(l.subrange(k, l.len() as int)))))))
                } else {
                    None
                }
            },
        }
    }
}

/// The parser stops with success when only the last token is left and the top of the stack is
/// a node of a root kind.
pub open spec fn accepting(roots: Seq<NodeT>, l: Seq<(ElemV, int)>, r: Seq<ElemV>) -> bool {
    r.len() == 1 && l.len() > 0 && (l.last().0 matches ElemV::Node(n) && roots.contains(n.t))
}

/// The stack and input where the parser stops within `fuel` steps, and whether it accepted.
pub open spec fn run(g: Seq<Production>, t: Seq<State>, roots: Seq<NodeT>, l: Seq<(ElemV, int)>, r: Seq<ElemV>, fuel: nat) -> (Seq<(ElemV, int)>, Seq<ElemV>, bool)
    decreases fuel,
{
    if accepting(roots, l, r) {
        (l, r, true)
    } else if fuel == 0 {
        (l, r, false)
    } else {
        match step(g, t, l, r) {
            None => (l, r, false),
            Some((l2, r2)) => run(g, t, roots, l2, r2, (fuel - 1) as nat),
        }
    }
}

/// The symbols, among the first `k`, for which the row `e` has an entry, in symbol order.
pub open spec fn expected_upto(e: Seq<Option<Action>>, k: int) -> Seq<ElemT>
    decreases k,
{
    if k <= 0 {
        seq![]
    } else if e[k - 1] is Some {
        expected_upto(e, k - 1).push(sym_at(k - 1))
    } else {
        expected_upto(e, k - 1)
    }
}

/// The error reported where the parser stopped on stack `l` and input `r`.
pub open spec fn error_at(t: Seq<State>, l: Seq<(ElemV, int)>, r: Seq<ElemV>) -> SyntaxErrorV {
    let x = if r.len() > 0 { r.last() } else { ElemV::Token(TokenV { start: 0, end: 0, data: crate::token::TokenDataV::EOF }) };
    let s = top_state(l);
    SyntaxErrorV {
        at: if l.len() > 0 { elem_start(l.last().0) } else { elem_start(x) },
        start: elem_start(x),
        end: elem_end(x),
        found: elem_t(x),
        expected: if 0 <= s < t.len() && t[s].edges@.len() == NUM_SYMBOLS { expected_upto(t[s].edges@, NUM_SYMBOLS as int) } else { seq![] },
    }
}

/// The number of steps the parser takes at most on `n` tokens; on the language's tables a run
/// never needs so many (`budget::step_bound_suffices`).
pub open spec fn step_bound(n: int) -> int {
    if n < usize::MAX / 128 {
        n * 64 + 64
    } else {
        usize::MAX as int
    }
}

/// The input of the parser: the tokens, last first.
pub open spec fn input_of(toks: Seq<TokenV>) -> Seq<ElemV> {
    Seq::new(toks.len(), |i: int| ElemV::Token(toks[toks.len() - 1 - i]))
}

/// The result of parsing `toks`: the nodes on the stack when the parser accepts with nodes only
/// on its stack, otherwise the error where it stopped.
pub open spec fn parse_spec(g: Seq<Production>, t: Seq<State>, roots: Seq<NodeT>, toks: Seq<TokenV>) -> Result<Seq<NodeV>, SyntaxErrorV> {
    let (l, r, ok) = run(g, t, roots, seq![], input_of(toks), step_bound(toks.len() as int) as nat);
    if ok && forall|i: int| 0 <= i < l.len() ==> #[trigger] l[i].0 is Node {
        Ok(Seq::new(l.len(), |i: int| l[i].0->Node_0))
    } else {
        Err(error_at(t, l, r))
    }
}

/// The leaves of the input still to be read, which lies last first.
pub open spec fn input_leaves(r: Seq<ElemV>) -> Seq<TokenV>
    decreases r.len(),
{
    if r.len() == 0 {
        seq![]
    } else {
        elem_leaves(r.last()) + input_leaves(r.drop_last())
    }
}

/// The leaves of the stack, then those of the input.
pub open spec fn all_leaves(l: Seq<(ElemV, int)>, r: Seq<ElemV>) -> Seq<TokenV> {
    leaves_of(firsts(l)) + input_leaves(r)
}

/// A step of the parser keeps the leaves of stack and input, and the bottom of the input.
pub(crate) proof fn lemma_step_keeps_leaves(g: Seq<Production>, t: Seq<State>, l: Seq<(ElemV, int)>, r: Seq<ElemV>)
    requires
        step(g, t, l, r) is Some,
    ensures
        all_leaves(step(g, t, l, r).unwrap().0, step(g, t, l, r).unwrap().1) == all_leaves(l, r),
        step(g, t, l, r).unwrap().1.len() > 0 ==> step(g, t, l, r).unwrap().1[0] == r[0],
{
    let (l2, r2) = step(g, t, l, r).unwrap();
    let s = top_state(l);
    match t[s].edges@[sym_idx(elem_t(r.last()))] {
        Some(Action::Shift(ns)) => {
            assert(firsts(l2) =~= firsts(l).push(r.last()));
            assert(leaves_of(firsts(l).push(r.last())) =~= leaves_of(firsts(l)) + elem_leaves(r.last())) by {
                assert(firsts(l).push(r.last()).drop_last() =~= firsts(l));
            }
        },
        Some(Action::Reduce(p)) => {
            let k = l.len() - g[p as int].v@.len();
            let kids = firsts(l.subrange(k, l.len() as int));
            assert(firsts(l) =~= firsts(l.subrange(0, k)) + kids);
            lemma_leaves_of_add(firsts(l.subrange(0, k)), kids);
            let x = ElemV::Node(make_v(g[p as int].node, kids));
            assert(r2 == r.push(x));
            assert(r2.drop_last() =~= r);
            assert(input_leaves(r2) == elem_leaves(x) + input_leaves(r));
            assert(elem_leaves(x) == leaves_of(kids));
            assert(all_leaves(l2, r2) =~= all_leaves(l, r));
        },
        None => {},
    }
}

/// Running the parser keeps the leaves of stack and input, and the bottom of the input.
proof fn lemma_run_keeps_leaves(g: Seq<Production>, t: Seq<State>, roots: Seq<NodeT>, l: Seq<(ElemV, int)>, r: Seq<ElemV>, fuel: nat)
    ensures
        all_leaves(run(g, t, roots, l, r, fuel).0, run(g, t, roots, l, r, fuel).1) == all_leaves(l, r),
        run(g, t, roots, l, r, fuel).1.len() > 0 ==> r.len() > 0 && run(g, t, roots, l, r, fuel).1[0] == r[0],
        run(g, t, roots, l, r, fuel).2 ==> accepting(roots, run(g, t, roots, l, r, fuel).0, run(g, t, roots, l, r, fuel).1),
    decreases fuel,
{
    if !accepting(roots, l, r) && fuel > 0 {
        match step(g, t, l, r) {
            None => {},
            Some((l2, r2)) => {
                lemma_step_keeps_leaves(g, t, l, r);
                lemma_run_keeps_leaves(g, t, roots, l2, r2, (fuel - 1) as nat);
            },
        }
    }
}

/// The leaves of the parser's input are the tokens in order.
pub(crate) proof fn lemma_input_leaves(toks: Seq<TokenV>)
    ensures
        input_leaves(input_of(toks)) == toks,
    decreases toks.len(),
{
    if toks.len() > 0 {
        let rest = toks.subrange(1, toks.len() as int);
        lemma_input_leaves(rest);
        assert(input_of(toks).drop_last() =~= input_of(rest));
        assert(toks =~= seq![toks[0]] + rest);
    }
}

/// The leaves of trees are those of the trees as children.
proof fn lemma_forest_leaves(ns: Seq<NodeV>)
    ensures
        forest_leaves(ns) == leaves_of(Seq::new(ns.len(), |i: int| ElemV::Node(ns[i]))),
    decreases ns.len(),
{
    if ns.len() > 0 {
        lemma_forest_leaves(ns.drop_last());
        assert(Seq::new(ns.len(), |i: int| ElemV::Node(ns[i])).drop_last() =~= Seq::new(ns.drop_last().len(), |i: int| ElemV::Node(ns.drop_last()[i])));
    }
}

/// Parsing loses no token and invents none: the leaves of the trees that a successful parse
/// gives, left to right, are the tokens of its input but the last (`EOF`), in order.
pub proof fn parse_keeps_tokens(g: Seq<Production>, t: Seq<State>, roots: Seq<NodeT>, toks: Seq<TokenV>)
    requires
        parse_spec(g, t, roots, toks) is Ok,
    ensures
        forest_leaves(parse_spec(g, t, roots, toks)->Ok_0) == toks.drop_last(),
{
    let r0 = input_of(toks);
    let fuel = step_bound(toks.len() as int) as nat;
    let (l, r, ok) = run(g, t, roots, seq![], r0, fuel);
    lemma_run_keeps_leaves(g, t, roots, seq![], r0, fuel);
    lemma_input_leaves(toks);
    assert(firsts(seq![]) =~= Seq::<ElemV>::empty());
    assert(all_leaves(seq![], r0) == toks);
    let ns = parse_spec(g, t, roots, toks)->Ok_0;
    assert(r.len() == 1);
    assert(r[0] == ElemV::Token(toks[toks.len() - 1]));
    assert(r.drop_last() =~= Seq::<ElemV>::empty());
    assert(input_leaves(r.drop_last()) == Seq::<TokenV>::empty());
    assert(input_leaves(r) =~= seq![toks.last()]);
    assert(Seq::new(ns.len(), |i: int| ElemV::Node(ns[i])) =~= firsts(l));
    lemma_forest_leaves(ns);
    assert(toks =~= toks.drop_last() + seq![toks.last()]);
    assert(forest_leaves(ns) + seq![toks.last()] == toks);
    assert(forest_leaves(ns) =~= (forest_leaves(ns) + seq![toks.last()]).drop_last());
}

/// The number of steps the parser takes before it stops, as `run` says.
pub open spec fn run_steps(g: Seq<Production>, t: Seq<State>, roots: Seq<NodeT>, l: Seq<(ElemV, int)>, r: Seq<ElemV>, fuel: nat) -> nat
    decreases fuel,
{
    if accepting(roots, l, r) || fuel == 0 {
        0
    } else {
        match step(g, t, l, r) {
            None => 0,
            Some((l2, r2)) => 1 + run_steps(g, t, roots, l2, r2, (fuel - 1) as nat),
        }
    }
}

/// Where a run stops without accepting, it has no step to take there (no table entry for its
/// state and next symbol, or a reduction longer than its stack), or it has used all its steps.
proof fn lemma_run_stops(g: Seq<Production>, t: Seq<State>, roots: Seq<NodeT>, l: Seq<(ElemV, int)>, r: Seq<ElemV>, fuel: nat)
    ensures
        run_steps(g, t, roots, l, r, fuel) <= fuel,
        !run(g, t, roots, l, r, fuel).2 ==> {
            let (l2, r2, _) = run(g, t, roots, l, r, fuel);
            &&& !accepting(roots, l2, r2)
            &&& (step(g, t, l2, r2) is None || run_steps(g, t, roots, l, r, fuel) == fuel)
        },
    decreases fuel,
{
    if !accepting(roots, l, r) && fuel > 0 {
        match step(g, t, l, r) {
            None => {},
            Some((l2, r2)) => {
                lemma_run_stops(g, t, roots, l2, r2, (fuel - 1) as nat);
            },
        }
    }
}

/// When parsing fails: the run either accepted with a token still on its stack, or stopped
/// before accepting where its table has no entry for its state and next symbol (or the
/// reduction is longer than its stack), or used up its `step_bound` steps; the error reported
/// is `error_at` where it stopped.
pub proof fn parse_fails_where(g: Seq<Production>, t: Seq<State>, roots: Seq<NodeT>, toks: Seq<TokenV>)
    requires
        parse_spec(g, t, roots, toks) is Err,
    ensures
        ({
            let fuel = step_bound(toks.len() as int) as nat;
            let (l, r, ok) = run(g, t, roots, seq![], input_of(toks), fuel);
            &&& parse_spec(g, t, roots, toks)->Err_0 == error_at(t, l, r)
            &&& (ok && exists|i: int| 0 <= i < l.len() && #[trigger] l[i].0 is Token)
                || (!ok && !accepting(roots, l, r) && (step(g, t, l, r) is None
                    || run_steps(g, t, roots, seq![], input_of(toks), fuel) == fuel))
        }),
{
    let fuel = step_bound(toks.len() as int) as nat;
    lemma_run_stops(g, t, roots, seq![], input_of(toks), fuel);
}

/// A successful parse ends with a tree whose kind is one of the roots.
pub proof fn parse_ends_with_root(g: Seq<Production>, t: Seq<State>, roots: Seq<NodeT>, toks: Seq<TokenV>)
    requires
        parse_spec(g, t, roots, toks) is Ok,
    ensures
        parse_spec(g, t, roots, toks)->Ok_0.len() > 0,
        roots.contains(parse_spec(g, t, roots, toks)->Ok_0.last().t),
{
    let r0 = input_of(toks);
    let fuel = step_bound(toks.len() as int) as nat;
    let (l, r, ok) = run(g, t, roots, seq![], r0, fuel);
    lemma_run_keeps_leaves(g, t, roots, seq![], r0, fuel);
    let ns = parse_spec(g, t, roots, toks)->Ok_0;
    assert(accepting(roots, l, r));
    assert(ns.len() == l.len());
    assert(l.last().0 == ElemV::Node(ns[l.len() - 1]));
}

/// Whether `roots` holds `t`.
fn contains_node(roots: &Vec<NodeT>, t: NodeT) -> (r: bool)
    ensures
        r == roots@.contains(t),
{
    let mut i: usize = 0;
    while i < roots.len()
        invariant
            i <= roots@.len(),
            forall|j: int| 0 <= j < i ==> roots@[j] != t,
        decreases roots@.len() - i,
    {
        if roots[i] == t {
            assert(roots@[i as int] == t);
            return true;
        }
        i += 1;
    }
    false
}

/// The symbols for which `row` has an entry, in symbol order.
fn expected_of(row: &Vec<Option<Action>>) -> (r: Vec<ElemT>)
    requires
        row@.len() == NUM_SYMBOLS,
    ensures
        r@ == expected_upto(row@, NUM_SYMBOLS as int),
{
    let mut r: Vec<ElemT> = Vec::new();
    let mut k: usize = 0;
    while k < NUM_SYMBOLS
        invariant
            k <= NUM_SYMBOLS,
            row@.len() == NUM_SYMBOLS,
            r@ == expected_upto(row@, k as int),
        decreases NUM_SYMBOLS - k,
    {
        if row[k].is_some() {
            r.push(symbol_of_index(k));
        }
        k += 1;
    }
    r
}

/// The error where the parser stopped on stack `l` and input `r`.
fn error_of(table: &ParseTable, l: &Vec<(Elem, usize)>, r: &Vec<Elem>) -> (e: SyntaxError)
    ensures
        e@ == error_at(table@, stack_v(l@), input_v(r@)),
{
    let (start, end, found) = if r.len() > 0 {
        let x = &r[r.len() - 1];
        (x.start(), x.end(), x.t())
    } else {
        (0, 0, ElemT::Token(TokenT::EOF))
    };
    let at = if l.len() > 0 {
        l[l.len() - 1].0.start()
    } else {
        start
    };
    let s: usize = if l.len() > 0 {
        l[l.len() - 1].1
    } else {
        0
    };
    let expected = if s < table.len() && table[s].edges.len() == NUM_SYMBOLS {
        expected_of(&table[s].edges)
    } else {
        Vec::new()
    };
    SyntaxError { at, start, end, found, expected }
}

/// The parser: a parse table with its productions, the tokens to parse and their source.
pub struct Parser<'a> {
    table: ParseTable,
    productions: Productions,
    tokens: Vec<Token>,
    source: &'a str,
}

/// The values of a stack.
pub open spec fn stack_v(l: Seq<(Elem, usize)>) -> Seq<(ElemV, int)> {
    Seq::new(l.len(), |i: int| (elem_v(l[i].0), l[i].1 as int))
}

/// The values of an input.
pub open spec fn input_v(r: Seq<Elem>) -> Seq<ElemV> {
    Seq::new(r.len(), |i: int| elem_v(r[i]))
}

impl<'a> Parser<'a> {
    /// The table is the one built from the productions, and there are at least two tokens.
    pub closed spec fn wf(&self) -> bool {
        &&& self.tokens@.len() >= 1
        &&& self.productions.wf()
        &&& table_ok(self.productions.table_rules@, self.productions.follows@, self.table@)
    }

    /// The productions of the parser.
    pub closed spec fn rules(&self) -> Seq<Production> {
        self.productions.table_rules@
    }

    /// The parse table of the parser.
    pub closed spec fn states(&self) -> Seq<State> {
        self.table@
    }

    /// The root node kinds of the parser.
    pub closed spec fn root_kinds(&self) -> Seq<NodeT> {
        self.productions.roots@
    }

    /// The FOLLOWS table of the parser's productions.
    pub closed spec fn follow_table(&self) -> Seq<bool> {
        self.productions.follows@
    }

    /// The tokens the parser reads.
    pub closed spec fn input(&self) -> Seq<TokenV> {
        self.tokens@.map_values(|t: Token| t@)
    }

    /// The source the tokens come from.
    pub closed spec fn text(&self) -> &'a str {
        self.source
    }

    /// A parser for the language's productions, with the table built from them.
    pub fn new(tokens: Vec<Token>, source: &'a str) -> (p: Parser<'a>)
        requires
            tokens@.len() >= 1,
        ensures
            p.wf(),
            p.input() == tokens@.map_values(|t: Token| t@),
            p.text() == source,
            rules_view(p.rules()) == flatten_groups(language_groups()) + root_rules(
                seq![NodeT::Statement, NodeT::Function],
            ),
            p.root_kinds() == seq![NodeT::Statement, NodeT::Function],
            rules_wf(p.rules()),
            follows_table_ok(p.rules(), p.follow_table()),
            table_ok(p.rules(), p.follow_table(), p.states()),
            in_discovery_order(p.rules(), p.states()),
    {
        let productions = Productions::make();
        let table = productions.make_table();
        Parser { table, productions, tokens, source }
    }

    /// A parser for the test grammar `S -> A A`, `A -> b | a A`.
    pub fn new_test(tokens: Vec<Token>, source: &'a str) -> (p: Parser<'a>)
        requires
            tokens@.len() >= 1,
        ensures
            p.wf(),
            p.input() == tokens@.map_values(|t: Token| t@),
            p.text() == source,
            rules_view(p.rules()) == flatten_groups(test_groups()) + root_rules(seq![NodeT::S]),
            p.root_kinds() == seq![NodeT::S],
            rules_wf(p.rules()),
            follows_table_ok(p.rules(), p.follow_table()),
            table_ok(p.rules(), p.follow_table(), p.states()),
            in_discovery_order(p.rules(), p.states()),
    {
        let productions = Productions::make_test();
        let table = productions.make_table();
        Parser { table, productions, tokens, source }
    }

    /// Runs the parser, as `parse_spec` says: `Ok` with the nodes on its stack when it accepts
    /// with only nodes there, otherwise `Err` with the error where it stopped.
    pub fn parse(self) -> (res: Result<Vec<Node>, SyntaxError>)
        requires
            self.wf(),
        ensures
            match (parse_spec(self.rules(), self.states(), self.root_kinds(), self.input()), res) {
                (Ok(ns), Ok(v)) => v@.map_values(|n: Node| node_v(n)) == ns,
                (Err(e), Err(x)) => x@ == e,
                _ => false,
            },
    {
        let ghost toks = self.input();
        let ghost g = self.rules();
        let ghost t = self.states();
        let ghost roots = self.root_kinds();
        let Parser { table, productions, tokens, source: _ } = self;
        let n = tokens.len();
        let bound: usize = if n < usize::MAX / 128 {
            n * 64 + 64
        } else {
            usize::MAX
        };
        let mut r: Vec<Elem> = Vec::new();
        let mut tokens = tokens;
        while tokens.len() > 0
            invariant
                tokens@.len() + r@.len() == n,
                toks.len() == n,
                forall|i: int| 0 <= i < r@.len() ==> #[trigger] elem_v(r@[i]) == ElemV::Token(toks[n - 1 - i]),
                forall|i: int| 0 <= i < tokens@.len() ==> #[trigger] tokens@[i]@ == toks[i],
            decreases tokens@.len(),
        {
            let tok = tokens.pop().unwrap();
            r.push(Elem::Token(tok));
        }
        assert(input_v(r@) =~= input_of(toks));
        let mut l: Vec<(Elem, usize)> = Vec::new();
        assert(stack_v(l@) =~= seq![]);
        let mut fuel = bound;
        let mut accepted = false;
        loop
            invariant_except_break
                !accepted,
            invariant
                g == productions.table_rules@,
                t == table@,
                roots == productions.roots@,
                run(g, t, roots, stack_v(l@), input_v(r@), fuel as nat) == run(g, t, roots, seq![], input_of(toks), bound as nat),
            ensures
                accepted ==> accepting(roots, stack_v(l@), input_v(r@)),
                !accepted ==> !accepting(roots, stack_v(l@), input_v(r@)) && (fuel == 0 || step(g, t, stack_v(l@), input_v(r@)) is None),
            decreases fuel,
        {
            if r.len() == 1 && l.len() > 0 {
                let last = &l[l.len() - 1].0;
                if let Elem::Node(nd) = last {
                    if contains_node(&productions.roots, nd.t) {
                        accepted = true;
                        break;
                    }
                }
            }
            if fuel == 0 {
                break;
            }
            if r.len() == 0 {
                break;
            }
            let s: usize = if l.len() > 0 {
                l[l.len() - 1].1
            } else {
                0
            };
            if s >= table.len() || table[s].edges.len() != NUM_SYMBOLS {
                break;
            }
            let x = r[r.len() - 1].t();
            let a = table[s].get(&x);
            let ghost lv = stack_v(l@);
            let ghost rv = input_v(r@);
            match a {
                None => {
                    break;
                },
                Some(Action::Shift(ns)) => {
                    let ns = *ns;
                    let e = r.pop().unwrap();
                    l.push((e, ns));
                    assert(stack_v(l@) =~= lv.push((rv.last(), ns as int)));
                    assert(input_v(r@) =~= rv.drop_last());
                },
                Some(Action::Reduce(p)) => {
                    let p = *p;
                    if p >= productions.table_rules.len() {
                        break;
                    }
                    let k = productions.table_rules[p].v.len();
                    if k < 1 || k > l.len() {
                        break;
                    }
                    let at = l.len() - k;
                    let mut tail = l.split_off(at);
                    let ghost tail0 = tail@;
                    let mut elems: Vec<Elem> = Vec::new();
                    while tail.len() > 0
                        invariant
                            elems@.len() + tail@.len() == k,
                            tail0.len() == k,
                            forall|i: int| 0 <= i < elems@.len() ==> #[trigger] elems@[i] == tail0[i].0,
                            forall|i: int| 0 <= i < tail@.len() ==> #[trigger] tail@[i] == tail0[elems@.len() + i],
                        decreases tail@.len(),
                    {
                        let (e, _) = tail.remove(0);
                        elems.push(e);
                    }
                    proof {
                        lemma_elems_v(elems@);
                        assert(elems_v(elems@) =~= firsts(lv.subrange(at as int, lv.len() as int)));
                    }
                    let node = Node::make(productions.table_rules[p].node, elems);
                    r.push(Elem::Node(node));
                    assert(stack_v(l@) =~= lv.subrange(0, at as int));
                    assert(input_v(r@) =~= rv.push(ElemV::Node(make_v(g[p as int].node, firsts(lv.subrange(at as int, lv.len() as int))))));
                },
            }
            fuel -= 1;
        }
        let ghost lv = stack_v(l@);
        let ghost rv = input_v(r@);
        assert(run(g, t, roots, lv, rv, fuel as nat) == (lv, rv, accepted));
        let mut all = true;
        let mut i: usize = 0;
        while i < l.len()
            invariant
                i <= l@.len(),
                lv == stack_v(l@),
                all <==> forall|j: int| 0 <= j < i ==> #[trigger] lv[j].0 is Node,
            decreases l@.len() - i,
        {
            let is_tok = match &l[i].0 {
                Elem::Token(_) => true,
                Elem::Node(_) => false,
            };
            assert(lv[i as int].0 == elem_v(l@[i as int].0));
            assert(lv[i as int].0 is Node <==> !is_tok);
            if is_tok {
                all = false;
            }
            i += 1;
        }
        if accepted && all {
            let mut nodes: Vec<Node> = Vec::new();
            let ghost l0 = l@;
            while l.len() > 0
                invariant
                    nodes@.len() + l@.len() == l0.len(),
                    lv == stack_v(l0),
                    forall|j: int| 0 <= j < l0.len() ==> #[trigger] lv[j].0 is Node,
                    forall|j: int| 0 <= j < nodes@.len() ==> ElemV::Node(node_v(#[trigger] nodes@[j])) == lv[j].0,
                    forall|j: int| 0 <= j < l@.len() ==> #[trigger] l@[j] == l0[nodes@.len() + j],
                decreases l@.len(),
            {
                let (e, _) = l.remove(0);
                assert(lv[nodes@.len() as int].0 is Node);
                if let Elem::Node(nd) = e {
                    nodes.push(nd);
                }
            }
            assert(nodes@.map_values(|n: Node| node_v(n)) =~= Seq::new(lv.len(), |j: int| lv[j].0->Node_0));
            Ok(nodes)
        } else {
            Err(error_of(&table, &l, &r))
        }
    }
}

} // verus!
