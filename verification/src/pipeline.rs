use vstd::prelude::*;
use crate::grammar::{NodeT, Production};
use crate::lexer::{lex, lex_from, lex_token, skip_ws, tokenize, LexError, lemma_skip_ws};
use crate::token::{Token, TokenV};
use crate::tree::{Node, Elem, NodeV, ElemV, node_v, elem_v, elems_v, lemma_elems_v};
use crate::parser::{Parser, SyntaxError, SyntaxErrorV, parse_spec};
use crate::table::{State, table_ok, in_discovery_order};
use crate::productions::{rules_view, flatten_groups, language_groups, root_rules};
use crate::follows::follows_table_ok;
use crate::trim::trim_v;
use crate::scope::{scope_shaped, kids_scope_shaped, ident_of, resolve_list, resolve_scope, ScopeError, ScopeErrorV};
use crate::extract::extract_v;
use crate::ast::{LNode, LNodeV, lnode_v};
use crate::typecheck::{try_type_check, tc_list, Checked, Env, TypeTable, TypeError, TypeErrorV, TableV};
use crate::stdlib::std_sigs;
use crate::codegen::{gen, gen_all};
use crate::errors::{shows_syntax_error, syntax_error_text, shows_error, type_error_text};

verus! {

/// An error of the compiler, from the stage that raised it. `Aborted` stands where a stage has
/// no result: a tree of a shape the grammar does not give, or a program that a later stage
/// cannot handle (see the stages' specifications).
#[derive(Debug)]
pub enum CompileError {
    Lex(LexError),
    Syntax(SyntaxError),
    Scope(ScopeError),
    Type(TypeError),
    Aborted,
}

/// The outcome of compiling, as values.
pub enum Outcome {
    Code(Seq<char>),
    LexErr(int),
    SyntaxErr(SyntaxErrorV),
    ScopeErr(ScopeErrorV),
    TypeErr(TypeErrorV),
    Aborted,
}

/// The outcome of the semantic passes, as values.
pub enum AstOutcome {
    Nodes(Seq<LNodeV>),
    ScopeErr(ScopeErrorV),
    TypeErr(TypeErrorV),
    Aborted,
}

/// The trimmed top-level nodes, `None` when one has no trimmed form or trims to a token.
pub open spec fn trim_all(ns: Seq<NodeV>, k: int) -> Option<Seq<NodeV>>
    decreases k,
{
    if k <= 0 || k > ns.len() {
        Some(seq![])
    } else {
        match (trim_all(ns, k - 1), trim_v(ns[k - 1])) {
            (Some(r), Some(ElemV::Node(m))) => Some(r.push(m)),
            _ => None,
        }
    }
}

/// The extracted top-level nodes, `None` when one has no extracted form.
pub open spec fn extract_all(ns: Seq<NodeV>, k: int) -> Option<Seq<LNodeV>>
    decreases k,
{
    if k <= 0 || k > ns.len() {
        Some(seq![])
    } else {
        match (extract_all(ns, k - 1), extract_v(ns[k - 1])) {
            (Some(r), Some(m)) => Some(r.push(m)),
            _ => None,
        }
    }
}

/// The semantic passes on parsed nodes with the library text `lib`: trimming, scope resolution
/// (on trees whose declarations name identifiers), extraction, and type checking against the
/// library's signatures.
pub open spec fn to_ast_spec(ns: Seq<NodeV>, lib: Seq<char>) -> AstOutcome {
    match trim_all(ns, ns.len() as int) {
        None => AstOutcome::Aborted,
        Some(tr) => if !(forall|i: int| 0 <= i < tr.len() ==> #[trigger] scope_shaped(tr[i])) {
            AstOutcome::Aborted
        } else {
            let (rs, _st, r) = resolve_list(tr, seq![Seq::<Seq<char>>::empty()], tr.len() as int);
            match r {
                Err(e) => AstOutcome::ScopeErr(e),
                Ok(_) => match extract_all(rs, rs.len() as int) {
                    None => AstOutcome::Aborted,
                    Some(ex) => match std_sigs(lib) {
                        None => AstOutcome::Aborted,
                        Some(fs) => match tc_list(ex, Env { tab: TableV { vars: seq![], funcs: fs }, cur: None }, ex.len() as int).1 {
                            Checked::Done(v) => AstOutcome::Nodes(v),
                            Checked::Failed(e) => AstOutcome::TypeErr(e),
                            Checked::Abort => AstOutcome::Aborted,
                        },
                    },
                },
            }
        },
    }
}

/// The outcome of `to_ast`, as a value.
pub open spec fn ast_outcome(r: Result<Vec<LNode>, CompileError>) -> AstOutcome {
    match r {
        Ok(v) => AstOutcome::Nodes(v@.map_values(|n: LNode| lnode_v(n))),
        Err(CompileError::Scope(e)) => AstOutcome::ScopeErr(e@),
        Err(CompileError::Type(e)) => AstOutcome::TypeErr(e@),
        Err(_) => AstOutcome::Aborted,
    }
}

/// Whether a node is `scope_shaped`.
fn check_scope_shaped(n: &Node) -> (r: bool)
    ensures
        r == scope_shaped(node_v(*n)),
    decreases node_v(*n),
{
    let ghost nv = node_v(*n);
    proof {
        lemma_elems_v(n.children@);
    }
    let len = n.children.len();
    if n.t == NodeT::Declaration || n.t == NodeT::Function {
        if len == 0 {
            return false;
        }
        let ok = match &n.children[0] {
            Elem::Token(t) => match &t.data {
                crate::token::TokenData::IDENT(_) => true,
                _ => false,
            },
            Elem::Node(_) => false,
        };
        if !ok {
            return false;
        }
    }
    if n.t == NodeT::Params {
        let mut i: usize = 0;
        while i < len
            invariant
                i <= len,
                len == n.children@.len(),
                nv == node_v(*n),
                nv.children == elems_v(n.children@),
                nv.children.len() == len,
                forall|j: int| 0 <= j < len ==> #[trigger] nv.children[j] == elem_v(n.children@[j]),
                i % 2 == 0 || i == len,
                n.t == NodeT::Params,
                nv.t == n.t,
                forall|j: int| 0 <= j < i && j % 2 == 0 ==> #[trigger] ident_of(nv.children[j]) is Some,
            decreases len + 2 - i,
        {
            let ok = match &n.children[i] {
                Elem::Token(t) => match &t.data {
                    crate::token::TokenData::IDENT(_) => true,
                    _ => false,
                },
                Elem::Node(_) => false,
            };
            if !ok {
                assert(nv.children[i as int] == elem_v(n.children@[i as int]));
                assert(ident_of(nv.children[i as int]) is None);
                assert(!scope_shaped(nv));
                return false;
            }
            i = if len - i > 2 {
                i + 2
            } else {
                len
            };
        }
    }
    let mut k: usize = 0;
    assert(nv.children.subrange(0, 0) =~= seq![]);
    while k < len
        invariant
            k <= len,
            len == n.children@.len(),
            nv == node_v(*n),
            nv.children == elems_v(n.children@),
            nv.children.len() == len,
            forall|j: int| 0 <= j < len ==> #[trigger] nv.children[j] == elem_v(n.children@[j]),
            kids_scope_shaped(nv.children.subrange(0, k as int)),
        decreases len - k,
    {
        let ghost sub = nv.children.subrange(0, k + 1);
        assert(sub.drop_last() =~= nv.children.subrange(0, k as int));
        match &n.children[k] {
            Elem::Node(m) => {
                proof {
                    assert(decreases_to!(nv => nv.children));
                    assert(decreases_to!(nv.children => nv.children[k as int]));
                    assert(decreases_to!(nv.children[k as int] => nv.children[k as int]->Node_0));
                }
                if !check_scope_shaped(m) {
                    proof {
                        lemma_kids_not_shaped(nv.children, k as int);
                    }
                    return false;
                }
            },
            Elem::Token(_) => {},
        }
        k += 1;
    }
    assert(nv.children.subrange(0, len as int) =~= nv.children);
    true
}

/// A child node that is not `scope_shaped` makes its siblings not `kids_scope_shaped`.
proof fn lemma_kids_not_shaped(c: Seq<ElemV>, k: int)
    requires
        0 <= k < c.len(),
        c[k] matches ElemV::Node(m) && !scope_shaped(m),
    ensures
        !kids_scope_shaped(c),
    decreases c.len(),
{
    if k < c.len() - 1 {
        assert(c.drop_last()[k] == c[k]);
        lemma_kids_not_shaped(c.drop_last(), k);
    }
}


/// Once trimming a prefix of the nodes fails, trimming all of them fails.
proof fn lemma_trim_all_none(ns: Seq<NodeV>, j: int, k: int)
    requires
        0 <= j <= k <= ns.len(),
        trim_all(ns, j) is None,
    ensures
        trim_all(ns, k) is None,
    decreases k - j,
{
    if j < k {
        lemma_trim_all_none(ns, j + 1, k);
    }
}

/// Once extracting a prefix of the nodes fails, extracting all of them fails.
proof fn lemma_extract_all_none(ns: Seq<NodeV>, j: int, k: int)
    requires
        0 <= j <= k <= ns.len(),
        extract_all(ns, j) is None,
    ensures
        extract_all(ns, k) is None,
    decreases k - j,
{
    if j < k {
        lemma_extract_all_none(ns, j + 1, k);
    }
}

/// Trims the top-level nodes, as `trim_all` says.
#[verifier::loop_isolation(false)]
fn trim_stage(nodes: Vec<Node>) -> (r: Option<Vec<Node>>)
    ensures
        match (trim_all(nodes@.map_values(|n: Node| node_v(n)), nodes@.len() as int), r) {
            (Some(v), Some(x)) => x@.map_values(|n: Node| node_v(n)) == v,
            (None, None) => true,
            _ => false,
        },
{
    let ghost ns = nodes@.map_values(|n: Node| node_v(n));
    let ghost n0 = nodes@;
    let total = nodes.len();
    let mut nodes = nodes;
    let mut trimmed: Vec<Node> = Vec::new();
    let mut k: usize = 0;
    assert(trimmed@.map_values(|n: Node| node_v(n)) =~= seq![]);
    while nodes.len() > 0
        invariant
            k + nodes@.len() == n0.len(),
            n0.len() == total,
            ns == n0.map_values(|n: Node| node_v(n)),
            forall|j: int| 0 <= j < nodes@.len() ==> #[trigger] nodes@[j] == n0[k + j],
            trim_all(ns, k as int) == Some(trimmed@.map_values(|n: Node| node_v(n))),
        decreases nodes@.len(),
    {
        let n = nodes.remove(0);
        assert(ns[k as int] == node_v(n));
        let ghost before = trimmed@;
        match n.try_trim() {
            Some(Elem::Node(m)) => {
                trimmed.push(m);
                assert(trimmed@.map_values(|n: Node| node_v(n)) =~= before.map_values(|n: Node| node_v(n)).push(node_v(m)));
            },
            _ => {
                proof {
                    lemma_trim_all_none(ns, k + 1, ns.len() as int);
                }
                return None;
            },
        }
        k += 1;
    }
    Some(trimmed)
}

/// Extracts the top-level nodes, as `extract_all` says.
#[verifier::loop_isolation(false)]
fn extract_stage(nodes: Vec<Node>) -> (r: Option<Vec<LNode>>)
    ensures
        match (extract_all(nodes@.map_values(|n: Node| node_v(n)), nodes@.len() as int), r) {
            (Some(v), Some(x)) => x@.map_values(|n: LNode| lnode_v(n)) == v,
            (None, None) => true,
            _ => false,
        },
{
    let ghost rs = nodes@.map_values(|n: Node| node_v(n));
    let ghost r0 = nodes@;
    let total2 = nodes.len();
    let mut rest = nodes;
    let mut ex: Vec<LNode> = Vec::new();
    let mut k2: usize = 0;
    assert(ex@.map_values(|n: LNode| lnode_v(n)) =~= seq![]);
    while rest.len() > 0
        invariant
            k2 + rest@.len() == r0.len(),
            r0.len() == total2,
            rs == r0.map_values(|n: Node| node_v(n)),
            forall|j: int| 0 <= j < rest@.len() ==> #[trigger] rest@[j] == r0[k2 + j],
            extract_all(rs, k2 as int) == Some(ex@.map_values(|n: LNode| lnode_v(n))),
        decreases rest@.len(),
    {
        let n = rest.remove(0);
        assert(rs[k2 as int] == node_v(n));
        let ghost before = ex@;
        match n.try_extract() {
            Some(m) => {
                ex.push(m);
                assert(ex@.map_values(|n: LNode| lnode_v(n)) =~= before.map_values(|n: LNode| lnode_v(n)).push(lnode_v(m)));
            },
            None => {
                proof {
                    lemma_extract_all_none(rs, k2 + 1, rs.len() as int);
                }
                return None;
            },
        }
        k2 += 1;
    }
    Some(ex)
}

/// Whether every node is `scope_shaped`.
fn all_scope_shaped(nodes: &Vec<Node>) -> (r: bool)
    ensures
        r == forall|j: int| 0 <= j < nodes@.len() ==> #[trigger] scope_shaped(node_v(nodes@[j])),
{
    let mut i: usize = 0;
    while i < nodes.len()
        invariant
            i <= nodes@.len(),
            forall|j: int| 0 <= j < i ==> #[trigger] scope_shaped(node_v(nodes@[j])),
        decreases nodes@.len() - i,
    {
        if !check_scope_shaped(&nodes[i]) {
            return false;
        }
        i += 1;
    }
    true
}

/// Checks the types of the extracted nodes against the library's signatures.
fn check_stage(ex: Vec<LNode>, lib: &str) -> (r: Result<Vec<LNode>, CompileError>)
    ensures
        ast_outcome(r) == match std_sigs(lib@) {
            None => AstOutcome::Aborted,
            Some(fs) => match tc_list(ex@.map_values(|n: LNode| lnode_v(n)), Env { tab: TableV { vars: seq![], funcs: fs }, cur: None }, ex@.len() as int).1 {
                Checked::Done(v) => AstOutcome::Nodes(v),
                Checked::Failed(e) => AstOutcome::TypeErr(e),
                Checked::Abort => AstOutcome::Aborted,
            },
        },
{
    let table = match TypeTable::with_std(lib) {
        Some(t) => t,
        None => {
            return Err(CompileError::Aborted);
        },
    };
    assert(table@ == TableV { vars: seq![], funcs: table@.funcs });
    match try_type_check(ex, table) {
        None => Err(CompileError::Aborted),
        Some(Err(e)) => Err(CompileError::Type(e)),
        Some(Ok(v)) => Ok(v),
    }
}

/// Runs the semantic passes on parsed nodes, as `to_ast_spec` says: trimming, scope resolution,
/// extraction, and type checking against the signatures of the library text `lib`.
pub fn to_ast(nodes: Vec<Node>, lib: &str) -> (r: Result<Vec<LNode>, CompileError>)
    ensures
        ast_outcome(r) == to_ast_spec(nodes@.map_values(|n: Node| node_v(n)), lib@),
{
    let mut trimmed = match trim_stage(nodes) {
        Some(t) => t,
        None => {
            return Err(CompileError::Aborted);
        },
    };
    let ghost tr = trimmed@.map_values(|n: Node| node_v(n));
    if !all_scope_shaped(&trimmed) {
        assert(!(forall|i: int| 0 <= i < tr.len() ==> #[trigger] scope_shaped(tr[i]))) by {
            let j = choose|j: int| 0 <= j < trimmed@.len() && !scope_shaped(node_v(trimmed@[j]));
            assert(tr[j] == node_v(trimmed@[j]));
        }
        return Err(CompileError::Aborted);
    }
    assert(forall|i: int| 0 <= i < tr.len() ==> #[trigger] scope_shaped(tr[i])) by {
        assert forall|i: int| 0 <= i < tr.len() implies #[trigger] scope_shaped(tr[i]) by {
            assert(tr[i] == node_v(trimmed@[i]));
        }
    }
    match resolve_scope(&mut trimmed) {
        Err(e) => {
            return Err(CompileError::Scope(e));
        },
        Ok(_) => {},
    }
    let ex = match extract_stage(trimmed) {
        Some(e) => e,
        None => {
            return Err(CompileError::Aborted);
        },
    };
    check_stage(ex, lib)
}

/// The tables of the language: its productions, their FOLLOWS table and the SLR(1) table with
/// its states numbered in discovery order.
pub open spec fn language_table(g: Seq<Production>, f: Seq<bool>, t: Seq<State>) -> bool {
    &&& rules_view(g) == flatten_groups(language_groups()) + root_rules(seq![NodeT::Statement, NodeT::Function])
    &&& follows_table_ok(g, f)
    &&& table_ok(g, f, t)
    &&& in_discovery_order(g, t)
}

/// Compiling the tokens `ts` with the library `lib` and the tables `g` and `t`: parsing, the
/// semantic passes, then code generation with the library as the module's start.
pub open spec fn compile_tokens(ts: Seq<TokenV>, lib: Seq<char>, g: Seq<Production>, t: Seq<State>) -> Outcome {
    match parse_spec(g, t, seq![NodeT::Statement, NodeT::Function], ts) {
        Err(e) => Outcome::SyntaxErr(e),
        Ok(ns) => compile_nodes(ns, lib),
    }
}

/// Compiling parsed nodes: the semantic passes, then code generation.
#[verifier::opaque]
pub open spec fn compile_nodes(ns: Seq<NodeV>, lib: Seq<char>) -> Outcome {
    match to_ast_spec(ns, lib) {
        AstOutcome::Nodes(v) => match gen_all(v, lib) {
            Some(c) => Outcome::Code(c),
            None => Outcome::Aborted,
        },
        AstOutcome::ScopeErr(e) => Outcome::ScopeErr(e),
        AstOutcome::TypeErr(e) => Outcome::TypeErr(e),
        AstOutcome::Aborted => Outcome::Aborted,
    }
}

/// Compiles parsed nodes, as `compile_nodes` says.
fn finish(nodes: Vec<Node>, lib: &str) -> (r: Result<String, CompileError>)
    ensures
        outcome_of(r) == compile_nodes(nodes@.map_values(|n: Node| node_v(n)), lib@),
{
    proof {
        reveal(compile_nodes);
    }
    match to_ast(nodes, lib) {
        Err(CompileError::Scope(e)) => Err(CompileError::Scope(e)),
        Err(CompileError::Type(e)) => Err(CompileError::Type(e)),
        Err(_) => Err(CompileError::Aborted),
        Ok(ast) => match gen(&ast, lib) {
            Some(code) => Ok(code),
            None => Err(CompileError::Aborted),
        },
    }
}

/// The outcome of `compile`, as a value.
pub open spec fn outcome_of(r: Result<String, CompileError>) -> Outcome {
    match r {
        Ok(s) => Outcome::Code(s@),
        Err(CompileError::Lex(e)) => Outcome::LexErr(e.pos as int),
        Err(CompileError::Syntax(e)) => Outcome::SyntaxErr(e@),
        Err(CompileError::Scope(e)) => Outcome::ScopeErr(e@),
        Err(CompileError::Type(e)) => Outcome::TypeErr(e@),
        Err(CompileError::Aborted) => Outcome::Aborted,
    }
}

/// A token stream that the lexer gives has a token and the final `EOF` at least.
proof fn lemma_lex_len(s: Seq<u8>)
    requires
        lex(s) is Ok,
    ensures
        lex(s)->Ok_0.len() >= 2,
{
    let p = skip_ws(s, 0);
    lemma_skip_ws(s, 0);
    assert(p < s.len());
    assert(lex_from(s, p) is Ok);
}

/// Compiles a source with the library text `lib`: lexing, parsing, the semantic passes and code
/// generation. A lexing error as `lex` gives it; otherwise the outcome of `compile_tokens` on
/// the tokens, for the language's productions and a parse table built from them.
pub fn compile(source: &str, lib: &str) -> (r: Result<String, CompileError>)
    ensures
        match lex(vstd::string::StringSliceAdditionalSpecFns::spec_bytes(source)) {
            Err(p) => outcome_of(r) == Outcome::LexErr(p),
            Ok(ts) => exists|g: Seq<Production>, f: Seq<bool>, t: Seq<State>|
                #[trigger] language_table(g, f, t) && outcome_of(r) == compile_tokens(ts, lib@, g, t),
        },
{
    let tokens = match tokenize(source) {
        Err(e) => {
            return Err(CompileError::Lex(e));
        },
        Ok(t) => t,
    };
    let ghost ts = tokens@.map_values(|t: Token| t@);
    proof {
        lemma_lex_len(vstd::string::StringSliceAdditionalSpecFns::spec_bytes(source));
    }
    let parser = Parser::new(tokens, source);
    let ghost g = parser.rules();
    let ghost f = parser.follow_table();
    let ghost t = parser.states();
    assert(language_table(g, f, t));
    let res = match parser.parse() {
        Err(e) => Err(CompileError::Syntax(e)),
        Ok(nodes) => finish(nodes, lib),
    };
    assert(outcome_of(res) == compile_tokens(ts, lib@, g, t));
    res
}


/// The text that the compiler's web entry gives for an outcome: the code, or the error shown
/// against the source bytes `src`; `None` where showing the error fails (a
/// lexing error, an aborted compilation, or an error that its display cannot show in this
/// source).
pub open spec fn web_text(o: Outcome, src: Seq<u8>) -> Option<Result<Seq<char>, Seq<char>>> {
    match o {
        Outcome::Code(c) => Some(Ok(c)),
        Outcome::SyntaxErr(e) => if shows_syntax_error(src, e) {
            Some(Err(syntax_error_text(e, src)))
        } else {
            None
        },
        Outcome::TypeErr(e) => if shows_error(src, e.start) {
            Some(Err(type_error_text(e, src)))
        } else {
            None
        },
        Outcome::ScopeErr(_) => Some(Err("== Scope Error =="@)),
        _ => None,
    }
}

/// The value of the web entry's result.
pub open spec fn web_view(r: Option<Result<String, String>>) -> Option<Result<Seq<char>, Seq<char>>> {
    match r {
        Some(Ok(c)) => Some(Ok(c@)),
        Some(Err(m)) => Some(Err(m@)),
        None => None,
    }
}

/// The text of a compiler error shown against the source, as `web_text` says.
fn error_text(e: CompileError, source: &str) -> (r: Option<String>)
    ensures
        match web_text(outcome_of(Err(e)), vstd::string::StringSliceAdditionalSpecFns::spec_bytes(source)) {
            Some(Err(m)) => r matches Some(x) && x@ == m,
            _ => r is None,
        },
{
    match e {
        CompileError::Syntax(x) => if x.shows_in(source) {
            Some(x.to_text(source))
        } else {
            None
        },
        CompileError::Type(x) => if x.shows_in(source) {
            Some(x.to_text(source))
        } else {
            None
        },
        CompileError::Scope(x) => Some(x.to_text()),
        _ => None,
    }
}

/// Compiles a source with the library text `lib`, as `compile` does, giving the error as text
/// shown against the source, as `web_text` says.
pub fn compile_web(source: &str, lib: &str) -> (r: Option<Result<String, String>>)
    ensures
        match lex(vstd::string::StringSliceAdditionalSpecFns::spec_bytes(source)) {
            Err(p) => r is None,
            Ok(ts) => exists|g: Seq<Production>, f: Seq<bool>, t: Seq<State>|
                #[trigger] language_table(g, f, t) && web_view(r) == web_text(compile_tokens(ts, lib@, g, t), vstd::string::StringSliceAdditionalSpecFns::spec_bytes(source)),
        },
{
    let res = compile(source, lib);
    let ghost o = outcome_of(res);
    let r = match res {
        Ok(code) => Some(Ok(code)),
        Err(e) => match error_text(e, source) {
            Some(m) => Some(Err(m)),
            None => None,
        },
    };
    assert(web_view(r) == web_text(o, vstd::string::StringSliceAdditionalSpecFns::spec_bytes(source)));
    r
}

} // verus!
