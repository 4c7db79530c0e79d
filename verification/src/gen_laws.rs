use vstd::prelude::*;
use crate::token::{Type, TokenDataV};
use crate::ast::{NodeDataV, LNodeV, LElemV, LTokenV, lelem_type};
use crate::text::{dec, int_text};
use crate::codegen::{FuncV, ProgV, spaces, delta, func_push, func_prefix, wat_type, add_str, push_all, gen_tok, gen_elem, gen_list, params_prefix, op_code, gen_node};

verus! {

/// `a` is the start of `b`.
pub open spec fn starts(a: Seq<char>, b: Seq<char>) -> bool {
    a.len() <= b.len() && b.subrange(0, a.len() as int) == a
}

/// Starting is transitive.
proof fn lemma_starts_trans(a: Seq<char>, b: Seq<char>, c: Seq<char>)
    requires
        starts(a, b),
        starts(b, c),
    ensures
        starts(a, c),
{
    assert(c.subrange(0, a.len() as int) =~= c.subrange(0, b.len() as int).subrange(0, a.len() as int));
}

/// A pushed line follows the code so far.
proof fn lemma_push_starts(f: FuncV, s: Seq<char>)
    requires
        func_push(f, s) is Some,
    ensures
        starts(f.v, func_push(f, s)->Some_0.v),
{
    let v2 = func_push(f, s)->Some_0.v;
    assert(v2.subrange(0, f.v.len() as int) =~= f.v);
}

/// Pushed lines follow the code so far.
proof fn lemma_push_all_starts(f: FuncV, ls: Seq<Seq<char>>)
    requires
        push_all(f, ls) is Some,
    ensures
        starts(f.v, push_all(f, ls)->Some_0.v),
    decreases ls.len(),
{
    if ls.len() == 0 {
        assert(f.v.subrange(0, f.v.len() as int) =~= f.v);
    } else {
        lemma_push_all_starts(f, ls.drop_last());
        let f1 = push_all(f, ls.drop_last())->Some_0;
        lemma_push_starts(f1, ls.last());
        lemma_starts_trans(f.v, f1.v, push_all(f, ls)->Some_0.v);
    }
}

/// Declaring parameters leaves the body as it is.
proof fn lemma_params_prefix_body(f: FuncV, v: Seq<(Seq<char>, Type)>, k: int)
    requires
        params_prefix(f, v, k) is Some,
    ensures
        params_prefix(f, v, k)->Some_0.v == f.v,
    decreases k,
{
    if k > 0 && k <= v.len() {
        lemma_params_prefix_body(f, v, k - 1);
    }
}

/// The code of a token follows the code so far.
proof fn lemma_tok_starts(t: LTokenV, prog: ProgV, f: FuncV)
    requires
        gen_tok(t, prog, f) is Some,
    ensures
        starts(f.v, gen_tok(t, prog, f)->Some_0.1.v),
{
    match t.data {
        TokenDataV::INT(n) => lemma_push_starts(f, "(i64.const "@ + int_text(n) + ")"@),
        TokenDataV::BOOL(b) => lemma_push_starts(f, if b { "(i32.const 1)"@ } else { "(i32.const 0)"@ }),
        TokenDataV::IDENT(id) => lemma_push_starts(f, "(local.get $"@ + id + ")"@),
        TokenDataV::STR_LIT(x) => {
            let b = vstd::utf8::encode_utf8(x);
            let ptr = add_str(prog, b)->Some_0.1;
            lemma_push_all_starts(f, seq![
                "(i64.const "@ + dec(b.len()) + ")"@,
                "(i64.const 32)"@,
                "(i64.rotr)"@,
                "(i64.const "@ + dec(ptr as nat) + ")"@,
                "(i64.add)"@,
            ]);
        },
        _ => {},
    }
}

/// The code of a child follows the code so far.
proof fn lemma_elem_starts(e: LElemV, prog: ProgV, f: FuncV)
    requires
        gen_elem(e, prog, f) is Some,
    ensures
        starts(f.v, gen_elem(e, prog, f)->Some_0.1.v),
    decreases e, 2int,
{
    match e {
        LElemV::Node(n) => lemma_node_starts(n, prog, f),
        LElemV::Token(t) => lemma_tok_starts(t, prog, f),
    }
}

/// The code of children in turn follows the code so far.
proof fn lemma_list_starts(v: Seq<LElemV>, prog: ProgV, f: FuncV, k: int)
    requires
        gen_list(v, prog, f, k) is Some,
    ensures
        starts(f.v, gen_list(v, prog, f, k)->Some_0.1.v),
    decreases v, k,
{
    if k <= 0 || k > v.len() {
        assert(f.v.subrange(0, f.v.len() as int) =~= f.v);
    } else {
        lemma_list_starts(v, prog, f, k - 1);
        let (p1, f1) = gen_list(v, prog, f, k - 1)->Some_0;
        lemma_elem_starts(v[k - 1], p1, f1);
        lemma_starts_trans(f.v, f1.v, gen_list(v, prog, f, k)->Some_0.1.v);
    }
}

/// The code of a node follows the code so far.
#[verifier::spinoff_prover]
#[verifier::rlimit(60)]
proof fn lemma_node_starts(n: LNodeV, prog: ProgV, f: FuncV)
    requires
        gen_node(n, prog, f) is Some,
    ensures
        starts(f.v, gen_node(n, prog, f)->Some_0.1.v),
    decreases n, 1int,
{
    assert(f.v.subrange(0, f.v.len() as int) =~= f.v);
    let r = gen_node(n, prog, f)->Some_0.1;
    match n.data {
        NodeDataV::Function { .. } => {},
        NodeDataV::Params { v } => {
            lemma_params_prefix_body(f, v, v.len() as int);
        },
        NodeDataV::Block { v } => {
            lemma_list_starts(v, prog, f, v.len() as int);
        },
        NodeDataV::Declaration { ident, expr } => {
            let wt = wat_type(lelem_type(*expr))->Some_0;
            let f1 = func_prefix(f, "(local $"@ + ident + " "@ + wt + ")"@);
            let f2 = func_push(f1, "(local.set $"@ + ident)->Some_0;
            lemma_push_starts(f1, "(local.set $"@ + ident);
            let (p3, f3) = gen_elem(*expr, prog, f2)->Some_0;
            lemma_elem_starts(*expr, prog, f2);
            lemma_push_starts(f3, ")"@);
            lemma_starts_trans(f.v, f2.v, f3.v);
            lemma_starts_trans(f.v, f3.v, r.v);
        },
        NodeDataV::If { expr, block } => {
            let en = expr->Node_0;
            let (p1, f1) = gen_node(en, prog, f)->Some_0;
            lemma_node_starts(en, prog, f);
            let f2 = push_all(f1, seq!["(if"@, "(then"@])->Some_0;
            lemma_push_all_starts(f1, seq!["(if"@, "(then"@]);
            let (p3, f3) = gen_elem(*block, p1, f2)->Some_0;
            lemma_elem_starts(*block, p1, f2);
            lemma_push_all_starts(f3, seq![")"@, ")"@]);
            lemma_starts_trans(f.v, f1.v, f2.v);
            lemma_starts_trans(f.v, f2.v, f3.v);
            lemma_starts_trans(f.v, f3.v, r.v);
        },
        NodeDataV::Return { expr } => {
            lemma_elem_starts(*expr, prog, f);
        },
        NodeDataV::Invoke { ident, args } => {
            let f1 = func_push(f, "(call $"@ + ident)->Some_0;
            lemma_push_starts(f, "(call $"@ + ident);
            let (p2, f2) = gen_list(args, prog, f1, args.len() as int)->Some_0;
            lemma_list_starts(args, prog, f1, args.len() as int);
            lemma_push_starts(f2, ")"@);
            lemma_starts_trans(f.v, f1.v, f2.v);
            lemma_starts_trans(f.v, f2.v, r.v);
        },
        NodeDataV::UExpr { op, t } => {
            let f1 = push_all(f, seq!["(i32.ne"@, "(i32.const 1)"@])->Some_0;
            lemma_push_all_starts(f, seq!["(i32.ne"@, "(i32.const 1)"@]);
            let (p2, f2) = gen_elem(*t, prog, f1)->Some_0;
            lemma_elem_starts(*t, prog, f1);
            lemma_push_starts(f2, ")"@);
            lemma_starts_trans(f.v, f1.v, f2.v);
            lemma_starts_trans(f.v, f2.v, r.v);
        },
        NodeDataV::Expr { .. } => {
            lemma_expr_starts(n, prog, f);
        },
    }
}

/// The code of an expression node follows the code so far.
#[verifier::spinoff_prover]
proof fn lemma_expr_starts(n: LNodeV, prog: ProgV, f: FuncV)
    requires
        n.data is Expr,
        gen_node(n, prog, f) is Some,
    ensures
        starts(f.v, gen_node(n, prog, f)->Some_0.1.v),
    decreases n, 0int,
{
    let r = gen_node(n, prog, f)->Some_0.1;
    let op = n.data->Expr_op;
    let t1 = n.data->Expr_t1;
    let t2 = n.data->Expr_t2;
    let f1 = if op == seq!['=', '='] || op == seq!['!', '='] {
        let wt = wat_type(lelem_type(*t1))->Some_0;
        let a = "("@ + wt + "."@ + if op == seq!['=', '='] { "eq"@ } else { "ne"@ };
        lemma_push_starts(f, a);
        func_push(f, a)->Some_0
    } else {
        let a = op_code(n.t, op)->Some_0;
        if n.t == Type::Bool {
            lemma_push_all_starts(f, seq!["(i32.ge_u"@, a]);
            push_all(f, seq!["(i32.ge_u"@, a])->Some_0
        } else {
            lemma_push_starts(f, a);
            func_push(f, a)->Some_0
        }
    };
    let (p2, f2) = gen_elem(*t1, prog, f1)->Some_0;
    lemma_elem_starts(*t1, prog, f1);
    let (p3, f3) = gen_elem(*t2, p2, f2)->Some_0;
    lemma_elem_starts(*t2, p2, f2);
    if !(op == seq!['=', '='] || op == seq!['!', '=']) && n.t == Type::Bool {
        lemma_push_all_starts(f3, seq!["(i32.const 1)"@, ")"@, ")"@]);
    } else {
        lemma_push_starts(f3, ")"@);
    }
    lemma_starts_trans(f.v, f1.v, f2.v);
    lemma_starts_trans(f.v, f2.v, f3.v);
    lemma_starts_trans(f.v, f3.v, r.v);
}

/// Each arithmetic operator over `Int` generates its own WebAssembly operation: the code of an
/// `Int` expression with operator `+`, `-`, `*` or `/` opens, right after the code before it
/// and its indentation, with `(i64.add`, `(i64.sub`, `(i64.mul` or `(i64.div`.
pub proof fn int_operators_generate_their_instruction(n: LNodeV, prog: ProgV, f: FuncV)
    requires
        n.data is Expr,
        n.t == Type::Int,
        ({
            let op = n.data->Expr_op;
            op == seq!['+'] || op == seq!['-'] || op == seq!['*'] || op == seq!['/']
        }),
        gen_node(n, prog, f) is Some,
    ensures
        ({
            let v = gen_node(n, prog, f)->Some_0.1.v;
            let op = n.data->Expr_op;
            &&& op == seq!['+'] ==> exists|k: nat| #[trigger] starts(f.v + spaces(k) + "(i64.add"@, v)
            &&& op == seq!['-'] ==> exists|k: nat| #[trigger] starts(f.v + spaces(k) + "(i64.sub"@, v)
            &&& op == seq!['*'] ==> exists|k: nat| #[trigger] starts(f.v + spaces(k) + "(i64.mul"@, v)
            &&& op == seq!['/'] ==> exists|k: nat| #[trigger] starts(f.v + spaces(k) + "(i64.div"@, v)
        }),
{
    let op = n.data->Expr_op;
    let t1 = n.data->Expr_t1;
    let a = op_code(n.t, op)->Some_0;
    let f1 = func_push(f, a)->Some_0;
    lemma_push_starts(f, a);
    let d = delta(a);
    let k = (if d < 0 { f.t + d } else { f.t }) as nat;
    assert(f1.v == f.v + spaces(k) + a + seq!['\n']);
    let (p2, f2) = gen_elem(*t1, prog, f1)->Some_0;
    lemma_elem_starts(*t1, prog, f1);
    let (p3, f3) = gen_elem(*n.data->Expr_t2, p2, f2)->Some_0;
    lemma_elem_starts(*n.data->Expr_t2, p2, f2);
    lemma_push_starts(f3, ")"@);
    let v = gen_node(n, prog, f)->Some_0.1.v;
    lemma_starts_trans(f1.v, f2.v, f3.v);
    lemma_starts_trans(f1.v, f3.v, v);
    assert(starts(f.v + spaces(k) + a, f1.v)) by {
        assert(f1.v.subrange(0, (f.v + spaces(k) + a).len() as int) =~= f.v + spaces(k) + a);
    }
    lemma_starts_trans(f.v + spaces(k) + a, f1.v, v);
    assert(seq!['+'] != seq!['-']) by { assert(seq!['+'][0] != seq!['-'][0]); }
    assert(seq!['+'] != seq!['*']) by { assert(seq!['+'][0] != seq!['*'][0]); }
    assert(seq!['+'] != seq!['/']) by { assert(seq!['+'][0] != seq!['/'][0]); }
    assert(seq!['-'] != seq!['*']) by { assert(seq!['-'][0] != seq!['*'][0]); }
    assert(seq!['-'] != seq!['/']) by { assert(seq!['-'][0] != seq!['/'][0]); }
    assert(seq!['*'] != seq!['/']) by { assert(seq!['*'][0] != seq!['/'][0]); }
    if op == seq!['+'] {
        assert(a == "(i64.add"@);
        assert(starts(f.v + spaces(k) + "(i64.add"@, v));
    } else if op == seq!['-'] {
        assert(op != seq!['+']) by { assert(op[0] != seq!['+'][0]); }
        assert(a == "(i64.sub"@);
        assert(starts(f.v + spaces(k) + "(i64.sub"@, v));
    } else if op == seq!['*'] {
        assert(op != seq!['+']) by { assert(op[0] != seq!['+'][0]); }
        assert(op != seq!['-']) by { assert(op[0] != seq!['-'][0]); }
        assert(a == "(i64.mul"@);
        assert(starts(f.v + spaces(k) + "(i64.mul"@, v));
    } else {
        assert(op != seq!['+']) by { assert(op[0] != seq!['+'][0]); }
        assert(op != seq!['-']) by { assert(op[0] != seq!['-'][0]); }
        assert(op != seq!['*']) by { assert(op[0] != seq!['*'][0]); }
        assert(a == "(i64.div"@);
        assert(starts(f.v + spaces(k) + "(i64.div"@, v));
    }
}

/// Comparisons generate their own operation on the operands' type: `==` over `Int` operands
/// opens with `(i64.eq`, `!=` with `(i64.ne`, and over `Bool` operands `(i32.eq` and
/// `(i32.ne`.
#[verifier::spinoff_prover]
#[verifier::rlimit(40)]
pub proof fn comparisons_generate_their_instruction(n: LNodeV, prog: ProgV, f: FuncV)
    requires
        n.data is Expr,
        n.data->Expr_op == seq!['=', '='] || n.data->Expr_op == seq!['!', '='],
        gen_node(n, prog, f) is Some,
    ensures
        ({
            let v = gen_node(n, prog, f)->Some_0.1.v;
            let op = n.data->Expr_op;
            let ty = lelem_type(*n.data->Expr_t1);
            &&& (op == seq!['=', '='] && ty == Type::Int) ==> exists|k: nat| #[trigger] starts(f.v + spaces(k) + ("("@ + "i64"@ + "."@ + "eq"@), v)
            &&& (op == seq!['!', '='] && ty == Type::Int) ==> exists|k: nat| #[trigger] starts(f.v + spaces(k) + ("("@ + "i64"@ + "."@ + "ne"@), v)
            &&& (op == seq!['=', '='] && ty == Type::Bool) ==> exists|k: nat| #[trigger] starts(f.v + spaces(k) + ("("@ + "i32"@ + "."@ + "eq"@), v)
            &&& (op == seq!['!', '='] && ty == Type::Bool) ==> exists|k: nat| #[trigger] starts(f.v + spaces(k) + ("("@ + "i32"@ + "."@ + "ne"@), v)
        }),
{
    let op = n.data->Expr_op;
    let t1 = n.data->Expr_t1;
    let v = gen_node(n, prog, f)->Some_0.1.v;
    assert(seq!['=', '='] != seq!['!', '=']) by { assert(seq!['=', '='][0] != seq!['!', '='][0]); }
    let wt = wat_type(lelem_type(*t1))->Some_0;
    let a = "("@ + wt + "."@ + if op == seq!['=', '='] { "eq"@ } else { "ne"@ };
    let f1 = func_push(f, a)->Some_0;
    let d = delta(a);
    let k = (if d < 0 { f.t + d } else { f.t }) as nat;
    assert(f1.v == f.v + spaces(k) + a + seq!['\n']);
    let (p2, f2) = gen_elem(*t1, prog, f1)->Some_0;
    lemma_elem_starts(*t1, prog, f1);
    let (p3, f3) = gen_elem(*n.data->Expr_t2, p2, f2)->Some_0;
    lemma_elem_starts(*n.data->Expr_t2, p2, f2);
    lemma_push_starts(f3, ")"@);
    lemma_starts_trans(f1.v, f2.v, f3.v);
    lemma_starts_trans(f1.v, f3.v, v);
    assert(starts(f.v + spaces(k) + a, f1.v)) by {
        assert(f1.v.subrange(0, (f.v + spaces(k) + a).len() as int) =~= f.v + spaces(k) + a);
    }
    lemma_starts_trans(f.v + spaces(k) + a, f1.v, v);
    assert(starts(f.v + spaces(k) + a, v));
}

/// `&&` and `||` over `Bool` generate `i32.and` and `i32.or`: their code opens with the
/// comparison with 1 that gives the result, `(i32.ge_u`, then `(i32.and` or `(i32.or`.
#[verifier::spinoff_prover]
#[verifier::rlimit(40)]
pub proof fn logic_generates_its_instruction(n: LNodeV, prog: ProgV, f: FuncV)
    requires
        n.data is Expr,
        n.t == Type::Bool,
        n.data->Expr_op == seq!['&', '&'] || n.data->Expr_op == seq!['|', '|'],
        gen_node(n, prog, f) is Some,
    ensures
        ({
            let v = gen_node(n, prog, f)->Some_0.1.v;
            let op = n.data->Expr_op;
            &&& op == seq!['&', '&'] ==> exists|k: nat, m: nat| #[trigger] starts(f.v + spaces(k) + "(i32.ge_u"@ + seq!['\n'] + spaces(m) + "(i32.and"@, v)
            &&& op == seq!['|', '|'] ==> exists|k: nat, m: nat| #[trigger] starts(f.v + spaces(k) + "(i32.ge_u"@ + seq!['\n'] + spaces(m) + "(i32.or"@, v)
        }),
{
    let op = n.data->Expr_op;
    let t1 = n.data->Expr_t1;
    let v = gen_node(n, prog, f)->Some_0.1.v;
    assert(seq!['&', '&'] != seq!['=', '=']) by { assert(seq!['&', '&'][0] != seq!['=', '='][0]); }
    assert(seq!['&', '&'] != seq!['!', '=']) by { assert(seq!['&', '&'][0] != seq!['!', '='][0]); }
    assert(seq!['|', '|'] != seq!['=', '=']) by { assert(seq!['|', '|'][0] != seq!['=', '='][0]); }
    assert(seq!['|', '|'] != seq!['!', '=']) by { assert(seq!['|', '|'][0] != seq!['!', '='][0]); }
    assert(seq!['|', '|'] != seq!['&', '&']) by { assert(seq!['|', '|'][0] != seq!['&', '&'][0]); }
    let a = op_code(n.t, op)->Some_0;
    let ls = seq!["(i32.ge_u"@, a];
    assert(ls.drop_last() =~= seq!["(i32.ge_u"@]);
    let l1 = seq!["(i32.ge_u"@];
    assert(l1.drop_last() =~= Seq::<Seq<char>>::empty());
    assert(l1.last() == "(i32.ge_u"@);
    assert(push_all(f, l1.drop_last()) == Some(f));
    assert(push_all(f, l1) == func_push(f, "(i32.ge_u"@));
    assert(ls.last() == a);
    assert(push_all(f, ls) is Some);
    let g1 = func_push(f, "(i32.ge_u"@)->Some_0;
    let f1 = func_push(g1, a)->Some_0;
    assert(push_all(f, ls) == Some(f1));
    let d = delta("(i32.ge_u"@);
    let k = (if d < 0 { f.t + d } else { f.t }) as nat;
    let d2 = delta(a);
    let m = (if d2 < 0 { g1.t + d2 } else { g1.t }) as nat;
    let w = f.v + spaces(k) + "(i32.ge_u"@ + seq!['\n'] + spaces(m) + a;
    assert(f1.v =~= w + seq!['\n']);
    let (p2, f2) = gen_elem(*t1, prog, f1)->Some_0;
    lemma_elem_starts(*t1, prog, f1);
    let (p3, f3) = gen_elem(*n.data->Expr_t2, p2, f2)->Some_0;
    lemma_elem_starts(*n.data->Expr_t2, p2, f2);
    lemma_push_all_starts(f3, seq!["(i32.const 1)"@, ")"@, ")"@]);
    lemma_starts_trans(f1.v, f2.v, f3.v);
    lemma_starts_trans(f1.v, f3.v, v);
    assert(starts(w, f1.v)) by {
        assert(f1.v.subrange(0, w.len() as int) =~= w);
    }
    lemma_starts_trans(w, f1.v, v);
    if op == seq!['&', '&'] {
        assert(a == "(i32.and"@);
        assert(starts(f.v + spaces(k) + "(i32.ge_u"@ + seq!['\n'] + spaces(m) + "(i32.and"@, v));
    } else {
        assert(a == "(i32.or"@);
        assert(starts(f.v + spaces(k) + "(i32.ge_u"@ + seq!['\n'] + spaces(m) + "(i32.or"@, v));
    }
}

/// A declaration sets its variable: its code opens with `(local.set $` and the variable's name.
pub proof fn declaration_sets_its_local(n: LNodeV, prog: ProgV, f: FuncV)
    requires
        n.data is Declaration,
        gen_node(n, prog, f) is Some,
    ensures
        exists|k: nat| #[trigger] starts(f.v + spaces(k) + ("(local.set $"@ + n.data->Declaration_ident), gen_node(n, prog, f)->Some_0.1.v),
{
    let ident = n.data->Declaration_ident;
    let expr = n.data->Declaration_expr;
    let v = gen_node(n, prog, f)->Some_0.1.v;
    let wt = wat_type(lelem_type(*expr))->Some_0;
    let f1 = func_prefix(f, "(local $"@ + ident + " "@ + wt + ")"@);
    let a = "(local.set $"@ + ident;
    let f2 = func_push(f1, a)->Some_0;
    let d = delta(a);
    let k = (if d < 0 { f1.t + d } else { f1.t }) as nat;
    assert(f2.v == f.v + spaces(k) + a + seq!['\n']);
    let (p3, f3) = gen_elem(*expr, prog, f2)->Some_0;
    lemma_elem_starts(*expr, prog, f2);
    lemma_push_starts(f3, ")"@);
    lemma_starts_trans(f2.v, f3.v, v);
    assert(starts(f.v + spaces(k) + a, f2.v)) by {
        assert(f2.v.subrange(0, (f.v + spaces(k) + a).len() as int) =~= f.v + spaces(k) + a);
    }
    lemma_starts_trans(f.v + spaces(k) + a, f2.v, v);
}

/// A call calls its function: its code opens with `(call $` and the function's name.
pub proof fn invocation_calls_its_function(n: LNodeV, prog: ProgV, f: FuncV)
    requires
        n.data is Invoke,
        gen_node(n, prog, f) is Some,
    ensures
        exists|k: nat| #[trigger] starts(f.v + spaces(k) + ("(call $"@ + n.data->Invoke_ident), gen_node(n, prog, f)->Some_0.1.v),
{
    let ident = n.data->Invoke_ident;
    let args = n.data->Invoke_args;
    let v = gen_node(n, prog, f)->Some_0.1.v;
    let a = "(call $"@ + ident;
    let f1 = func_push(f, a)->Some_0;
    let d = delta(a);
    let k = (if d < 0 { f.t + d } else { f.t }) as nat;
    assert(f1.v == f.v + spaces(k) + a + seq!['\n']);
    let (p2, f2) = gen_list(args, prog, f1, args.len() as int)->Some_0;
    lemma_list_starts(args, prog, f1, args.len() as int);
    lemma_push_starts(f2, ")"@);
    lemma_starts_trans(f1.v, f2.v, v);
    assert(starts(f.v + spaces(k) + a, f1.v)) by {
        assert(f1.v.subrange(0, (f.v + spaces(k) + a).len() as int) =~= f.v + spaces(k) + a);
    }
    lemma_starts_trans(f.v + spaces(k) + a, f1.v, v);
}

/// An integer literal is pushed by its value: its code is the line `(i64.const n)`.
pub proof fn int_literal_is_its_value(t: LTokenV, prog: ProgV, f: FuncV)
    requires
        t.data is INT,
        gen_tok(t, prog, f) is Some,
    ensures
        exists|k: nat| #[trigger] spaces(k).len() >= 0 && gen_tok(t, prog, f)->Some_0.1.v == f.v + spaces(k) + ("(i64.const "@ + int_text(t.data->INT_0) + ")"@) + seq!['\n'],
{
    let a = "(i64.const "@ + int_text(t.data->INT_0) + ")"@;
    let d = delta(a);
    let k = (if d < 0 { f.t + d } else { f.t }) as nat;
    assert(spaces(k).len() >= 0);
}

} // verus!
