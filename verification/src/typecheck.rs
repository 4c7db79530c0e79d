use vstd::prelude::*;
use crate::grammar::NodeT;
use crate::token::{Type, TokenData, TokenDataV};
use crate::ast::{data_kind, NodeData, NodeDataV, LNode, LElem, LToken, LNodeV, LElemV, LTokenV, lnode_v, lelem_v, lelems_v, ltoken_v, data_v, lelem_start, lemma_lelems_v, lemma_lelems_v_push};
use crate::text::{dec, usize_text};

verus! {

/// A type error: where it is, its message, and the types expected and found when there are.
#[derive(Debug)]
pub struct TypeError {
    pub start: usize,
    pub msg: String,
    pub expected: Option<Type>,
    pub found: Option<Type>,
}

/// The mathematical value of a type error.
pub struct TypeErrorV {
    pub start: int,
    pub msg: Seq<char>,
    pub expected: Option<Type>,
    pub found: Option<Type>,
}

impl View for TypeError {
    type V = TypeErrorV;

    open spec fn view(&self) -> TypeErrorV {
        TypeErrorV { start: self.start as int, msg: self.msg@, expected: self.expected, found: self.found }
    }
}

/// The parameter types and return type of a function.
pub type FuncSig = (Vec<Type>, Type);

/// The types of variables and the signatures of functions, each name defined once.
pub struct TypeTable {
    vars: Vec<(String, Type)>,
    funcs: Vec<(String, FuncSig)>,
}

/// A signature as values.
pub type SigV = (Seq<Type>, Type);

/// The value of a type table: its variables and its functions, in order of definition.
pub struct TableV {
    pub vars: Seq<(Seq<char>, Type)>,
    pub funcs: Seq<(Seq<char>, SigV)>,
}

/// What a list of pairs maps `k` to: the value of its last pair with key `k`.
pub open spec fn alist_get<V>(s: Seq<(Seq<char>, V)>, k: Seq<char>) -> Option<V>
    decreases s.len(),
{
    if s.len() == 0 {
        None
    } else if s.last().0 == k {
        Some(s.last().1)
    } else {
        alist_get(s.drop_last(), k)
    }
}

/// A definition is read back: after a name is defined, it maps to what it was defined with,
/// and every other name maps to what it did before.
pub proof fn define_then_get<V>(s: Seq<(Seq<char>, V)>, k: Seq<char>, v: V, other: Seq<char>)
    ensures
        alist_get(s.push((k, v)), k) == Some(v),
        other != k ==> alist_get(s.push((k, v)), other) == alist_get(s, other),
{
    assert(s.push((k, v)).drop_last() =~= s);
}


impl View for TypeTable {
    type V = TableV;

    closed spec fn view(&self) -> TableV {
        TableV {
            vars: Seq::new(self.vars@.len(), |i: int| (self.vars@[i].0@, self.vars@[i].1)),
            funcs: Seq::new(self.funcs@.len(), |i: int| (self.funcs@[i].0@, (self.funcs@[i].1.0@, self.funcs@[i].1.1))),
        }
    }
}

/// Looks up `k` in the pairs `v` by string equality.
fn find_var(v: &Vec<(String, Type)>, k: &String) -> (r: Option<Type>)
    ensures
        r == alist_get(Seq::new(v@.len(), |i: int| (v@[i].0@, v@[i].1)), k@),
{
    let ghost s = Seq::new(v@.len(), |i: int| (v@[i].0@, v@[i].1));
    let mut j = v.len();
    assert(s.subrange(0, j as int) =~= s);
    while j > 0
        invariant
            j <= v@.len(),
            s == Seq::new(v@.len(), |i: int| (v@[i].0@, v@[i].1)),
            alist_get(s, k@) == alist_get(s.subrange(0, j as int), k@),
        decreases j,
    {
        let ghost sub = s.subrange(0, j as int);
        assert(sub.drop_last() =~= s.subrange(0, j - 1));
        if v[j - 1].0 == *k {
            return Some(v[j - 1].1);
        }
        j -= 1;
    }
    None
}

/// Looks up `k` in the signature pairs `v` by string equality, giving the position.
fn find_func(v: &Vec<(String, FuncSig)>, k: &String) -> (r: Option<usize>)
    ensures
        match r {
            Some(i) => i < v@.len() && alist_get(Seq::new(v@.len(), |i: int| (v@[i].0@, (v@[i].1.0@, v@[i].1.1))), k@) == Some((v@[i as int].1.0@, v@[i as int].1.1)),
            None => alist_get(Seq::new(v@.len(), |i: int| (v@[i].0@, (v@[i].1.0@, v@[i].1.1))), k@) is None,
        },
{
    let ghost s = Seq::new(v@.len(), |i: int| (v@[i].0@, (v@[i].1.0@, v@[i].1.1)));
    let mut j = v.len();
    assert(s.subrange(0, j as int) =~= s);
    while j > 0
        invariant
            j <= v@.len(),
            s == Seq::new(v@.len(), |i: int| (v@[i].0@, (v@[i].1.0@, v@[i].1.1))),
            alist_get(s, k@) == alist_get(s.subrange(0, j as int), k@),
        decreases j,
    {
        let ghost sub = s.subrange(0, j as int);
        assert(sub.drop_last() =~= s.subrange(0, j - 1));
        if v[j - 1].0 == *k {
            return Some(j - 1);
        }
        j -= 1;
    }
    None
}

/// A copy of a list of types.
fn copy_types(v: &Vec<Type>) -> (r: Vec<Type>)
    ensures
        r@ == v@,
{
    let mut r: Vec<Type> = Vec::new();
    let mut i: usize = 0;
    while i < v.len()
        invariant
            i <= v@.len(),
            r@ == v@.subrange(0, i as int),
        decreases v@.len() - i,
    {
        r.push(v[i]);
        i += 1;
    }
    assert(r@ =~= v@);
    r
}

impl TypeTable {
    /// An empty table.
    pub fn new() -> (t: Self)
        ensures
            t@.vars == Seq::<(Seq<char>, Type)>::empty(),
            t@.funcs == Seq::<(Seq<char>, SigV)>::empty(),
    {
        let t = TypeTable { vars: Vec::new(), funcs: Vec::new() };
        assert(t@.vars =~= Seq::<(Seq<char>, Type)>::empty());
        assert(t@.funcs =~= Seq::<(Seq<char>, SigV)>::empty());
        t
    }

    /// The type of variable `ident`.
    pub fn get_v(&self, ident: &String) -> (r: Option<Type>)
        ensures
            r == alist_get(self@.vars, ident@),
    {
        find_var(&self.vars, ident)
    }

    /// The signature of function `ident`.
    pub fn get_f(&self, ident: &String) -> (r: Option<FuncSig>)
        ensures
            match (alist_get(self@.funcs, ident@), r) {
                (None, None) => true,
                (Some(v), Some(x)) => x.0@ == v.0 && x.1 == v.1,
                _ => false,
            },
    {
        match find_func(&self.funcs, ident) {
            Some(i) => Some((copy_types(&self.funcs[i].1.0), self.funcs[i].1.1)),
            None => None,
        }
    }

    /// Defines variable `ident` with type `t`; `false`, with the table unchanged, when it is
    /// defined already.
    pub fn define_v(&mut self, ident: &String, t: Type) -> (ok: bool)
        ensures
            ok == (alist_get(old(self)@.vars, ident@) is None),
            final(self)@.funcs == old(self)@.funcs,
            final(self)@.vars == if ok { old(self)@.vars.push((ident@, t)) } else { old(self)@.vars },
    {
        if find_var(&self.vars, ident).is_some() {
            return false;
        }
        let ghost before = self@;
        self.vars.push((ident.clone(), t));
        assert(self@.vars =~= before.vars.push((ident@, t)));
        assert(self@.funcs =~= before.funcs);
        true
    }

    /// Defines function `ident` with signature `sig`; `false`, with the table unchanged, when it
    /// is defined already.
    pub fn define_f(&mut self, ident: &String, sig: FuncSig) -> (ok: bool)
        ensures
            ok == (alist_get(old(self)@.funcs, ident@) is None),
            final(self)@.vars == old(self)@.vars,
            final(self)@.funcs == if ok { old(self)@.funcs.push((ident@, (sig.0@, sig.1))) } else { old(self)@.funcs },
    {
        if find_func(&self.funcs, ident).is_some() {
            return false;
        }
        let ghost before = self@;
        let ghost sv = (sig.0@, sig.1);
        self.funcs.push((ident.clone(), sig));
        assert(self@.funcs =~= before.funcs.push((ident@, sv)));
        assert(self@.vars =~= before.vars);
        true
    }
}


/// The outcome of checking: a result, a type error, or an input on which checking stops
/// without one (an operator its operands do not take, a name with no type, a second
/// definition of a name, a `return` outside any function, a node that is not a statement or
/// expression).
pub enum Checked<T> {
    Done(T),
    Failed(TypeErrorV),
    Abort,
}

/// The table and the function being checked.
pub struct Env {
    pub tab: TableV,
    pub cur: Option<Seq<char>>,
}

/// The message for operands of different types.
pub open spec fn same_type_msg() -> Seq<char> {
    "Expression terms not of same type"@
}

/// The message for an `if` over a non-boolean.
pub open spec fn if_msg() -> Seq<char> {
    "If statement expression does not evaluate to a boolean"@
}

/// The message for a returned value of the wrong type.
pub open spec fn ret_msg() -> Seq<char> {
    "Return expression does not match function signature"@
}

/// The message for a call with the wrong number of arguments.
pub open spec fn arity_msg(expected: nat, found: nat) -> Seq<char> {
    "Argument lengths mismatched. expected "@ + dec(expected) + ", found "@ + dec(found)
}

/// The message for an argument of the wrong type.
pub open spec fn arg_msg(i: nat) -> Seq<char> {
    "Argument no."@ + dec(i) + " has mismatched type."@
}

/// The type of a binary expression: `==` and `!=` give `Bool` on any operands of one type,
/// `||` and `&&` give `Bool` on `Bool`s, `* + - /` give `Int` on `Int`s; `None` otherwise.
pub open spec fn expr_type(a: Type, op: Seq<char>, b: Type) -> Option<Type> {
    if op == seq!['=', '='] || op == seq!['!', '='] {
        Some(Type::Bool)
    } else if a == Type::Bool && b == Type::Bool && (op == seq!['|', '|'] || op == seq!['&', '&']) {
        Some(Type::Bool)
    } else if a == Type::Int && b == Type::Int && (op == seq!['*'] || op == seq!['+'] || op == seq!['-'] || op == seq!['/']) {
        Some(Type::Int)
    } else {
        None
    }
}

/// The type of a token: `Int`, `Bool` and `String` for literals, the variable's type for an
/// identifier.
pub open spec fn tc_tok(t: LTokenV, tab: TableV) -> Checked<(LTokenV, Type)> {
    let ty: Option<Type> = match t.data {
        TokenDataV::INT(_) => Some(Type::Int),
        TokenDataV::BOOL(_) => Some(Type::Bool),
        TokenDataV::STR_LIT(_) => Some(Type::String),
        TokenDataV::IDENT(id) => alist_get(tab.vars, id),
        _ => None,
    };
    match ty {
        Some(ty) => Checked::Done((LTokenV { start: t.start, end: t.end, data: t.data, t: ty }, ty)),
        None => Checked::Abort,
    }
}

/// Checks a child: gives it and its type.
pub open spec fn tc_elem(e: LElemV, env: Env) -> (Env, Checked<(LElemV, Type)>)
    decreases e, 1int,
{
    match e {
        LElemV::Token(t) => (env, match tc_tok(t, env.tab) {
            Checked::Done((t2, ty)) => Checked::Done((LElemV::Token(t2), ty)),
            Checked::Failed(x) => Checked::Failed(x),
            Checked::Abort => Checked::Abort,
        }),
        LElemV::Node(n) => {
            let (env2, r) = tc_node(n, env);
            (env2, match r {
                Checked::Done((n2, ty)) => Checked::Done((LElemV::Node(n2), ty)),
                Checked::Failed(x) => Checked::Failed(x),
                Checked::Abort => Checked::Abort,
            })
        },
    }
}

/// Checks the first `k` statements of a block in turn, stopping at the first failure.
pub open spec fn tc_stmts(v: Seq<LElemV>, env: Env, k: int) -> (Env, Checked<Seq<LElemV>>)
    decreases v, k,
{
    if k <= 0 || k > v.len() {
        (env, Checked::Done(seq![]))
    } else {
        let (env1, r) = tc_stmts(v, env, k - 1);
        match r {
            Checked::Done(done) => {
                let (env2, r2) = tc_elem(v[k - 1], env1);
                (env2, match r2 {
                    Checked::Done((x, _)) => Checked::Done(done.push(x)),
                    Checked::Failed(x) => Checked::Failed(x),
                    Checked::Abort => Checked::Abort,
                })
            },
            Checked::Failed(x) => (env1, Checked::Failed(x)),
            Checked::Abort => (env1, Checked::Abort),
        }
    }
}

/// Checks the first `k` arguments of a call at `start` against the parameter types `sig`.
pub open spec fn tc_args(v: Seq<LElemV>, sig: Seq<Type>, start: int, env: Env, k: int) -> (Env, Checked<Seq<LElemV>>)
    decreases v, k,
{
    if k <= 0 || k > v.len() {
        (env, Checked::Done(seq![]))
    } else {
        let (env1, r) = tc_args(v, sig, start, env, k - 1);
        match r {
            Checked::Done(done) => {
                let (env2, r2) = tc_elem(v[k - 1], env1);
                (env2, match r2 {
                    Checked::Done((x, ty)) => if ty != sig[k - 1] {
                        Checked::Failed(TypeErrorV { start, msg: arg_msg((k - 1) as nat), expected: Some(sig[k - 1]), found: Some(ty) })
                    } else {
                        Checked::Done(done.push(x))
                    },
                    Checked::Failed(x) => Checked::Failed(x),
                    Checked::Abort => Checked::Abort,
                })
            },
            Checked::Failed(x) => (env1, Checked::Failed(x)),
            Checked::Abort => (env1, Checked::Abort),
        }
    }
}

/// Defines the first `k` parameters `v` as variables in turn: the table afterwards, and whether
/// none was defined already (defining stops at the first that was).
pub open spec fn define_params(v: Seq<(Seq<char>, Type)>, tab: TableV, k: int) -> (TableV, bool)
    decreases k,
{
    if k <= 0 || k > v.len() {
        (tab, true)
    } else {
        let (t1, ok) = define_params(v, tab, k - 1);
        if !ok {
            (t1, false)
        } else if alist_get(t1.vars, v[k - 1].0) is Some {
            (t1, false)
        } else {
            (TableV { vars: t1.vars.push(v[k - 1]), funcs: t1.funcs }, true)
        }
    }
}

/// The parameter pairs of a function's parameter node.
pub open spec fn params_of(p: Option<Box<LElemV>>) -> Option<Seq<(Seq<char>, Type)>> {
    match p {
        None => Some(seq![]),
        Some(b) => match *b {
            LElemV::Node(n) => match n.data {
                NodeDataV::Params { v } => Some(v),
                _ => None,
            },
            LElemV::Token(_) => None,
        },
    }
}

/// The types of parameter pairs.
pub open spec fn param_types(v: Seq<(Seq<char>, Type)>) -> Seq<Type> {
    Seq::new(v.len(), |i: int| v[i].1)
}

/// A node with a new payload and type.
pub open spec fn retyped(n: LNodeV, d: NodeDataV, t: Type) -> LNodeV {
    LNodeV { start: n.start, end: n.end, data: d, t }
}

/// Checks a node of the abstract syntax tree against the table: each node gets the type it
/// evaluates to. An expression's operands must have one type, and its type is `expr_type`; a
/// unary `!` takes a `Bool`; an `if` needs a `Bool` (its block is kept as it is); a `return`
/// needs the return type of the function it is in; a call needs as many arguments as its
/// function has parameters, each of the parameter's type, and has the function's return type;
/// a declaration defines its variable with its expression's type; a function defines its
/// parameters and its signature, then checks its block. Blocks, declarations and functions are
/// `Void`. Gives the table and function afterwards, and the outcome.
pub open spec fn tc_node(n: LNodeV, env: Env) -> (Env, Checked<(LNodeV, Type)>)
    decreases n, 0int,
{
    match n.data {
        NodeDataV::Expr { t1, t2, op } => {
            let (e1, r1) = tc_elem(*t1, env);
            match r1 {
                Checked::Done((a, at)) => {
                    let (e2, r2) = tc_elem(*t2, e1);
                    match r2 {
                        Checked::Done((b, bt)) => if at != bt {
                            (e2, Checked::Failed(TypeErrorV { start: lelem_start(b), msg: same_type_msg(), expected: Some(at), found: Some(bt) }))
                        } else {
                            match expr_type(at, op, bt) {
                                Some(ty) => (e2, Checked::Done((retyped(n, NodeDataV::Expr { t1: Box::new(a), t2: Box::new(b), op }, ty), ty))),
                                None => (e2, Checked::Abort),
                            }
                        },
                        Checked::Failed(x) => (e2, Checked::Failed(x)),
                        Checked::Abort => (e2, Checked::Abort),
                    }
                },
                Checked::Failed(x) => (e1, Checked::Failed(x)),
                Checked::Abort => (e1, Checked::Abort),
            }
        },
        NodeDataV::UExpr { op, t } => {
            let (e1, r1) = tc_elem(*t, env);
            match r1 {
                Checked::Done((a, at)) => if at == Type::Bool && op == seq!['!'] {
                    (e1, Checked::Done((retyped(n, NodeDataV::UExpr { op, t: Box::new(a) }, Type::Bool), Type::Bool)))
                } else {
                    (e1, Checked::Abort)
                },
                Checked::Failed(x) => (e1, Checked::Failed(x)),
                Checked::Abort => (e1, Checked::Abort),
            }
        },
        NodeDataV::If { expr, block } => {
            let (e1, r1) = tc_elem(*expr, env);
            match r1 {
                Checked::Done((a, at)) => if at != Type::Bool {
                    (e1, Checked::Failed(TypeErrorV { start: lelem_start(a), msg: if_msg(), expected: Some(Type::Bool), found: Some(at) }))
                } else {
                    (e1, Checked::Done((retyped(n, NodeDataV::If { expr: Box::new(a), block }, at), at)))
                },
                Checked::Failed(x) => (e1, Checked::Failed(x)),
                Checked::Abort => (e1, Checked::Abort),
            }
        },
        NodeDataV::Return { expr } => {
            let (e1, r1) = tc_elem(*expr, env);
            match r1 {
                Checked::Done((a, at)) => match e1.cur {
                    None => (e1, Checked::Abort),
                    Some(f) => match alist_get(e1.tab.funcs, f) {
                        None => (e1, Checked::Abort),
                        Some(sig) => if sig.1 != at {
                            (e1, Checked::Failed(TypeErrorV { start: lelem_start(a), msg: ret_msg(), expected: Some(sig.1), found: Some(at) }))
                        } else {
                            (e1, Checked::Done((retyped(n, NodeDataV::Return { expr: Box::new(a) }, at), at)))
                        },
                    },
                },
                Checked::Failed(x) => (e1, Checked::Failed(x)),
                Checked::Abort => (e1, Checked::Abort),
            }
        },
        NodeDataV::Invoke { ident, args } => match alist_get(env.tab.funcs, ident) {
            None => (env, Checked::Abort),
            Some(sig) => if args.len() != sig.0.len() {
                (env, Checked::Failed(TypeErrorV { start: n.start, msg: arity_msg(sig.0.len(), args.len()), expected: None, found: None }))
            } else {
                let (e1, r1) = tc_args(args, sig.0, n.start, env, args.len() as int);
                match r1 {
                    Checked::Done(v) => match alist_get(e1.tab.funcs, ident) {
                        Some(sig2) => (e1, Checked::Done((retyped(n, NodeDataV::Invoke { ident, args: v }, sig2.1), sig2.1))),
                        None => (e1, Checked::Abort),
                    },
                    Checked::Failed(x) => (e1, Checked::Failed(x)),
                    Checked::Abort => (e1, Checked::Abort),
                }
            },
        },
        NodeDataV::Block { v } => {
            let (e1, r1) = tc_stmts(v, env, v.len() as int);
            match r1 {
                Checked::Done(v2) => (e1, Checked::Done((retyped(n, NodeDataV::Block { v: v2 }, Type::Void), Type::Void))),
                Checked::Failed(x) => (e1, Checked::Failed(x)),
                Checked::Abort => (e1, Checked::Abort),
            }
        },
        NodeDataV::Declaration { ident, expr } => {
            let (e1, r1) = tc_elem(*expr, env);
            match r1 {
                Checked::Done((a, at)) => if alist_get(e1.tab.vars, ident) is Some {
                    (e1, Checked::Abort)
                } else {
                    (Env { tab: TableV { vars: e1.tab.vars.push((ident, at)), funcs: e1.tab.funcs }, cur: e1.cur },
                        Checked::Done((retyped(n, NodeDataV::Declaration { ident, expr: Box::new(a) }, Type::Void), Type::Void)))
                },
                Checked::Failed(x) => (e1, Checked::Failed(x)),
                Checked::Abort => (e1, Checked::Abort),
            }
        },
        NodeDataV::Function { ident, params, r_type, block } => {
            let env0 = Env { tab: env.tab, cur: Some(ident) };
            match params_of(params) {
                None => (env0, Checked::Abort),
                Some(ps) => match define_params(ps, env0.tab, ps.len() as int) {
                    (t1, false) => (Env { tab: t1, cur: env0.cur }, Checked::Abort),
                    (t1, true) => if alist_get(t1.funcs, ident) is Some {
                        (Env { tab: t1, cur: env0.cur }, Checked::Abort)
                    } else {
                        let env1 = Env { tab: TableV { vars: t1.vars, funcs: t1.funcs.push((ident, (param_types(ps), r_type))) }, cur: env0.cur };
                        let (e2, r2) = tc_elem(*block, env1);
                        match r2 {
                            Checked::Done((b, _)) => (e2, Checked::Done((retyped(n, NodeDataV::Function { ident, params, r_type, block: Box::new(b) }, Type::Void), Type::Void))),
                            Checked::Failed(x) => (e2, Checked::Failed(x)),
                            Checked::Abort => (e2, Checked::Abort),
                        }
                    },
                },
            }
        },
        NodeDataV::Params { .. } => (env, Checked::Abort),
    }
}

/// `b` holds every definition of `a`, in the same places: definitions are only ever added.
pub open spec fn grows(a: TableV, b: TableV) -> bool {
    &&& a.vars.len() <= b.vars.len()
    &&& b.vars.subrange(0, a.vars.len() as int) == a.vars
    &&& a.funcs.len() <= b.funcs.len()
    &&& b.funcs.subrange(0, a.funcs.len() as int) == a.funcs
}

/// Growing is transitive.
proof fn lemma_grows_trans(a: TableV, b: TableV, c: TableV)
    requires
        grows(a, b),
        grows(b, c),
    ensures
        grows(a, c),
{
    assert(c.vars.subrange(0, a.vars.len() as int) =~= b.vars.subrange(0, a.vars.len() as int));
    assert(c.funcs.subrange(0, a.funcs.len() as int) =~= b.funcs.subrange(0, a.funcs.len() as int));
}

/// Every table grows into itself.
proof fn lemma_grows_refl(a: TableV)
    ensures
        grows(a, a),
{
    assert(a.vars.subrange(0, a.vars.len() as int) =~= a.vars);
    assert(a.funcs.subrange(0, a.funcs.len() as int) =~= a.funcs);
}

/// A variable pushed to a table grows it.
proof fn lemma_grows_push_var(a: TableV, x: (Seq<char>, Type))
    ensures
        grows(a, TableV { vars: a.vars.push(x), funcs: a.funcs }),
{
    assert(a.vars.push(x).subrange(0, a.vars.len() as int) =~= a.vars);
    assert(a.funcs.subrange(0, a.funcs.len() as int) =~= a.funcs);
}

/// A function pushed to a table grows it.
proof fn lemma_grows_push_func(a: TableV, x: (Seq<char>, SigV))
    ensures
        grows(a, TableV { vars: a.vars, funcs: a.funcs.push(x) }),
{
    assert(a.vars.subrange(0, a.vars.len() as int) =~= a.vars);
    assert(a.funcs.push(x).subrange(0, a.funcs.len() as int) =~= a.funcs);
}

/// Defining parameters grows the table.
proof fn lemma_define_params_grows(v: Seq<(Seq<char>, Type)>, tab: TableV, k: int)
    ensures
        grows(tab, define_params(v, tab, k).0),
    decreases k,
{
    if k <= 0 || k > v.len() {
        lemma_grows_refl(tab);
    } else {
        lemma_define_params_grows(v, tab, k - 1);
        let (t1, ok) = define_params(v, tab, k - 1);
        if ok && alist_get(t1.vars, v[k - 1].0) is None {
            lemma_grows_push_var(t1, v[k - 1]);
            lemma_grows_trans(tab, t1, define_params(v, tab, k).0);
        }
    }
}

/// Checking a child grows the table.
proof fn lemma_tc_elem_grows(e: LElemV, env: Env)
    ensures
        grows(env.tab, tc_elem(e, env).0.tab),
    decreases e, 1int,
{
    match e {
        LElemV::Token(_) => lemma_grows_refl(env.tab),
        LElemV::Node(n) => {
            assert(decreases_to!(e => n));
            type_check_only_adds(n, env);
        },
    }
}

/// Checking statements in turn grows the table.
proof fn lemma_tc_stmts_grows(v: Seq<LElemV>, env: Env, k: int)
    ensures
        grows(env.tab, tc_stmts(v, env, k).0.tab),
    decreases v, k,
{
    if k <= 0 || k > v.len() {
        lemma_grows_refl(env.tab);
    } else {
        lemma_tc_stmts_grows(v, env, k - 1);
        let (env1, r) = tc_stmts(v, env, k - 1);
        if r is Done {
            assert(decreases_to!(v => v[k - 1]));
            lemma_tc_elem_grows(v[k - 1], env1);
            lemma_grows_trans(env.tab, env1.tab, tc_elem(v[k - 1], env1).0.tab);
        }
    }
}

/// Checking arguments in turn grows the table.
proof fn lemma_tc_args_grows(v: Seq<LElemV>, sig: Seq<Type>, start: int, env: Env, k: int)
    ensures
        grows(env.tab, tc_args(v, sig, start, env, k).0.tab),
    decreases v, k,
{
    if k <= 0 || k > v.len() {
        lemma_grows_refl(env.tab);
    } else {
        lemma_tc_args_grows(v, sig, start, env, k - 1);
        let (env1, r) = tc_args(v, sig, start, env, k - 1);
        if r is Done {
            assert(decreases_to!(v => v[k - 1]));
            lemma_tc_elem_grows(v[k - 1], env1);
            lemma_grows_trans(env.tab, env1.tab, tc_elem(v[k - 1], env1).0.tab);
        }
    }
}

/// Type checking only ever adds definitions to the type table: whatever a node's check
/// comes to, every variable and function defined before stays defined as it was, in its
/// place.
pub proof fn type_check_only_adds(n: LNodeV, env: Env)
    ensures
        grows(env.tab, tc_node(n, env).0.tab),
    decreases n, 0int,
{
    lemma_grows_refl(env.tab);
    assert(decreases_to!(n => n.data));
    match n.data {
        NodeDataV::Expr { t1, t2, op } => {
            lemma_tc_elem_grows(*t1, env);
            let e1 = tc_elem(*t1, env).0;
            lemma_tc_elem_grows(*t2, e1);
            lemma_grows_trans(env.tab, e1.tab, tc_elem(*t2, e1).0.tab);
        },
        NodeDataV::UExpr { op, t } => lemma_tc_elem_grows(*t, env),
        NodeDataV::If { expr, block } => lemma_tc_elem_grows(*expr, env),
        NodeDataV::Return { expr } => lemma_tc_elem_grows(*expr, env),
        NodeDataV::Invoke { ident, args } => {
            lemma_tc_args_grows(args, alist_get(env.tab.funcs, ident).unwrap().0, n.start, env, args.len() as int);
        },
        NodeDataV::Block { v } => lemma_tc_stmts_grows(v, env, v.len() as int),
        NodeDataV::Declaration { ident, expr } => {
            lemma_tc_elem_grows(*expr, env);
            let (e1, r1) = tc_elem(*expr, env);
            if r1 is Done && alist_get(e1.tab.vars, ident) is None {
                lemma_grows_push_var(e1.tab, (ident, r1->Done_0.1));
                lemma_grows_trans(env.tab, e1.tab, tc_node(n, env).0.tab);
            }
        },
        NodeDataV::Function { ident, params, r_type, block } => {
            match params_of(params) {
                None => {},
                Some(ps) => {
                    lemma_define_params_grows(ps, env.tab, ps.len() as int);
                    let (t1, ok) = define_params(ps, env.tab, ps.len() as int);
                    if ok && alist_get(t1.funcs, ident) is None {
                        let tab1 = TableV { vars: t1.vars, funcs: t1.funcs.push((ident, (param_types(ps), r_type))) };
                        lemma_grows_push_func(t1, (ident, (param_types(ps), r_type)));
                        lemma_grows_trans(env.tab, t1, tab1);
                        let env1 = Env { tab: tab1, cur: Some(ident) };
                        lemma_tc_elem_grows(*block, env1);
                        lemma_grows_trans(env.tab, tab1, tc_elem(*block, env1).0.tab);
                    }
                },
            }
        },
        NodeDataV::Params { .. } => {},
    }
}

/// A node that checks keeps its span and kind, and carries the type it evaluates to.
pub proof fn type_check_keeps_shape(n: LNodeV, env: Env)
    requires
        tc_node(n, env).1 is Done,
    ensures
        tc_node(n, env).1->Done_0.0.start == n.start,
        tc_node(n, env).1->Done_0.0.end == n.end,
        data_kind(tc_node(n, env).1->Done_0.0.data) == data_kind(n.data),
        tc_node(n, env).1->Done_0.0.t == tc_node(n, env).1->Done_0.1,
{
}

/// Each arithmetic operator `+ - * /` over two `Int` operands gives an `Int`: an expression
/// whose operands check to `Int` checks, with type `Int`.
pub proof fn arithmetic_on_ints_is_int(n: LNodeV, env: Env)
    requires
        n.data is Expr,
        ({
            let op = n.data->Expr_op;
            op == seq!['+'] || op == seq!['-'] || op == seq!['*'] || op == seq!['/']
        }),
        tc_elem(*n.data->Expr_t1, env).1 matches Checked::Done((_, at)) && at == Type::Int,
        tc_elem(*n.data->Expr_t2, tc_elem(*n.data->Expr_t1, env).0).1 matches Checked::Done((_, bt)) && bt == Type::Int,
    ensures
        tc_node(n, env).1 matches Checked::Done((x, ty)) && ty == Type::Int && x.t == Type::Int,
{
}

/// An `if` needs a `Bool` condition: when its condition checks, the `if` checks exactly when
/// the condition is a `Bool`, and otherwise fails expecting `Bool` and finding the
/// condition's type.
pub proof fn if_needs_bool_condition(n: LNodeV, env: Env)
    requires
        n.data is If,
        tc_elem(*n.data->If_expr, env).1 is Done,
    ensures
        ({
            let ct = tc_elem(*n.data->If_expr, env).1->Done_0.1;
            &&& (tc_node(n, env).1 is Done) == (ct == Type::Bool)
            &&& ct != Type::Bool ==> (tc_node(n, env).1 matches Checked::Failed(e)
                && e.expected == Some(Type::Bool) && e.found == Some(ct))
        }),
{
}

/// A call with a number of arguments other than its function's number of parameters fails.
pub proof fn calls_need_their_arity(n: LNodeV, env: Env)
    requires
        n.data is Invoke,
        alist_get(env.tab.funcs, n.data->Invoke_ident) matches Some(sig) && sig.0.len() != n.data->Invoke_args.len(),
    ensures
        tc_node(n, env).1 is Failed,
{
}

/// A comparison `==` or `!=` of two operands of one type gives a `Bool`, and so does `&&` or
/// `||` over two `Bool` operands.
pub proof fn comparisons_and_logic_are_bool(n: LNodeV, env: Env)
    requires
        n.data is Expr,
        tc_elem(*n.data->Expr_t1, env).1 is Done,
        tc_elem(*n.data->Expr_t2, tc_elem(*n.data->Expr_t1, env).0).1 is Done,
        ({
            let op = n.data->Expr_op;
            let at = tc_elem(*n.data->Expr_t1, env).1->Done_0.1;
            let bt = tc_elem(*n.data->Expr_t2, tc_elem(*n.data->Expr_t1, env).0).1->Done_0.1;
            &&& at == bt
            &&& (op == seq!['=', '='] || op == seq!['!', '='] || (at == Type::Bool && (op == seq!['&', '&'] || op == seq!['|', '|'])))
        }),
    ensures
        tc_node(n, env).1 matches Checked::Done((x, ty)) && ty == Type::Bool && x.t == Type::Bool,
{
}

/// Declared variables take their types from their initial values: once a declaration checks,
/// its variable is defined with the type its expression evaluates to.
pub proof fn declarations_infer_types(n: LNodeV, env: Env)
    requires
        n.data is Declaration,
        tc_node(n, env).1 is Done,
    ensures
        ({
            let (e1, r1) = tc_elem(*n.data->Declaration_expr, env);
            &&& r1 is Done
            &&& alist_get(tc_node(n, env).0.tab.vars, n.data->Declaration_ident) == Some(r1->Done_0.1)
        }),
{
    let (e1, r1) = tc_elem(*n.data->Declaration_expr, env);
    define_then_get(e1.tab.vars, n.data->Declaration_ident, r1->Done_0.1, n.data->Declaration_ident);
}

/// Checks the first `k` top-level nodes in turn, stopping at the first failure.
pub open spec fn tc_list(ns: Seq<LNodeV>, env: Env, k: int) -> (Env, Checked<Seq<LNodeV>>)
    decreases k,
{
    if k <= 0 || k > ns.len() {
        (env, Checked::Done(seq![]))
    } else {
        let (env1, r) = tc_list(ns, env, k - 1);
        match r {
            Checked::Done(done) => {
                let (env2, r2) = tc_node(ns[k - 1], env1);
                (env2, match r2 {
                    Checked::Done((x, _)) => Checked::Done(done.push(x)),
                    Checked::Failed(x) => Checked::Failed(x),
                    Checked::Abort => Checked::Abort,
                })
            },
            Checked::Failed(x) => (env1, Checked::Failed(x)),
            Checked::Abort => (env1, Checked::Abort),
        }
    }
}


/// The value of the function being checked.
pub open spec fn cur_v(c: Option<String>) -> Option<Seq<char>> {
    match c {
        Some(s) => Some(s@),
        None => None,
    }
}

/// The outcome of checking a child, as a value.
pub open spec fn out_elem(r: Result<(LElem, Type), Option<TypeError>>) -> Checked<(LElemV, Type)> {
    match r {
        Ok((x, t)) => Checked::Done((lelem_v(x), t)),
        Err(Some(e)) => Checked::Failed(e@),
        Err(None) => Checked::Abort,
    }
}

/// The outcome of checking a node, as a value.
pub open spec fn out_node(r: Result<(LNode, Type), Option<TypeError>>) -> Checked<(LNodeV, Type)> {
    match r {
        Ok((x, t)) => Checked::Done((lnode_v(x), t)),
        Err(Some(e)) => Checked::Failed(e@),
        Err(None) => Checked::Abort,
    }
}

/// A string of fixed text.
fn text(s: &str) -> (r: String)
    ensures
        r@ == s@,
{
    let mut r = String::new();
    r.push_str(s);
    assert(r@ =~= s@);
    r
}

/// Whether `op` is the one character `a`.
pub(crate) fn op1(op: &String, a: char) -> (r: bool)
    ensures
        r == (op@ == seq![a]),
{
    let s = op.as_str();
    if s.unicode_len() == 1 && s.get_char(0) == a {
        assert(op@ =~= seq![a]);
        true
    } else {
        false
    }
}

/// Whether `op` is the two characters `a b`.
pub(crate) fn op2(op: &String, a: char, b: char) -> (r: bool)
    ensures
        r == (op@ == seq![a, b]),
{
    let s = op.as_str();
    if s.unicode_len() == 2 && s.get_char(0) == a && s.get_char(1) == b {
        assert(op@ =~= seq![a, b]);
        true
    } else {
        false
    }
}

/// The type of a binary expression, as `expr_type` says.
fn expr_type_exec(a: Type, op: &String, b: Type) -> (r: Option<Type>)
    ensures
        r == expr_type(a, op@, b),
{
    if op2(op, '=', '=') || op2(op, '!', '=') {
        Some(Type::Bool)
    } else if a == Type::Bool && b == Type::Bool && (op2(op, '|', '|') || op2(op, '&', '&')) {
        Some(Type::Bool)
    } else if a == Type::Int && b == Type::Int && (op1(op, '*') || op1(op, '+') || op1(op, '-') || op1(op, '/')) {
        Some(Type::Int)
    } else {
        None
    }
}

/// A type error with expected and found types.
fn type_error(start: usize, msg: String, expected: Type, found: Type) -> (e: TypeError)
    ensures
        e@ == (TypeErrorV { start: start as int, msg: msg@, expected: Some(expected), found: Some(found) }),
{
    TypeError { start, msg, expected: Some(expected), found: Some(found) }
}

/// Checks a token, as `tc_tok` says; `None` where that aborts.
fn tc_token(t: LToken, table: &TypeTable) -> (r: Option<(LToken, Type)>)
    ensures
        match (tc_tok(ltoken_v(t), table@), r) {
            (Checked::Done((v, ty)), Some((x, xt))) => ltoken_v(x) == v && xt == ty,
            (Checked::Abort, None) => true,
            _ => false,
        },
{
    let ty = match &t.data {
        TokenData::INT(_) => Type::Int,
        TokenData::BOOL(_) => Type::Bool,
        TokenData::STR_LIT(_) => Type::String,
        TokenData::IDENT(id) => match table.get_v(id) {
            Some(ty) => ty,
            None => {
                return None;
            },
        },
        _ => {
            return None;
        },
    };
    Some((LToken { start: t.start, end: t.end, data: t.data, t: ty }, ty))
}

/// Checks a child, as `tc_elem` says.
fn tc_elem_exec(e: LElem, table: &mut TypeTable, cur: &mut Option<String>) -> (r: Result<(LElem, Type), Option<TypeError>>)
    ensures
        tc_elem(lelem_v(e), Env { tab: old(table)@, cur: cur_v(*old(cur)) }) == (Env { tab: final(table)@, cur: cur_v(*final(cur)) }, out_elem(r)),
    decreases lelem_v(e), 3int,
{
    let ghost ev = lelem_v(e);
    match e {
        LElem::Token(t) => match tc_token(t, table) {
            Some((x, ty)) => Ok((LElem::Token(x), ty)),
            None => Err(None),
        },
        LElem::Node(n) => {
            proof {
                assert(decreases_to!(ev => ev->Node_0));
            }
            match tc_node_exec(n, table, cur) {
                Ok((x, ty)) => Ok((LElem::Node(x), ty)),
                Err(x) => Err(x),
            }
        },
    }
}


/// After a failure, checking more statements changes nothing.
proof fn lemma_stmts_stop(v: Seq<LElemV>, env: Env, k: int)
    requires
        0 <= k <= v.len(),
        !(tc_stmts(v, env, k).1 is Done),
    ensures
        tc_stmts(v, env, v.len() as int) == tc_stmts(v, env, k),
    decreases v.len() - k,
{
    if k < v.len() {
        lemma_stmts_stop(v, env, k + 1);
    }
}

/// After a failure, checking more arguments changes nothing.
proof fn lemma_args_stop(v: Seq<LElemV>, sig: Seq<Type>, start: int, env: Env, k: int)
    requires
        0 <= k <= v.len(),
        !(tc_args(v, sig, start, env, k).1 is Done),
    ensures
        tc_args(v, sig, start, env, v.len() as int) == tc_args(v, sig, start, env, k),
    decreases v.len() - k,
{
    if k < v.len() {
        lemma_args_stop(v, sig, start, env, k + 1);
    }
}

/// After a failure, checking more top-level nodes changes nothing.
proof fn lemma_list_stop(ns: Seq<LNodeV>, env: Env, k: int)
    requires
        0 <= k <= ns.len(),
        !(tc_list(ns, env, k).1 is Done),
    ensures
        tc_list(ns, env, ns.len() as int) == tc_list(ns, env, k),
    decreases ns.len() - k,
{
    if k < ns.len() {
        lemma_list_stop(ns, env, k + 1);
    }
}

/// Checks a node, as `tc_node` says.
fn tc_node_exec(n: LNode, table: &mut TypeTable, cur: &mut Option<String>) -> (r: Result<(LNode, Type), Option<TypeError>>)
    ensures
        tc_node(lnode_v(n), Env { tab: old(table)@, cur: cur_v(*old(cur)) }) == (Env { tab: final(table)@, cur: cur_v(*final(cur)) }, out_node(r)),
    decreases lnode_v(n), 2int,
{
    let ghost nv = lnode_v(n);
    let LNode { start, end, data, t: _ } = n;
    match data {
        NodeData::Expr { t1, t2, op } => tc_expr(start, end, t1, t2, op, table, cur, Ghost(nv)),
        NodeData::UExpr { op, t } => tc_uexpr(start, end, op, t, table, cur, Ghost(nv)),
        NodeData::If { expr, block } => tc_if(start, end, expr, block, table, cur, Ghost(nv)),
        NodeData::Return { expr } => tc_return(start, end, expr, table, cur, Ghost(nv)),
        NodeData::Invoke { ident, args } => tc_invoke(start, end, ident, args, table, cur, Ghost(nv)),
        NodeData::Block { v } => tc_block(start, end, v, table, cur, Ghost(nv)),
        NodeData::Declaration { ident, expr } => tc_decl(start, end, ident, expr, table, cur, Ghost(nv)),
        NodeData::Function { ident, params, r_type, block } => tc_function(start, end, ident, params, r_type, block, table, cur, Ghost(nv)),
        NodeData::Params { .. } => Err(None),
    }
}

/// Checks a binary expression.
fn tc_expr(start: usize, end: usize, t1: Box<LElem>, t2: Box<LElem>, op: String, table: &mut TypeTable, cur: &mut Option<String>, Ghost(nv): Ghost<LNodeV>) -> (r: Result<(LNode, Type), Option<TypeError>>)
    requires
        nv.start == start,
        nv.end == end,
        nv.data == (NodeDataV::Expr { t1: Box::new(lelem_v(*t1)), t2: Box::new(lelem_v(*t2)), op: op@ }),
    ensures
        tc_node(nv, Env { tab: old(table)@, cur: cur_v(*old(cur)) }) == (Env { tab: final(table)@, cur: cur_v(*final(cur)) }, out_node(r)),
    decreases nv, 1int,
{
    proof {
        assert(decreases_to!(nv => nv.data));
        assert(decreases_to!(nv.data => nv.data->Expr_t1));
        assert(decreases_to!(nv.data => nv.data->Expr_t2));
    }
    let (a, at) = match tc_elem_exec(*t1, table, cur) {
        Ok(p) => p,
        Err(x) => {
            return Err(x);
        },
    };
    let (b, bt) = match tc_elem_exec(*t2, table, cur) {
        Ok(p) => p,
        Err(x) => {
            return Err(x);
        },
    };
    if at != bt {
        return Err(Some(type_error(b.start(), text("Expression terms not of same type"), at, bt)));
    }
    match expr_type_exec(at, &op, bt) {
        Some(ty) => Ok((LNode { start, end, data: NodeData::Expr { t1: Box::new(a), t2: Box::new(b), op }, t: ty }, ty)),
        None => Err(None),
    }
}

/// Checks a unary expression.
fn tc_uexpr(start: usize, end: usize, op: String, t: Box<LElem>, table: &mut TypeTable, cur: &mut Option<String>, Ghost(nv): Ghost<LNodeV>) -> (r: Result<(LNode, Type), Option<TypeError>>)
    requires
        nv.start == start,
        nv.end == end,
        nv.data == (NodeDataV::UExpr { op: op@, t: Box::new(lelem_v(*t)) }),
    ensures
        tc_node(nv, Env { tab: old(table)@, cur: cur_v(*old(cur)) }) == (Env { tab: final(table)@, cur: cur_v(*final(cur)) }, out_node(r)),
    decreases nv, 1int,
{
    proof {
        assert(decreases_to!(nv => nv.data));
        assert(decreases_to!(nv.data => nv.data->UExpr_t));
    }
    let (a, at) = match tc_elem_exec(*t, table, cur) {
        Ok(p) => p,
        Err(x) => {
            return Err(x);
        },
    };
    if at == Type::Bool && op1(&op, '!') {
        Ok((LNode { start, end, data: NodeData::UExpr { op, t: Box::new(a) }, t: Type::Bool }, Type::Bool))
    } else {
        Err(None)
    }
}

/// Checks an `if`.
fn tc_if(start: usize, end: usize, expr: Box<LElem>, block: Box<LElem>, table: &mut TypeTable, cur: &mut Option<String>, Ghost(nv): Ghost<LNodeV>) -> (r: Result<(LNode, Type), Option<TypeError>>)
    requires
        nv.start == start,
        nv.end == end,
        nv.data == (NodeDataV::If { expr: Box::new(lelem_v(*expr)), block: Box::new(lelem_v(*block)) }),
    ensures
        tc_node(nv, Env { tab: old(table)@, cur: cur_v(*old(cur)) }) == (Env { tab: final(table)@, cur: cur_v(*final(cur)) }, out_node(r)),
    decreases nv, 1int,
{
    proof {
        assert(decreases_to!(nv => nv.data));
        assert(decreases_to!(nv.data => nv.data->If_expr));
    }
    let (a, at) = match tc_elem_exec(*expr, table, cur) {
        Ok(p) => p,
        Err(x) => {
            return Err(x);
        },
    };
    if at != Type::Bool {
        return Err(Some(type_error(a.start(), text("If statement expression does not evaluate to a boolean"), Type::Bool, at)));
    }
    Ok((LNode { start, end, data: NodeData::If { expr: Box::new(a), block }, t: at }, at))
}

/// Checks a `return`.
fn tc_return(start: usize, end: usize, expr: Box<LElem>, table: &mut TypeTable, cur: &mut Option<String>, Ghost(nv): Ghost<LNodeV>) -> (r: Result<(LNode, Type), Option<TypeError>>)
    requires
        nv.start == start,
        nv.end == end,
        nv.data == (NodeDataV::Return { expr: Box::new(lelem_v(*expr)) }),
    ensures
        tc_node(nv, Env { tab: old(table)@, cur: cur_v(*old(cur)) }) == (Env { tab: final(table)@, cur: cur_v(*final(cur)) }, out_node(r)),
    decreases nv, 1int,
{
    proof {
        assert(decreases_to!(nv => nv.data));
        assert(decreases_to!(nv.data => nv.data->Return_expr));
    }
    let (a, at) = match tc_elem_exec(*expr, table, cur) {
        Ok(p) => p,
        Err(x) => {
            return Err(x);
        },
    };
    let sig = match &*cur {
        None => {
            return Err(None);
        },
        Some(f) => match table.get_f(f) {
            None => {
                return Err(None);
            },
            Some(sig) => sig,
        },
    };
    if sig.1 != at {
        return Err(Some(type_error(a.start(), text("Return expression does not match function signature"), sig.1, at)));
    }
    Ok((LNode { start, end, data: NodeData::Return { expr: Box::new(a) }, t: at }, at))
}

/// The message for a call with the wrong number of arguments.
fn arity_text(expected: usize, found: usize) -> (r: String)
    ensures
        r@ == arity_msg(expected as nat, found as nat),
{
    let mut m = String::new();
    m.push_str("Argument lengths mismatched. expected ");
    crate::text::push_u64(&mut m, expected as u64);
    m.push_str(", found ");
    crate::text::push_u64(&mut m, found as u64);
    assert(m@ =~= arity_msg(expected as nat, found as nat));
    m
}

/// The message for an argument of the wrong type.
fn arg_text(i: usize) -> (r: String)
    ensures
        r@ == arg_msg(i as nat),
{
    let mut m = String::new();
    m.push_str("Argument no.");
    crate::text::push_u64(&mut m, i as u64);
    m.push_str(" has mismatched type.");
    assert(m@ =~= arg_msg(i as nat));
    m
}

/// Checks a call.
#[verifier::loop_isolation(false)]
fn tc_invoke(start: usize, end: usize, ident: String, args: Vec<Box<LElem>>, table: &mut TypeTable, cur: &mut Option<String>, Ghost(nv): Ghost<LNodeV>) -> (r: Result<(LNode, Type), Option<TypeError>>)
    requires
        nv.start == start,
        nv.end == end,
        nv.data == (NodeDataV::Invoke { ident: ident@, args: lelems_v(args@) }),
    ensures
        tc_node(nv, Env { tab: old(table)@, cur: cur_v(*old(cur)) }) == (Env { tab: final(table)@, cur: cur_v(*final(cur)) }, out_node(r)),
    decreases nv, 1int,
{
    let ghost env0 = Env { tab: table@, cur: cur_v(*cur) };
    let ghost av = lelems_v(args@);
    let ghost a0 = args@;
    proof {
        lemma_lelems_v(args@);
    }
    let sig = match table.get_f(&ident) {
        None => {
            return Err(None);
        },
        Some(sig) => sig,
    };
    if args.len() != sig.0.len() {
        return Err(Some(TypeError { start, msg: arity_text(sig.0.len(), args.len()), expected: None, found: None }));
    }
    let mut args = args;
    let mut out: Vec<Box<LElem>> = Vec::new();
    let mut k: usize = 0;
    while args.len() > 0
        invariant
            k + args@.len() == av.len(),
            av.len() == a0.len(),
            sig.0@.len() == av.len(),
            forall|j: int| 0 <= j < args@.len() ==> #[trigger] args@[j] == a0[k + j],
            forall|j: int| 0 <= j < a0.len() ==> #[trigger] av[j] == lelem_v(*a0[j]),
            tc_args(av, sig.0@, start as int, env0, k as int) == (Env { tab: table@, cur: cur_v(*cur) }, Checked::Done(lelems_v(out@))),
        decreases args@.len(),
    {
        let arg = args.remove(0);
        proof {
            assert(arg == a0[k as int]);
            assert(decreases_to!(nv => nv.data));
            assert(decreases_to!(nv.data => nv.data->Invoke_args));
            assert(decreases_to!(av => av[k as int]));
        }
        match tc_elem_exec(*arg, table, cur) {
            Ok((x, ty)) => {
                if ty != sig.0[k] {
                    let e = type_error(start, arg_text(k), sig.0[k], ty);
                    proof {
                        lemma_args_stop(av, sig.0@, start as int, env0, k + 1);
                    }
                    return Err(Some(e));
                }
                proof {
                    lemma_lelems_v_push(out@, Box::new(x));
                }
                out.push(Box::new(x));
            },
            Err(x) => {
                proof {
                    lemma_args_stop(av, sig.0@, start as int, env0, k + 1);
                }
                return Err(x);
            },
        }
        k += 1;
    }
    match table.get_f(&ident) {
        Some(sig2) => Ok((LNode { start, end, data: NodeData::Invoke { ident, args: out }, t: sig2.1 }, sig2.1)),
        None => Err(None),
    }
}

/// Checks a block.
#[verifier::loop_isolation(false)]
fn tc_block(start: usize, end: usize, v: Vec<Box<LElem>>, table: &mut TypeTable, cur: &mut Option<String>, Ghost(nv): Ghost<LNodeV>) -> (r: Result<(LNode, Type), Option<TypeError>>)
    requires
        nv.start == start,
        nv.end == end,
        nv.data == (NodeDataV::Block { v: lelems_v(v@) }),
    ensures
        tc_node(nv, Env { tab: old(table)@, cur: cur_v(*old(cur)) }) == (Env { tab: final(table)@, cur: cur_v(*final(cur)) }, out_node(r)),
    decreases nv, 1int,
{
    let ghost env0 = Env { tab: table@, cur: cur_v(*cur) };
    let ghost sv = lelems_v(v@);
    let ghost s0 = v@;
    proof {
        lemma_lelems_v(v@);
    }
    let mut v = v;
    let mut out: Vec<Box<LElem>> = Vec::new();
    let mut k: usize = 0;
    let total = v.len();
    while v.len() > 0
        invariant
            k + v@.len() == sv.len(),
            sv.len() == s0.len(),
            s0.len() == total,
            forall|j: int| 0 <= j < v@.len() ==> #[trigger] v@[j] == s0[k + j],
            forall|j: int| 0 <= j < s0.len() ==> #[trigger] sv[j] == lelem_v(*s0[j]),
            tc_stmts(sv, env0, k as int) == (Env { tab: table@, cur: cur_v(*cur) }, Checked::Done(lelems_v(out@))),
        decreases v@.len(),
    {
        let st = v.remove(0);
        proof {
            assert(st == s0[k as int]);
            assert(decreases_to!(nv => nv.data));
            assert(decreases_to!(nv.data => nv.data->Block_v));
            assert(decreases_to!(sv => sv[k as int]));
        }
        match tc_elem_exec(*st, table, cur) {
            Ok((x, _)) => {
                proof {
                    lemma_lelems_v_push(out@, Box::new(x));
                }
                out.push(Box::new(x));
            },
            Err(x) => {
                proof {
                    lemma_stmts_stop(sv, env0, k + 1);
                }
                return Err(x);
            },
        }
        k += 1;
    }
    Ok((LNode { start, end, data: NodeData::Block { v: out }, t: Type::Void }, Type::Void))
}

/// Checks a declaration.
fn tc_decl(start: usize, end: usize, ident: String, expr: Box<LElem>, table: &mut TypeTable, cur: &mut Option<String>, Ghost(nv): Ghost<LNodeV>) -> (r: Result<(LNode, Type), Option<TypeError>>)
    requires
        nv.start == start,
        nv.end == end,
        nv.data == (NodeDataV::Declaration { ident: ident@, expr: Box::new(lelem_v(*expr)) }),
    ensures
        tc_node(nv, Env { tab: old(table)@, cur: cur_v(*old(cur)) }) == (Env { tab: final(table)@, cur: cur_v(*final(cur)) }, out_node(r)),
    decreases nv, 1int,
{
    proof {
        assert(decreases_to!(nv => nv.data));
        assert(decreases_to!(nv.data => nv.data->Declaration_expr));
    }
    let (a, at) = match tc_elem_exec(*expr, table, cur) {
        Ok(p) => p,
        Err(x) => {
            return Err(x);
        },
    };
    if !table.define_v(&ident, at) {
        return Err(None);
    }
    Ok((LNode { start, end, data: NodeData::Declaration { ident, expr: Box::new(a) }, t: Type::Void }, Type::Void))
}

/// Checks a function.
#[verifier::loop_isolation(false)]
fn tc_function(start: usize, end: usize, ident: String, params: Option<Box<LElem>>, r_type: Type, block: Box<LElem>, table: &mut TypeTable, cur: &mut Option<String>, Ghost(nv): Ghost<LNodeV>) -> (r: Result<(LNode, Type), Option<TypeError>>)
    requires
        nv.start == start,
        nv.end == end,
        nv.data == (NodeDataV::Function {
            ident: ident@,
            params: match params { Some(p) => Some(Box::new(lelem_v(*p))), None => None },
            r_type,
            block: Box::new(lelem_v(*block)),
        }),
    ensures
        tc_node(nv, Env { tab: old(table)@, cur: cur_v(*old(cur)) }) == (Env { tab: final(table)@, cur: cur_v(*final(cur)) }, out_node(r)),
    decreases nv, 1int,
{
    let ghost pv = nv.data->Function_params;
    *cur = Some(ident.clone());
    let ghost tab0 = table@;
    let mut types: Vec<Type> = Vec::new();
    match &params {
        None => {},
        Some(p) => match &**p {
            LElem::Node(pn) => match &pn.data {
                NodeData::Params { v } => {
                    let ghost ps = crate::ast::params_v(v@);
                    let mut i: usize = 0;
                    while i < v.len()
                        invariant
                            i <= v@.len(),
                            ps == crate::ast::params_v(v@),
                            params_of(pv) == Some(ps),
                            define_params(ps, tab0, i as int) == (table@, true),
                            types@ == param_types(ps.subrange(0, i as int)),
                        decreases v@.len() - i,
                    {
                        if !table.define_v(&v[i].0, v[i].1) {
                            proof {
                                lemma_define_params_stop(ps, tab0, i as int + 1);
                            }
                            return Err(None);
                        }
                        types.push(v[i].1);
                        assert(types@ =~= param_types(ps.subrange(0, i + 1)));
                        i += 1;
                    }
                    assert(ps.subrange(0, i as int) =~= ps);
                },
                _ => {
                    return Err(None);
                },
            },
            LElem::Token(_) => {
                return Err(None);
            },
        },
    }
    assert(types@ =~= param_types(params_of(pv)->Some_0));
    if !table.define_f(&ident, (types, r_type)) {
        return Err(None);
    }
    proof {
        assert(decreases_to!(nv => nv.data));
        assert(decreases_to!(nv.data => nv.data->Function_block));
    }
    let (b, _) = match tc_elem_exec(*block, table, cur) {
        Ok(p) => p,
        Err(x) => {
            return Err(x);
        },
    };
    Ok((LNode { start, end, data: NodeData::Function { ident, params, r_type, block: Box::new(b) }, t: Type::Void }, Type::Void))
}

/// Once defining parameters fails, defining more fails the same way.
proof fn lemma_define_params_stop(v: Seq<(Seq<char>, Type)>, tab: TableV, k: int)
    requires
        0 <= k <= v.len(),
        !define_params(v, tab, k).1,
    ensures
        define_params(v, tab, v.len() as int) == define_params(v, tab, k),
    decreases v.len() - k,
{
    if k < v.len() {
        lemma_define_params_stop(v, tab, k + 1);
    }
}

/// Checking the top-level nodes, where it succeeds, gives one typed node for each, of the
/// same kind and span.
pub proof fn tc_list_keeps_kinds(ns: Seq<LNodeV>, env: Env, k: int)
    requires
        0 <= k <= ns.len(),
        tc_list(ns, env, k).1 is Done,
    ensures
        tc_list(ns, env, k).1->Done_0.len() == k,
        forall|i: int| 0 <= i < k ==> {
            let x = #[trigger] tc_list(ns, env, k).1->Done_0[i];
            &&& data_kind(x.data) == data_kind(ns[i].data)
            &&& x.start == ns[i].start
            &&& x.end == ns[i].end
        },
    decreases k,
{
    if k > 0 {
        tc_list_keeps_kinds(ns, env, k - 1);
        let (env1, r) = tc_list(ns, env, k - 1);
        type_check_keeps_shape(ns[k - 1], env1);
        let done = r->Done_0;
        assert forall|i: int| 0 <= i < k implies {
            let x = #[trigger] tc_list(ns, env, k).1->Done_0[i];
            &&& data_kind(x.data) == data_kind(ns[i].data)
            &&& x.start == ns[i].start
            &&& x.end == ns[i].end
        } by {
            if i < k - 1 {
                assert(tc_list(ns, env, k).1->Done_0[i] == done[i]);
                assert(done[i] == tc_list(ns, env, k - 1).1->Done_0[i]);
            }
        }
    }
}

/// Checks the top-level nodes in turn against `table`, as `tc_list` says: `Ok` with the typed
/// nodes, or `Err` with the first type error; the nodes must be ones on which checking does
/// not abort.
pub fn type_check(nodes: Vec<LNode>, table: TypeTable) -> (r: Result<Vec<LNode>, TypeError>)
    requires
        !(tc_list(nodes@.map_values(|n: LNode| lnode_v(n)), Env { tab: table@, cur: None }, nodes@.len() as int).1 is Abort),
    ensures
        match (tc_list(nodes@.map_values(|n: LNode| lnode_v(n)), Env { tab: table@, cur: None }, nodes@.len() as int).1, r) {
            (Checked::Done(v), Ok(x)) => x@.map_values(|n: LNode| lnode_v(n)) == v,
            (Checked::Failed(e), Err(x)) => x@ == e,
            _ => false,
        },
{
    try_type_check(nodes, table).unwrap()
}

/// Checks the top-level nodes in turn against `table`, as `tc_list` says: `Some(Ok)` with the
/// typed nodes, `Some(Err)` with the first type error, or `None` where checking aborts.
#[verifier::loop_isolation(false)]
pub fn try_type_check(nodes: Vec<LNode>, table: TypeTable) -> (r: Option<Result<Vec<LNode>, TypeError>>)
    ensures
        match (tc_list(nodes@.map_values(|n: LNode| lnode_v(n)), Env { tab: table@, cur: None }, nodes@.len() as int).1, r) {
            (Checked::Done(v), Some(Ok(x))) => x@.map_values(|n: LNode| lnode_v(n)) == v,
            (Checked::Failed(e), Some(Err(x))) => x@ == e,
            (Checked::Abort, None) => true,
            _ => false,
        },
{
    let ghost nv = nodes@.map_values(|n: LNode| lnode_v(n));
    let ghost n0 = nodes@;
    let ghost env0 = Env { tab: table@, cur: None };
    let mut table = table;
    let mut cur: Option<String> = None;
    let mut nodes = nodes;
    let mut out: Vec<LNode> = Vec::new();
    let mut k: usize = 0;
    let total = nodes.len();
    assert(out@.map_values(|n: LNode| lnode_v(n)) =~= seq![]);
    while nodes.len() > 0
        invariant
            k + nodes@.len() == n0.len(),
            n0.len() == total,
            nv == n0.map_values(|n: LNode| lnode_v(n)),
            forall|j: int| 0 <= j < nodes@.len() ==> #[trigger] nodes@[j] == n0[k + j],
            tc_list(nv, env0, k as int) == (Env { tab: table@, cur: cur_v(cur) }, Checked::Done(out@.map_values(|n: LNode| lnode_v(n)))),
        decreases nodes@.len(),
    {
        let n = nodes.remove(0);
        assert(nv[k as int] == lnode_v(n));
        let ghost before = out@;
        match tc_node_exec(n, &mut table, &mut cur) {
            Ok((x, _)) => {
                out.push(x);
                assert(out@.map_values(|n: LNode| lnode_v(n)) =~= before.map_values(|n: LNode| lnode_v(n)).push(lnode_v(x)));
            },
            Err(x) => {
                proof {
                    lemma_list_stop(nv, env0, k + 1);
                }
                return match x {
                    Some(e) => Some(Err(e)),
                    None => None,
                };
            },
        }
        k += 1;
    }
    Some(Ok(out))
}

} // verus!
