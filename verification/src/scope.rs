use vstd::prelude::*;
use crate::grammar::NodeT;
use crate::token::{Token, TokenData, TokenDataV, TokenV};
use crate::tree::{Node, Elem, NodeV, ElemV, node_v, elem_v, elems_v, lemma_elems_v, lemma_elems_v_push, lemma_elems_v_add, lemma_elems_v_sub};
use crate::text::{dec, usize_text};

verus! {

/// A scope error: its message, and where the node that raised it starts.
#[derive(Debug)]
pub struct ScopeError {
    pub msg: String,
    pub start: usize,
}

/// The mathematical value of a scope error.
pub struct ScopeErrorV {
    pub msg: Seq<char>,
    pub start: int,
}

impl View for ScopeError {
    type V = ScopeErrorV;

    open spec fn view(&self) -> ScopeErrorV {
        ScopeErrorV { msg: self.msg@, start: self.start as int }
    }
}

/// The identifiers declared in each open scope, the global scope first.
pub type Levels = Seq<Seq<Seq<char>>>;

/// The innermost scope among the first `k` that declares `id`.
pub open spec fn find_level(st: Levels, id: Seq<char>, k: int) -> Option<int>
    decreases k,
{
    if k <= 0 {
        None
    } else if st[k - 1].contains(id) {
        Some(k - 1)
    } else {
        find_level(st, id, k - 1)
    }
}

/// The depth of the innermost scope that declares `id`, the global scope being depth 0.
pub open spec fn lookup(st: Levels, id: Seq<char>) -> Option<int> {
    find_level(st, id, st.len() as int)
}

/// The message for a second declaration of `id` in one scope.
pub open spec fn redeclare_msg(id: Seq<char>) -> Seq<char> {
    "Attempted to redeclare identifier '"@ + id + seq!['\'']
}

/// The message for an identifier that no open scope declares.
pub open spec fn not_found_msg(id: Seq<char>) -> Seq<char> {
    "cannot find identifier '"@ + id + seq!['\'']
}

/// The message for a function defined inside a block.
pub open spec fn nonglobal_msg() -> Seq<char> {
    "Attempted to define function at non-global scope"@
}

/// Declaring `id` in the innermost scope: its depth, or the redeclaration message when that
/// scope already declares it.
pub open spec fn declare_v(st: Levels, id: Seq<char>) -> (Levels, Result<int, Seq<char>>) {
    if st.last().contains(id) {
        (st, Err(redeclare_msg(id)))
    } else {
        (st.update(st.len() - 1, st.last().push(id)), Ok(st.len() - 1))
    }
}

/// The identifier of a child that is an identifier token.
pub open spec fn ident_of(e: ElemV) -> Option<Seq<char>> {
    match e {
        ElemV::Token(t) => match t.data {
            TokenDataV::IDENT(s) => Some(s),
            _ => None,
        },
        ElemV::Node(_) => None,
    }
}

/// Every declaration and function starts with an identifier, and every even child of a
/// parameter list is one, throughout the tree.
pub open spec fn scope_shaped(n: NodeV) -> bool
    decreases n,
{
    &&& ((n.t == NodeT::Declaration || n.t == NodeT::Function) ==> n.children.len() > 0
        && ident_of(n.children[0]) is Some)
    &&& (n.t == NodeT::Params ==> forall|i: int|
        0 <= i < n.children.len() && i % 2 == 0 ==> #[trigger] ident_of(n.children[i]) is Some)
    &&& kids_scope_shaped(n.children)
}

/// Every node among `c` is `scope_shaped`.
pub open spec fn kids_scope_shaped(c: Seq<ElemV>) -> bool
    decreases c,
{
    if c.len() == 0 {
        true
    } else {
        kids_scope_shaped(c.drop_last()) && match c.last() {
            ElemV::Node(m) => scope_shaped(m),
            ElemV::Token(_) => true,
        }
    }
}

/// Declares the identifiers at positions `i, i + 2, ...` of `c` in turn, stopping at the first
/// redeclaration.
pub open spec fn declare_from(st: Levels, c: Seq<ElemV>, i: int) -> (Levels, Result<(), Seq<char>>)
    decreases c.len() + 2 - i,
{
    if i < 0 || i >= c.len() {
        (st, Ok(()))
    } else {
        let (st1, r) = declare_v(st, ident_of(c[i])->Some_0);
        match r {
            Err(m) => (st1, Err(m)),
            Ok(_) => declare_from(st1, c, i + 2),
        }
    }
}

/// Annotates the first `k` children of a node of kind `t` that starts at `ps`: each node is
/// resolved, and each identifier token gets `@` and the depth of the innermost scope that
/// declares it (not the first child of an invocation or a function). After the first error
/// the remaining children are left as they are.
pub open spec fn resolve_kids(t: NodeT, ps: int, c: Seq<ElemV>, st: Levels, k: int) -> (Seq<ElemV>, Levels, Result<(), ScopeErrorV>)
    decreases c, k,
{
    if k <= 0 || k > c.len() {
        (seq![], st, Ok(()))
    } else {
        let (done, st1, r) = resolve_kids(t, ps, c, st, k - 1);
        if r is Err {
            (done.push(c[k - 1]), st1, r)
        } else {
            match c[k - 1] {
                ElemV::Node(m) => {
                    let (m2, st2, r2) = resolve_v(m, st1);
                    (done.push(ElemV::Node(m2)), st2, r2)
                },
                ElemV::Token(tok) => match tok.data {
                    TokenDataV::IDENT(id) => if (t == NodeT::Invoke || t == NodeT::Function) && k == 1 {
                        (done.push(c[k - 1]), st1, Ok(()))
                    } else {
                        match lookup(st1, id) {
                            Some(lv) => (done.push(ElemV::Token(TokenV { start: tok.start, end: tok.end, data: TokenDataV::IDENT(id + seq!['@'] + dec(lv as nat)) })), st1, Ok(())),
                            None => (done.push(c[k - 1]), st1, Err(ScopeErrorV { msg: not_found_msg(id), start: ps })),
                        }
                    },
                    _ => (done.push(c[k - 1]), st1, Ok(())),
                },
            }
        }
    }
}

/// Resolves the identifiers of a node against the scopes `st`: a declaration declares its
/// identifier, a function declares its name (which must land in the global scope), a parameter
/// list declares its parameters, a block opens a scope around its children and closes it after
/// them, and the children are annotated as `resolve_kids` says. Gives the annotated node, the
/// scopes after it and the first error; after an error the node is left as far as it got.
pub open spec fn resolve_v(n: NodeV, st: Levels) -> (NodeV, Levels, Result<(), ScopeErrorV>)
    decreases n,
{
    let (st1, r1) = own_decls(n, st);
    match r1 {
        Err(m) => (n, st1, Err(ScopeErrorV { msg: m, start: n.start })),
        Ok(_) => {
            let st2 = if n.t == NodeT::Block { st1.push(Seq::<Seq<char>>::empty()) } else { st1 };
            let (kids, st3, r3) = resolve_kids(n.t, n.start, n.children, st2, n.children.len() as int);
            let n2 = NodeV { start: n.start, end: n.end, t: n.t, children: kids };
            if r3 is Err {
                (n2, st3, r3)
            } else {
                (n2, if n.t == NodeT::Block { st3.drop_last() } else { st3 }, Ok(()))
            }
        },
    }
}

/// What a node declares itself before its children are resolved: a declaration its
/// identifier, a function its name (which must land in the global scope), a parameter list its
/// parameters.
pub open spec fn own_decls(n: NodeV, st: Levels) -> (Levels, Result<(), Seq<char>>) {
    if n.t == NodeT::Declaration {
        let (s, r) = declare_v(st, ident_of(n.children[0])->Some_0);
        (s, match r { Ok(_) => Ok(()), Err(m) => Err(m) })
    } else if n.t == NodeT::Function {
        let (s, r) = declare_v(st, ident_of(n.children[0])->Some_0);
        (s, match r { Ok(l) => if l > 0 { Err(nonglobal_msg()) } else { Ok(()) }, Err(m) => Err(m) })
    } else if n.t == NodeT::Params {
        declare_from(st, n.children, 0)
    } else {
        (st, Ok(()))
    }
}

/// Resolves the first `k` of the top-level nodes `ns` in turn, the later ones left as they are
/// after the first error.
pub open spec fn resolve_list(ns: Seq<NodeV>, st: Levels, k: int) -> (Seq<NodeV>, Levels, Result<(), ScopeErrorV>)
    decreases k,
{
    if k <= 0 || k > ns.len() {
        (seq![], st, Ok(()))
    } else {
        let (done, st1, r) = resolve_list(ns, st, k - 1);
        if r is Err {
            (done.push(ns[k - 1]), st1, r)
        } else {
            let (m, st2, r2) = resolve_v(ns[k - 1], st1);
            (done.push(m), st2, r2)
        }
    }
}

/// `find_level` among the first `k` levels of `st` with the levels changed only at or past
/// `k`, or with an empty level added at the end.
proof fn lemma_find_level_prefix(st: Levels, st2: Levels, id: Seq<char>, k: int)
    requires
        0 <= k <= st.len(),
        k <= st2.len(),
        forall|j: int| 0 <= j < k ==> st2[j] == st[j],
    ensures
        find_level(st2, id, k) == find_level(st, id, k),
    decreases k,
{
    if k > 0 {
        lemma_find_level_prefix(st, st2, id, k - 1);
    }
}

/// Declaring an identifier makes it resolve to the innermost scope; the declaration succeeds
/// exactly when that scope does not declare it yet, and otherwise changes nothing.
pub proof fn declare_then_lookup(st: Levels, id: Seq<char>)
    requires
        st.len() > 0,
    ensures
        (declare_v(st, id).1 is Ok) == !st.last().contains(id),
        declare_v(st, id).1 is Err ==> declare_v(st, id).0 == st,
        declare_v(st, id).0.len() == st.len(),
        lookup(declare_v(st, id).0, id) == Some(st.len() - 1),
{
    let st2 = declare_v(st, id).0;
    if !st.last().contains(id) {
        assert(st2[st.len() - 1].contains(id)) by {
            assert(st2[st.len() - 1] == st.last().push(id));
            assert(st2[st.len() - 1][st.last().len() as int] == id);
        }
    }
}

/// Declaring an identifier leaves what every other identifier resolves to as it was.
pub proof fn declare_keeps_others(st: Levels, id: Seq<char>, other: Seq<char>)
    requires
        st.len() > 0,
        other != id,
    ensures
        lookup(declare_v(st, id).0, other) == lookup(st, other),
{
    let st2 = declare_v(st, id).0;
    let k = st.len() - 1;
    lemma_find_level_prefix(st, st2, other, k);
    if !st.last().contains(id) {
        assert(st2[k].contains(other) == st[k].contains(other)) by {
            if st2[k].contains(other) {
                let j = choose|j: int| 0 <= j < st2[k].len() && st2[k][j] == other;
                assert(st[k][j] == other);
            }
            if st[k].contains(other) {
                let j = choose|j: int| 0 <= j < st[k].len() && st[k][j] == other;
                assert(st2[k][j] == other);
            }
        }
    }
}

/// Opening a scope hides no identifier, and closing it gives back the scopes as they were.
pub proof fn open_scope_then_close(st: Levels, id: Seq<char>)
    ensures
        lookup(st.push(Seq::<Seq<char>>::empty()), id) == lookup(st, id),
        st.push(Seq::<Seq<char>>::empty()).drop_last() == st,
{
    let st2 = st.push(Seq::<Seq<char>>::empty());
    lemma_find_level_prefix(st, st2, id, st.len() as int);
    assert(!st2[st.len() as int].contains(id));
    assert(st2.drop_last() =~= st);
}

/// Declaring identifiers in turn keeps the number of scopes.
proof fn lemma_declare_from_depth(st: Levels, c: Seq<ElemV>, i: int)
    requires
        st.len() > 0,
    ensures
        declare_from(st, c, i).0.len() == st.len(),
    decreases c.len() + 2 - i,
{
    if 0 <= i < c.len() {
        let (st1, r) = declare_v(st, ident_of(c[i])->Some_0);
        if r is Ok {
            lemma_declare_from_depth(st1, c, i + 2);
        }
    }
}

/// Declaring identifiers in turn without error keeps what the innermost scope declared.
proof fn lemma_declare_from_keeps(st: Levels, c: Seq<ElemV>, i: int, x: Seq<char>)
    requires
        st.len() > 0,
        declare_from(st, c, i).1 is Ok,
        st.last().contains(x),
    ensures
        declare_from(st, c, i).0.last().contains(x),
    decreases c.len() + 2 - i,
{
    if 0 <= i < c.len() {
        let id = ident_of(c[i])->Some_0;
        let (st1, r) = declare_v(st, id);
        let j = choose|j: int| 0 <= j < st.last().len() && st.last()[j] == x;
        assert(st1.last() == st.last().push(id));
        assert(st1.last()[j] == x);
        lemma_declare_from_keeps(st1, c, i + 2, x);
    }
}

/// Declaring identifiers in turn from `i` without error declares, in the innermost scope,
/// the identifier at each position `i, i + 2, ...`.
proof fn lemma_declare_from_declares(st: Levels, c: Seq<ElemV>, i: int, k: int)
    requires
        st.len() > 0,
        declare_from(st, c, i).1 is Ok,
        0 <= i <= k < c.len(),
        (k - i) % 2 == 0,
    ensures
        declare_from(st, c, i).0.last().contains(ident_of(c[k])->Some_0),
    decreases c.len() + 2 - i,
{
    let id = ident_of(c[i])->Some_0;
    let (st1, r) = declare_v(st, id);
    if k == i {
        assert(st1.last() == st.last().push(id));
        assert(st1.last()[st.last().len() as int] == id);
        lemma_declare_from_keeps(st1, c, i + 2, id);
    } else {
        lemma_declare_from_declares(st1, c, i + 2, k);
    }
}

/// A parameter list that declares its parameters without error declares every one of them:
/// each identifier at an even position of the list then resolves to the innermost scope.
pub proof fn params_declare_every_parameter(n: NodeV, st: Levels, k: int)
    requires
        n.t == NodeT::Params,
        st.len() > 0,
        own_decls(n, st).1 is Ok,
        0 <= k < n.children.len(),
        k % 2 == 0,
    ensures
        own_decls(n, st).0.last().contains(ident_of(n.children[k])->Some_0),
        lookup(own_decls(n, st).0, ident_of(n.children[k])->Some_0) == Some(st.len() - 1),
{
    lemma_declare_from_declares(st, n.children, 0, k);
    lemma_declare_from_depth(st, n.children, 0);
    let st2 = own_decls(n, st).0;
    assert(st2[st2.len() - 1] == st2.last());
}

/// A declaration that declares its identifier without error makes it resolve to the innermost
/// scope; a function that declares its name without error is at the global scope, and its name
/// then resolves there.
pub proof fn declarations_declare_their_identifier(n: NodeV, st: Levels)
    requires
        n.t == NodeT::Declaration || n.t == NodeT::Function,
        st.len() > 0,
        own_decls(n, st).1 is Ok,
    ensures
        lookup(own_decls(n, st).0, ident_of(n.children[0])->Some_0) == Some(st.len() - 1),
        n.t == NodeT::Function ==> st.len() == 1,
{
    declare_then_lookup(st, ident_of(n.children[0])->Some_0);
}

/// Resolving children without error keeps the number of scopes.
proof fn lemma_resolve_kids_depth(t: NodeT, ps: int, c: Seq<ElemV>, st: Levels, k: int)
    requires
        st.len() > 0,
        resolve_kids(t, ps, c, st, k).2 is Ok,
    ensures
        resolve_kids(t, ps, c, st, k).1.len() == st.len(),
    decreases c, k,
{
    if 0 < k <= c.len() {
        lemma_resolve_kids_depth(t, ps, c, st, k - 1);
        let st1 = resolve_kids(t, ps, c, st, k - 1).1;
        match c[k - 1] {
            ElemV::Node(m) => {
                assert(decreases_to!(c => c[k - 1]));
                resolve_keeps_depth(m, st1);
            },
            ElemV::Token(_) => {},
        }
    }
}

/// A node resolved without error leaves as many scopes open as there were: a block closes
/// the scope it opens.
pub proof fn resolve_keeps_depth(n: NodeV, st: Levels)
    requires
        st.len() > 0,
        resolve_v(n, st).2 is Ok,
    ensures
        resolve_v(n, st).1.len() == st.len(),
    decreases n,
{
    let (st1, r1) = own_decls(n, st);
    if n.t == NodeT::Params {
        lemma_declare_from_depth(st, n.children, 0);
    }
    let st2 = if n.t == NodeT::Block { st1.push(Seq::<Seq<char>>::empty()) } else { st1 };
    lemma_resolve_kids_depth(n.t, n.start, n.children, st2, n.children.len() as int);
}

/// The stack of scopes used to resolve identifiers.
pub struct SymbolStack {
    stack: Vec<Vec<String>>,
    scope: usize,
}

impl View for SymbolStack {
    type V = Levels;

    closed spec fn view(&self) -> Levels {
        Seq::new(self.stack@.len(), |i: int| Seq::new(self.stack@[i]@.len(), |j: int| self.stack@[i]@[j]@))
    }
}

/// Whether `v` holds a string equal to `s`.
fn has_string(v: &Vec<String>, s: &String) -> (r: bool)
    ensures
        r == Seq::new(v@.len(), |j: int| v@[j]@).contains(s@),
{
    let ghost w = Seq::new(v@.len(), |j: int| v@[j]@);
    let mut i: usize = 0;
    while i < v.len()
        invariant
            i <= v@.len(),
            w == Seq::new(v@.len(), |j: int| v@[j]@),
            forall|j: int| 0 <= j < i ==> w[j] != s@,
        decreases v@.len() - i,
    {
        if v[i] == *s {
            assert(w[i as int] == s@);
            return true;
        }
        i += 1;
    }
    false
}

impl SymbolStack {
    /// There is one more level than the depth of the innermost scope.
    pub closed spec fn wf(&self) -> bool {
        self.stack@.len() == self.scope + 1
    }

    /// A stack with only the global scope, empty.
    pub fn new() -> (s: Self)
        ensures
            s.wf(),
            s@ == seq![Seq::<Seq<char>>::empty()],
    {
        let mut stack: Vec<Vec<String>> = Vec::new();
        stack.push(Vec::new());
        let s = SymbolStack { stack, scope: 0 };
        assert(s@ =~~= seq![Seq::<Seq<char>>::empty()]);
        s
    }

    /// The depth of the innermost scope that declares `ident`.
    pub fn get_scope(&self, ident: &String) -> (r: Option<usize>)
        requires
            self.wf(),
        ensures
            match r {
                Some(x) => lookup(self@, ident@) == Some(x as int),
                None => lookup(self@, ident@) is None,
            },
    {
        let ghost st = self@;
        let mut k = self.stack.len();
        while k > 0
            invariant
                k <= self.stack@.len(),
                st == self@,
                lookup(st, ident@) == find_level(st, ident@, k as int),
            decreases k,
        {
            if has_string(&self.stack[k - 1], ident) {
                assert(st[k - 1] =~= Seq::new(self.stack@[k - 1]@.len(), |j: int| self.stack@[k - 1]@[j]@));
                return Some(k - 1);
            }
            assert(st[k - 1] =~= Seq::new(self.stack@[k - 1]@.len(), |j: int| self.stack@[k - 1]@[j]@));
            k -= 1;
        }
        None
    }

    /// Declares `ident` in the innermost scope: `Ok` with its depth, or `Err` with a message
    /// when that scope already declares it.
    pub fn declare(&mut self, ident: String) -> (r: Result<usize, String>)
        requires
            old(self).wf(),
        ensures
            final(self).wf(),
            final(self)@ == declare_v(old(self)@, ident@).0,
            match (declare_v(old(self)@, ident@).1, r) {
                (Ok(l), Ok(x)) => x == l,
                (Err(m), Err(x)) => x@ == m,
                _ => false,
            },
    {
        let ghost st = self@;
        let last = self.stack.len() - 1;
        assert(st.last() =~= Seq::new(self.stack@[last as int]@.len(), |j: int| self.stack@[last as int]@[j]@));
        if has_string(&self.stack[last], &ident) {
            let mut m = String::new();
            m.push_str("Attempted to redeclare identifier '");
            m.push_str(ident.as_str());
            m.push('\'');
            assert(m@ =~= redeclare_msg(ident@));
            Err(m)
        } else {
            let mut top = self.stack.pop().unwrap();
            top.push(ident);
            self.stack.push(top);
            assert(self@ =~~= st.update(st.len() - 1, st.last().push(ident@)));
            Ok(self.scope)
        }
    }

    /// Opens a new innermost scope.
    pub fn new_scope(&mut self)
        requires
            old(self).wf(),
        ensures
            final(self).wf(),
            final(self)@ == old(self)@.push(Seq::<Seq<char>>::empty()),
            final(self)@.len() >= 2,
    {
        let ghost st = self@;
        self.stack.push(Vec::new());
        self.scope = self.stack.len() - 1;
        assert(self@ =~~= st.push(Seq::<Seq<char>>::empty()));
    }

    /// Closes the innermost scope.
    pub fn end_scope(&mut self)
        requires
            old(self).wf(),
            old(self)@.len() > 1,
        ensures
            final(self).wf(),
            final(self)@ == old(self)@.drop_last(),
    {
        let ghost st = self@;
        self.stack.pop();
        self.scope -= 1;
        assert(self@ =~= st.drop_last());
    }

}


/// Each node among the children of a `kids_scope_shaped` sequence is `scope_shaped`.
proof fn lemma_kids_shaped(c: Seq<ElemV>, i: int)
    requires
        kids_scope_shaped(c),
        0 <= i < c.len(),
    ensures
        c[i] matches ElemV::Node(m) ==> scope_shaped(m),
    decreases c.len(),
{
    if i < c.len() - 1 {
        assert(c.drop_last()[i] == c[i]);
        lemma_kids_shaped(c.drop_last(), i);
    }
}

/// After the first error the remaining children are kept as they are.
proof fn lemma_kids_after_err(t: NodeT, ps: int, c: Seq<ElemV>, st: Levels, k: int)
    requires
        0 <= k <= c.len(),
        resolve_kids(t, ps, c, st, k).2 is Err,
    ensures
        resolve_kids(t, ps, c, st, c.len() as int) == (resolve_kids(t, ps, c, st, k).0 + c.subrange(k, c.len() as int), resolve_kids(t, ps, c, st, k).1, resolve_kids(t, ps, c, st, k).2),
    decreases c.len() - k,
{
    if k < c.len() {
        lemma_kids_after_err(t, ps, c, st, k + 1);
        assert(resolve_kids(t, ps, c, st, k).0.push(c[k]) + c.subrange(k + 1, c.len() as int) =~= resolve_kids(t, ps, c, st, k).0 + c.subrange(k, c.len() as int));
    } else {
        assert(resolve_kids(t, ps, c, st, k).0 + c.subrange(k, c.len() as int) =~= resolve_kids(t, ps, c, st, k).0);
    }
}

/// After the first error the remaining top-level nodes are kept as they are.
proof fn lemma_list_after_err(ns: Seq<NodeV>, st: Levels, k: int)
    requires
        0 <= k <= ns.len(),
        resolve_list(ns, st, k).2 is Err,
    ensures
        resolve_list(ns, st, ns.len() as int) == (resolve_list(ns, st, k).0 + ns.subrange(k, ns.len() as int), resolve_list(ns, st, k).1, resolve_list(ns, st, k).2),
    decreases ns.len() - k,
{
    if k < ns.len() {
        lemma_list_after_err(ns, st, k + 1);
        assert(resolve_list(ns, st, k).0.push(ns[k]) + ns.subrange(k + 1, ns.len() as int) =~= resolve_list(ns, st, k).0 + ns.subrange(k, ns.len() as int));
    } else {
        assert(resolve_list(ns, st, k).0 + ns.subrange(k, ns.len() as int) =~= resolve_list(ns, st, k).0);
    }
}

/// The text of a child that is an identifier token.
fn ident_text(e: &Elem) -> (r: String)
    requires
        ident_of(elem_v(*e)) is Some,
    ensures
        r@ == ident_of(elem_v(*e))->Some_0,
{
    match e {
        Elem::Token(t) => match &t.data {
            TokenData::IDENT(s) => s.clone(),
            _ => String::new(),
        },
        Elem::Node(_) => String::new(),
    }
}

/// The message for an identifier that no open scope declares.
fn not_found(ident: &String) -> (r: String)
    ensures
        r@ == not_found_msg(ident@),
{
    let mut m = String::new();
    m.push_str("cannot find identifier '");
    m.push_str(ident.as_str());
    m.push('\'');
    assert(m@ =~= not_found_msg(ident@));
    m
}

impl Node {
    /// Declares what this node declares itself, as `own_decls` says.
    #[verifier::loop_isolation(false)]
    fn declare_own(&self, stack: &mut SymbolStack) -> (r: Result<(), String>)
        requires
            old(stack).wf(),
            scope_shaped(node_v(*self)),
        ensures
            final(stack).wf(),
            final(stack)@ == own_decls(node_v(*self), old(stack)@).0,
            match (own_decls(node_v(*self), old(stack)@).1, r) {
                (Ok(_), Ok(_)) => true,
                (Err(e), Err(x)) => x@ == e,
                _ => false,
            },
            r is Ok ==> final(stack)@.len() == old(stack)@.len(),
    {
        let ghost n0 = node_v(*self);
        let ghost st0 = stack@;
        let t = self.t;
        proof {
            lemma_elems_v(self.children@);
        }
        if t == NodeT::Declaration || t == NodeT::Function {
            let id = ident_text(&self.children[0]);
            match stack.declare(id) {
                Err(msg) => Err(msg),
                Ok(level) => {
                    if t == NodeT::Function && level > 0 {
                        let mut m = String::new();
                        m.push_str("Attempted to define function at non-global scope");
                        assert(m@ =~= nonglobal_msg());
                        Err(m)
                    } else {
                        Ok(())
                    }
                },
            }
        } else if t == NodeT::Params {
            let mut i: usize = 0;
            while i < self.children.len()
                invariant
                    stack.wf(),
                    stack@.len() == st0.len(),
                    n0 == node_v(*self),
                    n0.children.len() == self.children@.len(),
                    forall|j: int| 0 <= j < self.children@.len() ==> #[trigger] n0.children[j] == elem_v(self.children@[j]),
                    t == NodeT::Params,
                    scope_shaped(n0),
                    n0.t == t,
                    own_decls(n0, st0) == declare_from(stack@, n0.children, i as int),
                    i % 2 == 0 || i == n0.children.len(),
                decreases n0.children.len() + 2 - i,
            {
                assert(ident_of(n0.children[i as int]) is Some);
                let id = ident_text(&self.children[i]);
                let ghost before = stack@;
                let ghost idv = id@;
                assert(idv == ident_of(n0.children[i as int])->Some_0);
                assert(declare_from(before, n0.children, i as int) == (match declare_v(before, idv).1 {
                    Err(m) => (declare_v(before, idv).0, Err(m)),
                    Ok(_) => declare_from(declare_v(before, idv).0, n0.children, i + 2),
                }));
                match stack.declare(id) {
                    Err(msg) => {
                        return Err(msg);
                    },
                    Ok(_) => {},
                }
                i = if self.children.len() - i > 2 {
                    i + 2
                } else {
                    self.children.len()
                };
            }
            Ok(())
        } else {
            Ok(())
        }
    }

    /// Resolves the identifiers of this node against `stack`, as `resolve_v` says.
    pub fn resolve_scope(&mut self, stack: &mut SymbolStack) -> (r: Result<(), ScopeError>)
        requires
            old(stack).wf(),
            scope_shaped(node_v(*old(self))),
        ensures
            final(stack).wf(),
            node_v(*final(self)) == resolve_v(node_v(*old(self)), old(stack)@).0,
            final(stack)@ == resolve_v(node_v(*old(self)), old(stack)@).1,
            match (resolve_v(node_v(*old(self)), old(stack)@).2, r) {
                (Ok(_), Ok(_)) => true,
                (Err(e), Err(x)) => x@ == e,
                _ => false,
            },
            r is Ok ==> final(stack)@.len() == old(stack)@.len(),
        decreases node_v(*old(self)),
    {
        let ghost n0 = node_v(*self);
        let t = self.t;
        let start = self.start;
        match self.declare_own(stack) {
            Err(msg) => {
                return Err(ScopeError { msg, start });
            },
            Ok(_) => {},
        }
        if t == NodeT::Block {
            stack.new_scope();
        }
        let mut kids: Vec<Elem> = Vec::new();
        core::mem::swap(&mut kids, &mut self.children);
        proof {
            lemma_elems_v(kids@);
            assert(decreases_to!(n0 => n0.children));
        }
        let (done, r) = resolve_children(t, start, kids, stack);
        self.children = done;
        match r {
            Err(e) => Err(e),
            Ok(_) => {
                if t == NodeT::Block {
                    stack.end_scope();
                }
                Ok(())
            },
        }
    }
}

/// Resolves the children `kids` of a node of kind `t` that starts at `ps`, as `resolve_kids`
/// says.
#[verifier::loop_isolation(false)]
fn resolve_children(t: NodeT, ps: usize, kids: Vec<Elem>, stack: &mut SymbolStack) -> (res: (Vec<Elem>, Result<(), ScopeError>))
    requires
        old(stack).wf(),
        kids_scope_shaped(elems_v(kids@)),
    ensures
        final(stack).wf(),
        elems_v(res.0@) == resolve_kids(t, ps as int, elems_v(kids@), old(stack)@, kids@.len() as int).0,
        final(stack)@ == resolve_kids(t, ps as int, elems_v(kids@), old(stack)@, kids@.len() as int).1,
        match (resolve_kids(t, ps as int, elems_v(kids@), old(stack)@, kids@.len() as int).2, res.1) {
            (Ok(_), Ok(_)) => true,
            (Err(e), Err(x)) => x@ == e,
            _ => false,
        },
        res.1 is Ok ==> final(stack)@.len() == old(stack)@.len(),
    decreases elems_v(kids@),
{
    let ghost c0 = kids@;
    let ghost c = elems_v(c0);
    let ghost st2 = stack@;
    let clen = kids.len();
    proof {
        lemma_elems_v(c0);
    }
    let mut kids = kids;
    let mut done: Vec<Elem> = Vec::new();
    let mut k: usize = 0;
    while kids.len() > 0
        invariant
            stack.wf(),
            k + kids@.len() == c.len(),
            c0.len() == clen,
            c == elems_v(c0),
            c.len() == c0.len(),
            forall|j: int| 0 <= j < kids@.len() ==> #[trigger] kids@[j] == c0[k + j],
            resolve_kids(t, ps as int, c, st2, k as int) == (elems_v(done@), stack@, Ok::<(), ScopeErrorV>(())),
            stack@.len() == st2.len(),
        decreases kids@.len(),
    {
        let e = kids.remove(0);
        proof {
            assert(e == c0[k as int]);
            assert(c[k as int] == elem_v(e));
            lemma_kids_shaped(c, k as int);
        }
        match e {
            Elem::Node(m) => {
                let mut m = m;
                proof {
                    assert(decreases_to!(c => c[k as int]));
                    assert(decreases_to!(c[k as int] => c[k as int]->Node_0));
                    assert(c[k as int]->Node_0 == node_v(m));
                }
                let r = m.resolve_scope(stack);
                proof {
                    lemma_elems_v_push(done@, Elem::Node(m));
                }
                done.push(Elem::Node(m));
                match r {
                    Err(err) => {
                        let ghost d = done@;
                        let ghost rest = kids@;
                        done.append(&mut kids);
                        proof {
                            lemma_kids_after_err(t, ps as int, c, st2, k + 1);
                            lemma_elems_v_add(d, rest);
                            lemma_elems_v(rest);
                            assert(elems_v(rest) =~= c.subrange(k + 1, c.len() as int));
                        }
                        return (done, Err(err));
                    },
                    Ok(_) => {},
                }
            },
            Elem::Token(tok) => {
                let Token { start: ts, end: te, data } = tok;
                match data {
                    TokenData::IDENT(ident) => {
                        if (t == NodeT::Invoke || t == NodeT::Function) && k == 0 {
                            proof {
                                lemma_elems_v_push(done@, Elem::Token(Token { start: ts, end: te, data: TokenData::IDENT(ident) }));
                            }
                            done.push(Elem::Token(Token { start: ts, end: te, data: TokenData::IDENT(ident) }));
                        } else {
                            match stack.get_scope(&ident) {
                                Some(level) => {
                                    let mut s2 = ident;
                                    s2.push('@');
                                    let lt = usize_text(level);
                                    s2.push_str(lt.as_str());
                                    proof {
                                        assert(s2@ =~= ident@ + seq!['@'] + dec(level as nat));
                                        lemma_elems_v_push(done@, Elem::Token(Token { start: ts, end: te, data: TokenData::IDENT(s2) }));
                                    }
                                    done.push(Elem::Token(Token { start: ts, end: te, data: TokenData::IDENT(s2) }));
                                },
                                None => {
                                    let msg = not_found(&ident);
                                    proof {
                                        lemma_elems_v_push(done@, Elem::Token(Token { start: ts, end: te, data: TokenData::IDENT(ident) }));
                                    }
                                    done.push(Elem::Token(Token { start: ts, end: te, data: TokenData::IDENT(ident) }));
                                    let ghost d = done@;
                                    let ghost rest = kids@;
                                    done.append(&mut kids);
                                    proof {
                                        lemma_kids_after_err(t, ps as int, c, st2, k + 1);
                                        lemma_elems_v_add(d, rest);
                                        lemma_elems_v(rest);
                                        assert(elems_v(rest) =~= c.subrange(k + 1, c.len() as int));
                                    }
                                    return (done, Err(ScopeError { msg, start: ps }));
                                },
                            }
                        }
                    },
                    other => {
                        proof {
                            lemma_elems_v_push(done@, Elem::Token(Token { start: ts, end: te, data: other }));
                        }
                        done.push(Elem::Token(Token { start: ts, end: te, data: other }));
                    },
                }
            },
        }
        k += 1;
    }
    (done, Ok(()))
}

/// Resolves the identifiers of the top-level nodes in turn, from one global scope, as
/// `resolve_list` says.
pub fn resolve_scope(nodes: &mut Vec<Node>) -> (r: Result<(), ScopeError>)
    requires
        forall|i: int| 0 <= i < old(nodes)@.len() ==> scope_shaped(#[trigger] node_v(old(nodes)@[i])),
    ensures
        ({
            let (ns, _st, res) = resolve_list(old(nodes)@.map_values(|n: Node| node_v(n)), seq![Seq::<Seq<char>>::empty()], old(nodes)@.len() as int);
            &&& final(nodes)@.map_values(|n: Node| node_v(n)) == ns
            &&& match (res, r) {
                (Ok(_), Ok(_)) => true,
                (Err(e), Err(x)) => x@ == e,
                _ => false,
            }
        }),
{
    let ghost ns0 = nodes@.map_values(|n: Node| node_v(n));
    let ghost v0 = nodes@;
    let total = nodes.len();
    let mut stack = SymbolStack::new();
    let ghost st0 = stack@;
    let mut rest: Vec<Node> = Vec::new();
    core::mem::swap(&mut rest, nodes);
    let mut k: usize = 0;
    assert(nodes@.map_values(|n: Node| node_v(n)) =~= seq![]);
    while rest.len() > 0
        invariant
            stack.wf(),
            k + rest@.len() == v0.len(),
            v0.len() == total,
            v0 == old(nodes)@,
            st0 == seq![Seq::<Seq<char>>::empty()],
            ns0 == v0.map_values(|n: Node| node_v(n)),
            forall|j: int| 0 <= j < v0.len() ==> scope_shaped(#[trigger] node_v(v0[j])),
            forall|j: int| 0 <= j < rest@.len() ==> #[trigger] rest@[j] == v0[k + j],
            resolve_list(ns0, st0, k as int) == (nodes@.map_values(|n: Node| node_v(n)), stack@, Ok::<(), ScopeErrorV>(())),
        decreases rest@.len(),
    {
        let mut n = rest.remove(0);
        assert(n == v0[k as int]);
        assert(ns0[k as int] == node_v(n));
        let ghost before = nodes@;
        let r = n.resolve_scope(&mut stack);
        nodes.push(n);
        assert(nodes@.map_values(|n: Node| node_v(n)) =~= before.map_values(|n: Node| node_v(n)).push(node_v(n)));
        match r {
            Err(err) => {
                let ghost d = nodes@;
                let ghost tail = rest@;
                nodes.append(&mut rest);
                proof {
                    assert(resolve_list(ns0, st0, k + 1).2 is Err);
                    lemma_list_after_err(ns0, st0, k + 1);
                    assert(resolve_list(ns0, st0, ns0.len() as int).2 == resolve_list(ns0, st0, k + 1).2);
                    assert(nodes@.map_values(|n: Node| node_v(n)) =~= d.map_values(|n: Node| node_v(n)) + ns0.subrange(k + 1, ns0.len() as int));
                }
                return Err(err);
            },
            Ok(_) => {},
        }
        k += 1;
    }
    Ok(())
}

} // verus!
