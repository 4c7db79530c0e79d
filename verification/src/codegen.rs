use vstd::prelude::*;
use vstd::string::*;
use crate::token::{Type, TokenData, TokenDataV};
use crate::ast::{NodeData, NodeDataV, LNode, LElem, LToken, LNodeV, LElemV, LTokenV, lnode_v, lelem_v, lelems_v, ltoken_v, data_v, params_v, lelem_type, lemma_lelems_v};
use crate::text::{dec, int_text, push_u64, push_i64};
use crate::typecheck::{op1, op2};

verus! {

/// `n` copies of two spaces.
pub open spec fn spaces(n: nat) -> Seq<char>
    decreases n,
{
    if n == 0 {
        seq![]
    } else {
        spaces((n - 1) as nat) + seq![' ', ' ']
    }
}

/// The number of `(` in `s` minus the number of `)`.
pub open spec fn delta(s: Seq<char>) -> int
    decreases s.len(),
{
    if s.len() == 0 {
        0
    } else {
        delta(s.drop_last()) + if s.last() == '(' { 1int } else if s.last() == ')' { -1int } else { 0int }
    }
}

/// Tracking the depth `t` over the characters of `s`, `(` one deeper and `)` one shallower:
/// the depth afterwards, or `None` where it would go below zero or past `u32::MAX`.
pub open spec fn track(t: int, s: Seq<char>) -> Option<int>
    decreases s.len(),
{
    if s.len() == 0 {
        Some(t)
    } else {
        match track(t, s.drop_last()) {
            None => None,
            Some(d) => if s.last() == '(' {
                if d + 1 > u32::MAX { None } else { Some(d + 1) }
            } else if s.last() == ')' {
                if d == 0 { None } else { Some(d - 1) }
            } else {
                Some(d)
            },
        }
    }
}

/// The global part of a module: its text and its nesting depth.
#[derive(Debug)]
pub struct Glob {
    pub v: String,
    pub t: u32,
}

/// A function being generated: its header, its declarations, its body and the depth of its body.
#[derive(Debug)]
pub struct Func {
    pub sig: String,
    pub p: String,
    pub v: String,
    pub t: u32,
}

/// The module being generated: the global part, the finished functions, and where the next
/// string literal goes in linear memory.
#[derive(Debug)]
pub struct Prog {
    pub global: Glob,
    pub funcs: Vec<Func>,
    pub mem: usize,
}

/// The value of a global part.
pub struct GlobV {
    pub v: Seq<char>,
    pub t: int,
}

/// The value of a function being generated.
pub struct FuncV {
    pub sig: Seq<char>,
    pub p: Seq<char>,
    pub v: Seq<char>,
    pub t: int,
}

/// The value of a module being generated.
pub struct ProgV {
    pub global: GlobV,
    pub funcs: Seq<FuncV>,
    pub mem: int,
}

/// The value of a function.
pub open spec fn func_v(f: Func) -> FuncV {
    FuncV { sig: f.sig@, p: f.p@, v: f.v@, t: f.t as int }
}

/// The value of a module.
pub open spec fn prog_v(p: Prog) -> ProgV {
    ProgV {
        global: GlobV { v: p.global.v@, t: p.global.t as int },
        funcs: p.funcs@.map_values(|f: Func| func_v(f)),
        mem: p.mem as int,
    }
}

/// A line pushed to the global part: indented by its depth, then the depth tracked over it.
pub open spec fn glob_push(g: GlobV, s: Seq<char>) -> Option<GlobV> {
    match track(g.t, s) {
        Some(t) => Some(GlobV { v: g.v + spaces(g.t as nat) + s + seq!['\n'], t }),
        None => None,
    }
}

/// A line pushed to a function's body: a line that closes more than it opens is indented at
/// the depth it returns to, a line that opens more raises the depth after it.
pub open spec fn func_push(f: FuncV, s: Seq<char>) -> Option<FuncV> {
    let d = delta(s);
    if d < 0 && f.t < -d {
        None
    } else {
        let t1 = if d < 0 { f.t + d } else { f.t };
        let t2 = if d > 0 { t1 + d } else { t1 };
        if t2 > u32::MAX {
            None
        } else {
            Some(FuncV { sig: f.sig, p: f.p, v: f.v + spaces(t1 as nat) + s + seq!['\n'], t: t2 })
        }
    }
}

/// A line added to a function's declarations.
pub open spec fn func_prefix(f: FuncV, s: Seq<char>) -> FuncV {
    FuncV { sig: f.sig, p: f.p + seq![' ', ' ', ' ', ' '] + s + seq!['\n'], v: f.v, t: f.t }
}

/// The text of a function.
pub open spec fn func_text(f: FuncV) -> Seq<char> {
    seq![' ', ' '] + f.sig + seq!['\n'] + f.p + seq!['\n'] + f.v + seq!['\n', ' ', ' ', ')', '\n']
}

/// Two spaces as often as `n` says stay two spaces more per step.
proof fn lemma_spaces(n: nat)
    ensures
        spaces(n + 1) == spaces(n) + seq![' ', ' '],
{
}

/// The depth change of a string is at most its length either way.
proof fn lemma_delta_bound(s: Seq<char>)
    ensures
        -s.len() <= delta(s) <= s.len(),
    decreases s.len(),
{
    if s.len() > 0 {
        lemma_delta_bound(s.drop_last());
    }
}

/// The depth change of the first `i` characters of `s`.
fn delta_exec(s: &str) -> (r: i128)
    ensures
        r == delta(s@),
        -(s@.len() as int) <= r <= s@.len(),
        s@.len() <= usize::MAX,
{
    let n = s.unicode_len();
    let mut d: i128 = 0;
    let mut i: usize = 0;
    while i < n
        invariant
            i <= n,
            n == s@.len(),
            d == delta(s@.subrange(0, i as int)),
            -(i as int) <= d <= i,
        decreases n - i,
    {
        let c = s.get_char(i);
        proof {
            assert(s@.subrange(0, i + 1).drop_last() =~= s@.subrange(0, i as int));
        }
        if c == '(' {
            d = d + 1;
        } else if c == ')' {
            d = d - 1;
        }
        i += 1;
    }
    assert(s@.subrange(0, n as int) =~= s@);
    d
}

/// Appends `n` copies of two spaces.
fn push_spaces(v: &mut String, n: u32)
    ensures
        final(v)@ == old(v)@ + spaces(n as nat),
{
    let mut i: u32 = 0;
    while i < n
        invariant
            i <= n,
            v@ == old(v)@ + spaces(i as nat),
        decreases n - i,
    {
        v.push_str("  ");
        proof {
            reveal_strlit("  ");
            lemma_spaces(i as nat);
        }
        assert(v@ =~= old(v)@ + spaces((i + 1) as nat));
        i += 1;
    }
}

impl Glob {
    /// An empty global part at depth 0.
    pub fn new() -> (g: Glob)
        ensures
            g.v@ == Seq::<char>::empty(),
            g.t == 0,
    {
        Glob { v: String::new(), t: 0 }
    }

    /// Pushes a line, as `glob_push` says; `false`, where that has no result, with the depth
    /// tracking stopped where it failed.
    pub fn push(&mut self, s: &str) -> (ok: bool)
        ensures
            ok == glob_push(GlobV { v: old(self).v@, t: old(self).t as int }, s@) is Some,
            ok ==> glob_push(GlobV { v: old(self).v@, t: old(self).t as int }, s@) == Some(GlobV { v: final(self).v@, t: final(self).t as int }),
            !ok ==> final(self).v@ == old(self).v@ + spaces(old(self).t as nat) + s@ + seq!['\n'] && final(self).t == old(self).t,
    {
        let ghost g0 = GlobV { v: self.v@, t: self.t as int };
        push_spaces(&mut self.v, self.t);
        self.v.push_str(s);
        self.v.push('\n');
        assert(self.v@ =~= g0.v + spaces(g0.t as nat) + s@ + seq!['\n']);
        match track_exec(self.t, s) {
            Some(t) => {
                self.t = t;
                true
            },
            None => false,
        }
    }
}

/// Tracks the depth `t` over the characters of `s`, as `track` says.
fn track_exec(t0: u32, s: &str) -> (r: Option<u32>)
    ensures
        match (track(t0 as int, s@), r) {
            (None, None) => true,
            (Some(d), Some(x)) => d == x,
            _ => false,
        },
{
    let n = s.unicode_len();
    let mut t = t0;
    let mut i: usize = 0;
    while i < n
        invariant
            i <= n,
            n == s@.len(),
            track(t0 as int, s@.subrange(0, i as int)) == Some(t as int),
        decreases n - i,
    {
        let c = s.get_char(i);
        proof {
            assert(s@.subrange(0, i + 1).drop_last() =~= s@.subrange(0, i as int));
        }
        assert(s@.subrange(0, i + 1).last() == c);
        if c == '(' {
            if t == u32::MAX {
                proof {
                    lemma_track_none(t0 as int, s@, i as int + 1);
                }
                return None;
            }
            t = t + 1;
        } else if c == ')' {
            if t == 0 {
                proof {
                    lemma_track_none(t0 as int, s@, i as int + 1);
                }
                return None;
            }
            t = t - 1;
        }
        i += 1;
    }
    assert(s@.subrange(0, n as int) =~= s@);
    Some(t)
}

/// Once tracking the depth over a prefix fails, tracking it over the whole fails.
proof fn lemma_track_none(t: int, s: Seq<char>, i: int)
    requires
        0 <= i <= s.len(),
        track(t, s.subrange(0, i)) is None,
    ensures
        track(t, s) is None,
    decreases s.len() - i,
{
    if i < s.len() {
        assert(s.subrange(0, i + 1).drop_last() =~= s.subrange(0, i));
        lemma_track_none(t, s, i + 1);
    } else {
        assert(s.subrange(0, i) =~= s);
    }
}

impl Func {
    /// A function with header `sig`, nothing declared, an empty body at depth 2.
    pub fn new(sig: String) -> (f: Func)
        ensures
            func_v(f) == (FuncV { sig: sig@, p: Seq::<char>::empty(), v: Seq::<char>::empty(), t: 2 }),
    {
        Func { sig, p: String::new(), v: String::new(), t: 2 }
    }

    /// Pushes a line to the body, as `func_push` says; `false`, with nothing changed, where
    /// that has no result.
    pub fn push(&mut self, s: &str) -> (ok: bool)
        ensures
            ok == func_push(func_v(*old(self)), s@) is Some,
            ok ==> func_push(func_v(*old(self)), s@) == Some(func_v(*final(self))),
            !ok ==> *final(self) == *old(self),
    {
        let ghost f0 = func_v(*self);
        let d = delta_exec(s);
        proof {
            lemma_delta_bound(s@);
        }
        if d < 0 && (self.t as i128) < -d {
            return false;
        }
        let t1: i128 = if d < 0 {
            self.t as i128 + d
        } else {
            self.t as i128
        };
        let t2: i128 = if d > 0 {
            t1 + d
        } else {
            t1
        };
        proof {
            lemma_delta_bound(s@);
        }
        if t2 > u32::MAX as i128 {
            return false;
        }
        push_spaces(&mut self.v, t1 as u32);
        self.v.push_str(s);
        self.v.push('\n');
        self.t = t2 as u32;
        assert(self.v@ =~= f0.v + spaces(t1 as nat) + s@ + seq!['\n']);
        true
    }

    /// Adds a line to the declarations.
    pub fn prefix(&mut self, s: &str)
        ensures
            func_v(*final(self)) == func_prefix(func_v(*old(self)), s@),
    {
        let ghost f0 = func_v(*self);
        self.p.push_str("    ");
        self.p.push_str(s);
        self.p.push('\n');
        proof {
            reveal_strlit("    ");
        }
        assert(self.p@ =~= f0.p + seq![' ', ' ', ' ', ' '] + s@ + seq!['\n']);
    }

    /// The text of this function.
    pub fn to_string(self) -> (r: String)
        ensures
            r@ == func_text(func_v(self)),
    {
        let mut code = String::new();
        code.push_str("  ");
        code.push_str(self.sig.as_str());
        code.push('\n');
        code.push_str(self.p.as_str());
        code.push('\n');
        code.push_str(self.v.as_str());
        code.push_str("\n  )\n");
        proof {
            reveal_strlit("  ");
            reveal_strlit("\n  )\n");
        }
        assert(code@ =~= func_text(func_v(self)));
        code
    }
}


/// The first byte of linear memory that string literals may use; the bytes before it are the
/// library's.
pub const RESERVED_MEM: usize = 40;

/// The WAT type of a value type; `Void` has none.
pub open spec fn wat_type(t: Type) -> Option<Seq<char>> {
    match t {
        Type::Int => Some("i64"@),
        Type::Bool => Some("i32"@),
        Type::String => Some("i64"@),
        Type::Void => None,
    }
}

impl Type {
    /// The WAT type of this type, as `wat_type` says.
    pub fn gen(&self) -> (r: Option<&'static str>)
        ensures
            match (wat_type(*self), r) {
                (None, None) => true,
                (Some(v), Some(x)) => x@ == v,
                _ => false,
            },
    {
        match self {
            Type::Int => Some("i64"),
            Type::Bool => Some("i32"),
            Type::String => Some("i64"),
            Type::Void => None,
        }
    }
}

/// A hexadecimal digit.
pub open spec fn hex_digit(d: int) -> char {
    if d < 10 { digit_or_zero(d) } else if d == 10 { 'a' } else if d == 11 { 'b' } else if d == 12 { 'c' } else if d == 13 { 'd' } else if d == 14 { 'e' } else { 'f' }
}

/// The decimal digit below ten.
pub open spec fn digit_or_zero(d: int) -> char {
    crate::text::digit(d)
}

/// Each byte as a WAT string escape `\hh`.
pub open spec fn hex_escape(b: Seq<u8>) -> Seq<char>
    decreases b.len(),
{
    if b.len() == 0 {
        seq![]
    } else {
        hex_escape(b.drop_last()) + seq!['\\', hex_digit((b.last() / 16) as int), hex_digit((b.last() % 16) as int)]
    }
}

/// The data segment that holds string bytes `b` at `ptr`.
pub open spec fn data_line(ptr: int, b: Seq<u8>) -> Seq<char> {
    "(data (i32.const "@ + dec(ptr as nat) + ") \""@ + hex_escape(b) + "\")"@
}

/// Places a string literal with bytes `b` in linear memory: a data segment in the global part
/// at the next free offset, which moves past it. The offset, or `None` where the memory
/// offset would overflow or the global part cannot take the line.
pub open spec fn add_str(prog: ProgV, b: Seq<u8>) -> Option<(ProgV, int)> {
    if prog.mem + b.len() > usize::MAX {
        None
    } else {
        match glob_push(prog.global, data_line(prog.mem, b)) {
            Some(g) => Some((ProgV { global: g, funcs: prog.funcs, mem: prog.mem + b.len() }, prog.mem)),
            None => None,
        }
    }
}

/// Pushes the lines `ls` to a function's body in turn.
pub open spec fn push_all(f: FuncV, ls: Seq<Seq<char>>) -> Option<FuncV>
    decreases ls.len(),
{
    if ls.len() == 0 {
        Some(f)
    } else {
        match push_all(f, ls.drop_last()) {
            Some(f1) => func_push(f1, ls.last()),
            None => None,
        }
    }
}

/// The code for a token: its value pushed on the stack. An integer or a boolean is a constant,
/// an identifier reads its local, a string literal is placed in memory and stands for its
/// length shifted into the upper half plus its offset.
pub open spec fn gen_tok(t: LTokenV, prog: ProgV, f: FuncV) -> Option<(ProgV, FuncV)> {
    match t.data {
        TokenDataV::INT(n) => match func_push(f, "(i64.const "@ + int_text(n) + ")"@) {
            Some(f1) => Some((prog, f1)),
            None => None,
        },
        TokenDataV::BOOL(b) => match func_push(f, if b { "(i32.const 1)"@ } else { "(i32.const 0)"@ }) {
            Some(f1) => Some((prog, f1)),
            None => None,
        },
        TokenDataV::IDENT(id) => match func_push(f, "(local.get $"@ + id + ")"@) {
            Some(f1) => Some((prog, f1)),
            None => None,
        },
        TokenDataV::STR_LIT(s) => {
            let b = vstd::utf8::encode_utf8(s);
            match add_str(prog, b) {
                Some((p1, ptr)) => match push_all(f, seq![
                    "(i64.const "@ + dec(b.len()) + ")"@,
                    "(i64.const 32)"@,
                    "(i64.rotr)"@,
                    "(i64.const "@ + dec(ptr as nat) + ")"@,
                    "(i64.add)"@,
                ]) {
                    Some(f1) => Some((p1, f1)),
                    None => None,
                },
                None => None,
            }
        },
        _ => None,
    }
}

/// The code for a child.
pub open spec fn gen_elem(e: LElemV, prog: ProgV, f: FuncV) -> Option<(ProgV, FuncV)>
    decreases e, 2int,
{
    match e {
        LElemV::Node(n) => gen_node(n, prog, f),
        LElemV::Token(t) => gen_tok(t, prog, f),
    }
}

/// The code for the first `k` children `v` in turn.
pub open spec fn gen_list(v: Seq<LElemV>, prog: ProgV, f: FuncV, k: int) -> Option<(ProgV, FuncV)>
    decreases v, k,
{
    if k <= 0 || k > v.len() {
        Some((prog, f))
    } else {
        match gen_list(v, prog, f, k - 1) {
            Some((p1, f1)) => gen_elem(v[k - 1], p1, f1),
            None => None,
        }
    }
}

/// The declarations for the first `k` parameters `v`.
pub open spec fn params_prefix(f: FuncV, v: Seq<(Seq<char>, Type)>, k: int) -> Option<FuncV>
    decreases k,
{
    if k <= 0 || k > v.len() {
        Some(f)
    } else {
        match (params_prefix(f, v, k - 1), wat_type(v[k - 1].1)) {
            (Some(f1), Some(wt)) => Some(func_prefix(f1, "(param $"@ + v[k - 1].0 + " "@ + wt + ")"@)),
            _ => None,
        }
    }
}

/// The operation a binary expression of type `t` with operator `op` opens with.
pub open spec fn op_code(t: Type, op: Seq<char>) -> Option<Seq<char>> {
    match t {
        Type::Int => if op == seq!['+'] {
            Some("(i64.add"@)
        } else if op == seq!['-'] {
            Some("(i64.sub"@)
        } else if op == seq!['*'] {
            Some("(i64.mul"@)
        } else if op == seq!['/'] {
            Some("(i64.div"@)
        } else {
            None
        },
        Type::Bool => if op == seq!['|', '|'] {
            Some("(i32.or"@)
        } else if op == seq!['&', '&'] {
            Some("(i32.and"@)
        } else {
            None
        },
        _ => None,
    }
}

/// The code for a node, into function `f` of module `prog`. A function becomes a new function
/// of the module (its parameters and result declared, its block as body); a parameter list
/// declares its parameters; a block's statements follow each other; a declaration declares a
/// local of its expression's type and sets it; an `if` over an expression node runs its block
/// when that is true; a `return` leaves its value; a call calls with its arguments; `!`
/// compares with 1; `==` and `!=` compare their operands by their type; other operators apply
/// the operation for the expression's type (booleans then compared with 1). `None` where one
/// of these has no code.
pub open spec fn gen_node(n: LNodeV, prog: ProgV, f: FuncV) -> Option<(ProgV, FuncV)>
    decreases n, 1int,
{
    match n.data {
        NodeDataV::Function { ident, params, r_type, block } => {
            let f0 = FuncV { sig: "(func $"@ + ident, p: seq![], v: seq![], t: 2 };
            let g1 = match params {
                Some(p) => gen_elem(*p, prog, f0),
                None => Some((prog, f0)),
            };
            match g1 {
                Some((p1, f1)) => {
                    let f2 = match r_type {
                        Type::Int => func_prefix(f1, "(result i64)"@),
                        Type::Bool => func_prefix(f1, "(result i32)"@),
                        Type::String => func_prefix(f1, "(result i64)"@),
                        Type::Void => f1,
                    };
                    match gen_elem(*block, p1, f2) {
                        Some((p3, f3)) => Some((ProgV { global: p3.global, funcs: p3.funcs.push(f3), mem: p3.mem }, f)),
                        None => None,
                    }
                },
                None => None,
            }
        },
        NodeDataV::Params { v } => match params_prefix(f, v, v.len() as int) {
            Some(f1) => Some((prog, f1)),
            None => None,
        },
        NodeDataV::Block { v } => gen_list(v, prog, f, v.len() as int),
        NodeDataV::Declaration { ident, expr } => match wat_type(lelem_type(*expr)) {
            Some(wt) => {
                let f1 = func_prefix(f, "(local $"@ + ident + " "@ + wt + ")"@);
                match func_push(f1, "(local.set $"@ + ident) {
                    Some(f2) => match gen_elem(*expr, prog, f2) {
                        Some((p3, f3)) => match func_push(f3, ")"@) {
                            Some(f4) => Some((p3, f4)),
                            None => None,
                        },
                        None => None,
                    },
                    None => None,
                }
            },
            None => None,
        },
        NodeDataV::If { expr, block } => match *expr {
            LElemV::Node(en) => match gen_node(en, prog, f) {
                Some((p1, f1)) => match push_all(f1, seq!["(if"@, "(then"@]) {
                    Some(f2) => match gen_elem(*block, p1, f2) {
                        Some((p3, f3)) => match push_all(f3, seq![")"@, ")"@]) {
                            Some(f4) => Some((p3, f4)),
                            None => None,
                        },
                        None => None,
                    },
                    None => None,
                },
                None => None,
            },
            LElemV::Token(_) => None,
        },
        NodeDataV::Return { expr } => gen_elem(*expr, prog, f),
        NodeDataV::Invoke { ident, args } => match func_push(f, "(call $"@ + ident) {
            Some(f1) => match gen_list(args, prog, f1, args.len() as int) {
                Some((p2, f2)) => match func_push(f2, ")"@) {
                    Some(f3) => Some((p2, f3)),
                    None => None,
                },
                None => None,
            },
            None => None,
        },
        NodeDataV::UExpr { op, t } => if op == seq!['!'] {
            match push_all(f, seq!["(i32.ne"@, "(i32.const 1)"@]) {
                Some(f1) => match gen_elem(*t, prog, f1) {
                    Some((p2, f2)) => match func_push(f2, ")"@) {
                        Some(f3) => Some((p2, f3)),
                        None => None,
                    },
                    None => None,
                },
                None => None,
            }
        } else {
            None
        },
        NodeDataV::Expr { op, t1, t2 } => if op == seq!['=', '='] || op == seq!['!', '='] {
            match wat_type(lelem_type(*t1)) {
                Some(wt) => match func_push(f, "("@ + wt + "."@ + if op == seq!['=', '='] { "eq"@ } else { "ne"@ }) {
                    Some(f1) => match gen_elem(*t1, prog, f1) {
                        Some((p2, f2)) => match gen_elem(*t2, p2, f2) {
                            Some((p3, f3)) => match func_push(f3, ")"@) {
                                Some(f4) => Some((p3, f4)),
                                None => None,
                            },
                            None => None,
                        },
                        None => None,
                    },
                    None => None,
                },
                None => None,
            }
        } else {
            match op_code(n.t, op) {
                Some(a) => {
                    let opened = if n.t == Type::Bool { push_all(f, seq!["(i32.ge_u"@, a]) } else { func_push(f, a) };
                    match opened {
                        Some(f1) => match gen_elem(*t1, prog, f1) {
                            Some((p2, f2)) => match gen_elem(*t2, p2, f2) {
                                Some((p3, f3)) => {
                                    let closed = if n.t == Type::Bool { push_all(f3, seq!["(i32.const 1)"@, ")"@, ")"@]) } else { func_push(f3, ")"@) };
                                    match closed {
                                        Some(f4) => Some((p3, f4)),
                                        None => None,
                                    }
                                },
                                None => None,
                            },
                            None => None,
                        },
                        None => None,
                    }
                },
                None => None,
            }
        },
    }
}

/// The module text: the library, the global part, the functions, the entry function and its
/// export.
pub open spec fn module_text(lib: Seq<char>, prog: ProgV, main: FuncV) -> Seq<char> {
    "(module\n"@ + lib + prog.global.v + funcs_text(prog.funcs) + func_text(main) + "  (export \"_start\" (func $_main))\n"@ + ")"@
}

/// The texts of functions one after another.
pub open spec fn funcs_text(fs: Seq<FuncV>) -> Seq<char>
    decreases fs.len(),
{
    if fs.len() == 0 {
        seq![]
    } else {
        funcs_text(fs.drop_last()) + func_text(fs.last())
    }
}

/// Generates the code of the top-level nodes `ns` in turn: function definitions become
/// functions of the module, the rest goes into the entry function `$_main`; string literals go
/// from `RESERVED_MEM` on. `None` where some node has no code.
pub open spec fn gen_all(ns: Seq<LNodeV>, lib: Seq<char>) -> Option<Seq<char>> {
    let prog = ProgV { global: GlobV { v: seq![], t: 0 }, funcs: seq![], mem: RESERVED_MEM as int };
    let main = FuncV { sig: "(func $_main"@, p: seq![], v: seq![], t: 2 };
    match gen_top(ns, prog, main, ns.len() as int) {
        Some((p, m)) => Some(module_text(lib, p, m)),
        None => None,
    }
}

/// The code of the first `k` top-level nodes in turn.
pub open spec fn gen_top(ns: Seq<LNodeV>, prog: ProgV, f: FuncV, k: int) -> Option<(ProgV, FuncV)>
    decreases k,
{
    if k <= 0 || k > ns.len() {
        Some((prog, f))
    } else {
        match gen_top(ns, prog, f, k - 1) {
            Some((p1, f1)) => gen_node(ns[k - 1], p1, f1),
            None => None,
        }
    }
}


/// The hexadecimal digit for `d` below sixteen.
pub fn hex_char_of(d: u8) -> (c: char)
    requires
        d < 16,
    ensures
        c == hex_digit(d as int),
{
    hex_char(d)
}

/// The hexadecimal digit for `d` below sixteen.
fn hex_char(d: u8) -> (c: char)
    requires
        d < 16,
    ensures
        c == hex_digit(d as int),
{
    match d {
        0 => '0',
        1 => '1',
        2 => '2',
        3 => '3',
        4 => '4',
        5 => '5',
        6 => '6',
        7 => '7',
        8 => '8',
        9 => '9',
        10 => 'a',
        11 => 'b',
        12 => 'c',
        13 => 'd',
        14 => 'e',
        _ => 'f',
    }
}

/// Appends each byte of `b` as `\hh`.
fn push_hex(s: &mut String, b: &[u8])
    ensures
        final(s)@ == old(s)@ + hex_escape(b@),
{
    let mut i: usize = 0;
    while i < b.len()
        invariant
            i <= b@.len(),
            s@ == old(s)@ + hex_escape(b@.subrange(0, i as int)),
        decreases b@.len() - i,
    {
        let x = b[i];
        s.push('\\');
        s.push(hex_char(x / 16));
        s.push(hex_char(x % 16));
        proof {
            assert(b@.subrange(0, i + 1).drop_last() =~= b@.subrange(0, i as int));
        }
        assert(s@ =~= old(s)@ + hex_escape(b@.subrange(0, i + 1)));
        i += 1;
    }
    assert(b@.subrange(0, i as int) =~= b@);
}

/// Appends `t` to `s`.
fn cat(s: &mut String, t: &str)
    ensures
        final(s)@ == old(s)@ + t@,
{
    s.push_str(t);
}

/// Tracking the depth over a line ends at the depth before it plus its net parentheses.
proof fn lemma_track_delta(t: int, s: Seq<char>)
    requires
        track(t, s) is Some,
    ensures
        track(t, s)->Some_0 == t + delta(s),
    decreases s.len(),
{
    if s.len() > 0 {
        lemma_track_delta(t, s.drop_last());
    }
}

/// A line pushed to the global part is appended, indented by the depth before it, and the
/// depth afterwards is the depth before plus the line's `(` less its `)`.
pub proof fn glob_depth_follows_parens(g: GlobV, s: Seq<char>)
    requires
        glob_push(g, s) is Some,
    ensures
        glob_push(g, s)->Some_0.t == g.t + delta(s),
        glob_push(g, s)->Some_0.v == g.v + spaces(g.t as nat) + s + seq!['\n'],
{
    lemma_track_delta(g.t, s);
}

/// A line pushed to a function's body is appended, and the depth afterwards is the depth
/// before plus the line's `(` less its `)`.
pub proof fn func_depth_follows_parens(f: FuncV, s: Seq<char>)
    requires
        func_push(f, s) is Some,
    ensures
        func_push(f, s)->Some_0.t == f.t + delta(s),
        func_push(f, s)->Some_0.v.subrange(0, f.v.len() as int) == f.v,
        func_push(f, s)->Some_0.sig == f.sig,
        func_push(f, s)->Some_0.p == f.p,
{
    let f2 = func_push(f, s)->Some_0;
    let t1 = if delta(s) < 0 { f.t + delta(s) } else { f.t };
    assert(f2.v == f.v + (spaces(t1 as nat) + s + seq!['\n']));
    assert(f2.v.subrange(0, f.v.len() as int) =~= f.v);
}

/// Two string literals placed one after the other get places in memory that do not overlap:
/// each at the next free offset, the second where the first one ends.
pub proof fn str_literals_disjoint(p: ProgV, b1: Seq<u8>, b2: Seq<u8>)
    requires
        add_str(p, b1) is Some,
        add_str(add_str(p, b1)->Some_0.0, b2) is Some,
    ensures
        add_str(p, b1)->Some_0.1 == p.mem,
        add_str(add_str(p, b1)->Some_0.0, b2)->Some_0.1 == p.mem + b1.len(),
        add_str(add_str(p, b1)->Some_0.0, b2)->Some_0.0.mem == p.mem + b1.len() + b2.len(),
{
}

/// A generated module opens with `(module`, then holds the library text as it was given, and
/// closes with `)` after exporting its main function as `_start`.
pub proof fn module_embeds_lib(ns: Seq<LNodeV>, lib: Seq<char>)
    requires
        gen_all(ns, lib) is Some,
    ensures
        gen_all(ns, lib)->Some_0.subrange(0, lib.len() + 8int) == "(module\n"@ + lib,
        gen_all(ns, lib)->Some_0.last() == ')',
{
    reveal_strlit("(module\n");
    reveal_strlit(")");
    let prog = ProgV { global: GlobV { v: seq![], t: 0 }, funcs: seq![], mem: RESERVED_MEM as int };
    let main = FuncV { sig: "(func $_main"@, p: seq![], v: seq![], t: 2 };
    let (p, m) = gen_top(ns, prog, main, ns.len() as int)->Some_0;
    let head = "(module\n"@ + lib;
    let rest = p.global.v + funcs_text(p.funcs) + func_text(m) + "  (export \"_start\" (func $_main))\n"@;
    let t = module_text(lib, p, m);
    assert(t =~= head + rest + ")"@);
    assert(t.subrange(0, lib.len() + 8int) =~= head);
}

impl Prog {
    /// An empty module: no global lines, no functions, string literals from `RESERVED_MEM`.
    pub fn new() -> (p: Prog)
        ensures
            prog_v(p) == (ProgV { global: GlobV { v: seq![], t: 0 }, funcs: seq![], mem: RESERVED_MEM as int }),
    {
        let p = Prog { global: Glob::new(), funcs: Vec::new(), mem: RESERVED_MEM };
        assert(prog_v(p).funcs =~= Seq::<FuncV>::empty());
        p
    }

    /// Places a string literal in linear memory, as `add_str` says; its offset, or `None`.
    pub fn add_str_lit(&mut self, s: &String) -> (r: Option<usize>)
        ensures
            match (add_str(prog_v(*old(self)), vstd::utf8::encode_utf8(s@)), r) {
                (Some((p, ptr)), Some(x)) => prog_v(*final(self)) == p && x == ptr,
                (None, None) => true,
                _ => false,
            },
    {
        let b = s.as_str().as_bytes();
        let n = b.len();
        if n > usize::MAX - self.mem {
            return None;
        }
        let ptr = self.mem;
        let mut line = String::new();
        cat(&mut line, "(data (i32.const ");
        push_u64(&mut line, ptr as u64);
        cat(&mut line, ") \"");
        push_hex(&mut line, b);
        cat(&mut line, "\")");
        assert(line@ =~= data_line(ptr as int, b@));
        let ghost p0 = prog_v(*self);
        if !self.global.push(line.as_str()) {
            return None;
        }
        self.mem = ptr + n;
        assert(prog_v(*self).funcs =~= p0.funcs);
        Some(ptr)
    }

    /// The module text around the entry function `main`, with the library `lib`, as
    /// `module_text` says.
    pub fn to_string(self, main: Func, lib: &str) -> (r: String)
        ensures
            r@ == module_text(lib@, prog_v(self), func_v(main)),
    {
        let ghost pv = prog_v(self);
        let mut code = String::new();
        cat(&mut code, "(module\n");
        cat(&mut code, lib);
        cat(&mut code, self.global.v.as_str());
        let Prog { global: _, funcs, mem: _ } = self;
        let ghost f0 = funcs@;
        let mut funcs = funcs;
        let ghost mut k: int = 0;
        let ghost head = code@;
        assert(pv.funcs.subrange(0, 0) =~= seq![]);
        while funcs.len() > 0
            invariant
                0 <= k <= f0.len(),
                funcs@ == f0.subrange(k, f0.len() as int),
                pv.funcs == f0.map_values(|f: Func| func_v(f)),
                code@ == head + funcs_text(pv.funcs.subrange(0, k)),
            decreases funcs@.len(),
        {
            let f = funcs.remove(0);
            let t = f.to_string();
            code.push_str(t.as_str());
            proof {
                assert(pv.funcs.subrange(0, k + 1).drop_last() =~= pv.funcs.subrange(0, k));
                assert(f == f0[k]);
                k = k + 1;
            }
            assert(code@ =~= head + funcs_text(pv.funcs.subrange(0, k)));
        }
        assert(pv.funcs.subrange(0, k) =~= pv.funcs);
        let mt = main.to_string();
        code.push_str(mt.as_str());
        cat(&mut code, "  (export \"_start\" (func $_main))\n");
        cat(&mut code, ")");
        assert(code@ =~= module_text(lib@, pv, func_v(main)));
        code
    }
}


/// The outcome of code generation on the states before and after, as a spec result says.
pub open spec fn gen_ok(spec: Option<(ProgV, FuncV)>, ok: bool, prog: Prog, func: Func) -> bool {
    match spec {
        Some((p, f)) => ok && prog_v(prog) == p && func_v(func) == f,
        None => !ok,
    }
}

/// A line from two parts.
fn line2(a: &str, b: &str) -> (r: String)
    ensures
        r@ == a@ + b@,
{
    let mut l = String::new();
    cat(&mut l, a);
    cat(&mut l, b);
    assert(l@ =~= a@ + b@);
    l
}

/// A line from three parts.
fn line3(a: &str, b: &str, c: &str) -> (r: String)
    ensures
        r@ == a@ + b@ + c@,
{
    let mut l = String::new();
    cat(&mut l, a);
    cat(&mut l, b);
    cat(&mut l, c);
    assert(l@ =~= a@ + b@ + c@);
    l
}

/// A line from five parts.
fn line5(a: &str, b: &str, c: &str, d: &str, e: &str) -> (r: String)
    ensures
        r@ == a@ + b@ + c@ + d@ + e@,
{
    let mut l = String::new();
    cat(&mut l, a);
    cat(&mut l, b);
    cat(&mut l, c);
    cat(&mut l, d);
    cat(&mut l, e);
    assert(l@ =~= a@ + b@ + c@ + d@ + e@);
    l
}

/// A line with a number between two parts.
fn line_num(a: &str, n: u64, c: &str) -> (r: String)
    ensures
        r@ == a@ + dec(n as nat) + c@,
{
    let mut l = String::new();
    cat(&mut l, a);
    push_u64(&mut l, n);
    cat(&mut l, c);
    assert(l@ =~= a@ + dec(n as nat) + c@);
    l
}

impl LToken {
    /// The code for this token, as `gen_tok` says; `false` where that has none.
    pub fn codegen(&self, prog: &mut Prog, func: &mut Func) -> (ok: bool)
        ensures
            gen_ok(gen_tok(ltoken_v(*self), prog_v(*old(prog)), func_v(*old(func))), ok, *final(prog), *final(func)),
    {
        match &self.data {
            TokenData::INT(n) => {
                let mut l = String::new();
                cat(&mut l, "(i64.const ");
                push_i64(&mut l, *n);
                cat(&mut l, ")");
                assert(l@ =~= "(i64.const "@ + int_text(*n as int) + ")"@);
                func.push(l.as_str())
            },
            TokenData::BOOL(b) => {
                if *b {
                    func.push("(i32.const 1)")
                } else {
                    func.push("(i32.const 0)")
                }
            },
            TokenData::IDENT(id) => {
                let l = line3("(local.get $", id.as_str(), ")");
                func.push(l.as_str())
            },
            TokenData::STR_LIT(st) => {
                let ptr = match prog.add_str_lit(st) {
                    Some(p) => p,
                    None => {
                        return false;
                    },
                };
                let n = st.as_str().len();
                let l1 = line_num("(i64.const ", n as u64, ")");
                let l4 = line_num("(i64.const ", ptr as u64, ")");
                proof {
                    reveal_with_fuel(push_all, 6);
                }
                func.push(l1.as_str()) && func.push("(i64.const 32)") && func.push("(i64.rotr)") && func.push(l4.as_str())
                    && func.push("(i64.add)")
            },
            _ => false,
        }
    }
}

impl LElem {
    /// The code for this child, as `gen_elem` says.
    pub fn codegen(&self, prog: &mut Prog, func: &mut Func) -> (ok: bool)
        ensures
            gen_ok(gen_elem(lelem_v(*self), prog_v(*old(prog)), func_v(*old(func))), ok, *final(prog), *final(func)),
        decreases lelem_v(*self), 2int,
    {
        let ghost ev = lelem_v(*self);
        match self {
            LElem::Node(n) => {
                proof {
                    assert(decreases_to!(ev => ev->Node_0));
                }
                n.codegen(prog, func)
            },
            LElem::Token(t) => t.codegen(prog, func),
        }
    }
}

/// The code for children in turn, as `gen_list` says.
#[verifier::loop_isolation(false)]
fn gen_list_exec(v: &Vec<Box<LElem>>, prog: &mut Prog, func: &mut Func) -> (ok: bool)
    ensures
        gen_ok(gen_list(lelems_v(v@), prog_v(*old(prog)), func_v(*old(func)), v@.len() as int), ok, *final(prog), *final(func)),
    decreases lelems_v(v@), 0int,
{
    let ghost lv = lelems_v(v@);
    let ghost p0 = prog_v(*prog);
    let ghost f0 = func_v(*func);
    proof {
        lemma_lelems_v(v@);
    }
    let mut i: usize = 0;
    while i < v.len()
        invariant
            i <= v@.len(),
            lv == lelems_v(v@),
            lv.len() == v@.len(),
            forall|j: int| 0 <= j < v@.len() ==> #[trigger] lv[j] == lelem_v(*v@[j]),
            gen_list(lv, p0, f0, i as int) == Some((prog_v(*prog), func_v(*func))),
        decreases v@.len() - i,
    {
        proof {
            assert(decreases_to!(lv => lv[i as int]));
        }
        if !v[i].codegen(prog, func) {
            proof {
                lemma_gen_list_none(lv, p0, f0, i as int + 1);
            }
            return false;
        }
        i += 1;
    }
    true
}

/// Once the code for a prefix of a list fails, the code for the list fails.
proof fn lemma_gen_list_none(v: Seq<LElemV>, p: ProgV, f: FuncV, k: int)
    requires
        0 <= k <= v.len(),
        gen_list(v, p, f, k) is None,
    ensures
        gen_list(v, p, f, v.len() as int) is None,
    decreases v.len() - k,
{
    if k < v.len() {
        lemma_gen_list_none(v, p, f, k + 1);
    }
}

/// The declarations for parameters, as `params_prefix` says.
#[verifier::loop_isolation(false)]
fn params_exec(v: &Vec<(String, Type)>, func: &mut Func) -> (ok: bool)
    ensures
        match params_prefix(func_v(*old(func)), params_v(v@), v@.len() as int) {
            Some(f) => ok && func_v(*final(func)) == f,
            None => !ok,
        },
{
    let ghost pv = params_v(v@);
    let ghost f0 = func_v(*func);
    let mut i: usize = 0;
    while i < v.len()
        invariant
            i <= v@.len(),
            pv == params_v(v@),
            params_prefix(f0, pv, i as int) == Some(func_v(*func)),
        decreases v@.len() - i,
    {
        let wt = match v[i].1.gen() {
            Some(w) => w,
            None => {
                proof {
                    lemma_params_prefix_none(f0, pv, i as int + 1);
                }
                return false;
            },
        };
        let l = line5("(param $", v[i].0.as_str(), " ", wt, ")");
        func.prefix(l.as_str());
        i += 1;
    }
    true
}

/// Once the declarations for a prefix of the parameters fail, those for all fail.
proof fn lemma_params_prefix_none(f: FuncV, v: Seq<(Seq<char>, Type)>, k: int)
    requires
        0 <= k <= v.len(),
        params_prefix(f, v, k) is None,
    ensures
        params_prefix(f, v, v.len() as int) is None,
    decreases v.len() - k,
{
    if k < v.len() {
        lemma_params_prefix_none(f, v, k + 1);
    }
}

impl LNode {
    /// The code for this node, as `gen_node` says; `false` where that has none.
    pub fn codegen(&self, prog: &mut Prog, func: &mut Func) -> (ok: bool)
        ensures
            gen_ok(gen_node(lnode_v(*self), prog_v(*old(prog)), func_v(*old(func))), ok, *final(prog), *final(func)),
        decreases lnode_v(*self), 1int,
    {
        match &self.data {
            NodeData::Function { .. } => gen_function(self, prog, func),
            NodeData::Params { .. } | NodeData::Block { .. } | NodeData::Return { .. } => gen_simple(self, prog, func),
            NodeData::Declaration { .. } => gen_decl(self, prog, func),
            NodeData::If { .. } => gen_if(self, prog, func),
            NodeData::Invoke { .. } => gen_invoke(self, prog, func),
            NodeData::UExpr { .. } => gen_uexpr(self, prog, func),
            NodeData::Expr { .. } => gen_expr(self, prog, func),
        }
    }
}

/// The code for a parameter list, a block or a return.
#[verifier::spinoff_prover]
fn gen_simple(n: &LNode, prog: &mut Prog, func: &mut Func) -> (ok: bool)
    requires
        n.data is Params || n.data is Block || n.data is Return,
    ensures
        gen_ok(gen_node(lnode_v(*n), prog_v(*old(prog)), func_v(*old(func))), ok, *final(prog), *final(func)),
    decreases lnode_v(*n), 0int,
{
    let ghost nv = lnode_v(*n);
    proof {
        assert(decreases_to!(nv => nv.data));
    }
    match &n.data {
        NodeData::Params { v } => params_exec(v, func),
        NodeData::Block { v } => {
            proof {
                lemma_lelems_v(v@);
                assert(decreases_to!(nv.data => nv.data->Block_v));
            }
            gen_list_exec(v, prog, func)
        },
        NodeData::Return { expr } => {
            proof {
                assert(decreases_to!(nv.data => nv.data->Return_expr));
            }
            expr.codegen(prog, func)
        },
        _ => false,
    }
}

/// The code for a function node.
#[verifier::spinoff_prover]
fn gen_function(n: &LNode, prog: &mut Prog, func: &mut Func) -> (ok: bool)
    requires
        n.data is Function,
    ensures
        gen_ok(gen_node(lnode_v(*n), prog_v(*old(prog)), func_v(*old(func))), ok, *final(prog), *final(func)),
    decreases lnode_v(*n), 0int,
{
    let ghost nv = lnode_v(*n);
    proof {
        assert(decreases_to!(nv => nv.data));
    }
    match &n.data {
        NodeData::Function { ident, params, r_type, block } => {
            let sig = line2("(func $", ident.as_str());
            let mut f = Func::new(sig);
            match params {
                Some(p) => {
                    proof {
                        assert(decreases_to!(nv.data => nv.data->Function_params));
                        assert(decreases_to!(nv.data->Function_params => nv.data->Function_params->Some_0));
                    }
                    if !p.codegen(prog, &mut f) {
                        return false;
                    }
                },
                None => {},
            }
            match r_type {
                Type::Int => f.prefix("(result i64)"),
                Type::Bool => f.prefix("(result i32)"),
                Type::String => f.prefix("(result i64)"),
                Type::Void => {},
            }
            proof {
                assert(decreases_to!(nv.data => nv.data->Function_block));
            }
            if !block.codegen(prog, &mut f) {
                return false;
            }
            let ghost pb = prog_v(*prog);
            let ghost fb = func_v(f);
            prog.funcs.push(f);
            assert(prog_v(*prog).funcs =~= pb.funcs.push(fb));
            true
        },
        _ => false,
    }
}

/// The code for a declaration node.
#[verifier::spinoff_prover]
fn gen_decl(n: &LNode, prog: &mut Prog, func: &mut Func) -> (ok: bool)
    requires
        n.data is Declaration,
    ensures
        gen_ok(gen_node(lnode_v(*n), prog_v(*old(prog)), func_v(*old(func))), ok, *final(prog), *final(func)),
    decreases lnode_v(*n), 0int,
{
    let ghost nv = lnode_v(*n);
    proof {
        assert(decreases_to!(nv => nv.data));
    }
    match &n.data {
        NodeData::Declaration { ident, expr } => {
            let wt = match expr.t().gen() {
                Some(w) => w,
                None => {
                    return false;
                },
            };
            let l1 = line5("(local $", ident.as_str(), " ", wt, ")");
            func.prefix(l1.as_str());
            let l2 = line2("(local.set $", ident.as_str());
            if !func.push(l2.as_str()) {
                return false;
            }
            proof {
                assert(decreases_to!(nv.data => nv.data->Declaration_expr));
            }
            if !expr.codegen(prog, func) {
                return false;
            }
            func.push(")")
        },
        _ => false,
    }
}

/// The code for an `if` node.
#[verifier::spinoff_prover]
fn gen_if(n: &LNode, prog: &mut Prog, func: &mut Func) -> (ok: bool)
    requires
        n.data is If,
    ensures
        gen_ok(gen_node(lnode_v(*n), prog_v(*old(prog)), func_v(*old(func))), ok, *final(prog), *final(func)),
    decreases lnode_v(*n), 0int,
{
    let ghost nv = lnode_v(*n);
    proof {
        assert(decreases_to!(nv => nv.data));
        reveal_with_fuel(push_all, 3);
    }
    match &n.data {
        NodeData::If { expr, block } => {
            match &**expr {
                LElem::Node(en) => {
                    proof {
                        assert(decreases_to!(nv.data => nv.data->If_expr));
                        assert(decreases_to!(*nv.data->If_expr => (*nv.data->If_expr)->Node_0));
                    }
                    if !en.codegen(prog, func) {
                        return false;
                    }
                },
                LElem::Token(_) => {
                    return false;
                },
            }
            if !(func.push("(if") && func.push("(then")) {
                return false;
            }
            proof {
                assert(decreases_to!(nv.data => nv.data->If_block));
            }
            if !block.codegen(prog, func) {
                return false;
            }
            func.push(")") && func.push(")")
        },
        _ => false,
    }
}

/// The code for a call node.
#[verifier::spinoff_prover]
fn gen_invoke(n: &LNode, prog: &mut Prog, func: &mut Func) -> (ok: bool)
    requires
        n.data is Invoke,
    ensures
        gen_ok(gen_node(lnode_v(*n), prog_v(*old(prog)), func_v(*old(func))), ok, *final(prog), *final(func)),
    decreases lnode_v(*n), 0int,
{
    let ghost nv = lnode_v(*n);
    proof {
        assert(decreases_to!(nv => nv.data));
    }
    match &n.data {
        NodeData::Invoke { ident, args } => {
            let l = line2("(call $", ident.as_str());
            if !func.push(l.as_str()) {
                return false;
            }
            proof {
                lemma_lelems_v(args@);
                assert(decreases_to!(nv.data => nv.data->Invoke_args));
            }
            if !gen_list_exec(args, prog, func) {
                return false;
            }
            func.push(")")
        },
        _ => false,
    }
}

/// The code for a unary expression node.
#[verifier::spinoff_prover]
fn gen_uexpr(n: &LNode, prog: &mut Prog, func: &mut Func) -> (ok: bool)
    requires
        n.data is UExpr,
    ensures
        gen_ok(gen_node(lnode_v(*n), prog_v(*old(prog)), func_v(*old(func))), ok, *final(prog), *final(func)),
    decreases lnode_v(*n), 0int,
{
    let ghost nv = lnode_v(*n);
    proof {
        assert(decreases_to!(nv => nv.data));
        reveal_with_fuel(push_all, 3);
    }
    match &n.data {
        NodeData::UExpr { op, t } => {
            if !op1(op, '!') {
                return false;
            }
            if !(func.push("(i32.ne") && func.push("(i32.const 1)")) {
                return false;
            }
            proof {
                assert(decreases_to!(nv.data => nv.data->UExpr_t));
            }
            if !t.codegen(prog, func) {
                return false;
            }
            func.push(")")
        },
        _ => false,
    }
}

/// The code for a binary expression node.
#[verifier::spinoff_prover]
#[verifier::rlimit(60)]
fn gen_expr(n: &LNode, prog: &mut Prog, func: &mut Func) -> (ok: bool)
    requires
        n.data is Expr,
    ensures
        gen_ok(gen_node(lnode_v(*n), prog_v(*old(prog)), func_v(*old(func))), ok, *final(prog), *final(func)),
    decreases lnode_v(*n), 0int,
{
    let ghost nv = lnode_v(*n);
    proof {
        assert(decreases_to!(nv => nv.data));
        reveal_with_fuel(push_all, 4);
    }
    match &n.data {
        NodeData::Expr { op, t1, t2 } => {
            proof {
                assert(decreases_to!(nv.data => nv.data->Expr_t1));
                assert(decreases_to!(nv.data => nv.data->Expr_t2));
            }
            let is_eq = op2(op, '=', '=');
            if is_eq || op2(op, '!', '=') {
                let wt = match t1.t().gen() {
                    Some(w) => w,
                    None => {
                        return false;
                    },
                };
                let l = if is_eq {
                    line3("(", wt, ".eq")
                } else {
                    line3("(", wt, ".ne")
                };
                proof {
                    reveal_strlit(".eq");
                    reveal_strlit(".ne");
                    reveal_strlit(".");
                    reveal_strlit("eq");
                    reveal_strlit("ne");
                    assert(".eq"@ =~= "."@ + "eq"@);
                    assert(".ne"@ =~= "."@ + "ne"@);
                }
                assert(l@ =~= "("@ + wt@ + "."@ + if is_eq { "eq"@ } else { "ne"@ });
                if !func.push(l.as_str()) {
                    return false;
                }
                if !t1.codegen(prog, func) {
                    return false;
                }
                if !t2.codegen(prog, func) {
                    return false;
                }
                return func.push(")");
            }
            let a: &str = match n.t {
                Type::Int => {
                    if op1(op, '+') {
                        "(i64.add"
                    } else if op1(op, '-') {
                        "(i64.sub"
                    } else if op1(op, '*') {
                        "(i64.mul"
                    } else if op1(op, '/') {
                        "(i64.div"
                    } else {
                        return false;
                    }
                },
                Type::Bool => {
                    if op2(op, '|', '|') {
                        "(i32.or"
                    } else if op2(op, '&', '&') {
                        "(i32.and"
                    } else {
                        return false;
                    }
                },
                _ => {
                    return false;
                },
            };
            let is_bool = n.t == Type::Bool;
            let opened = if is_bool {
                func.push("(i32.ge_u") && func.push(a)
            } else {
                func.push(a)
            };
            if !opened {
                return false;
            }
            if !t1.codegen(prog, func) {
                return false;
            }
            if !t2.codegen(prog, func) {
                return false;
            }
            if is_bool {
                func.push("(i32.const 1)") && func.push(")") && func.push(")")
            } else {
                func.push(")")
            }
        },
        _ => false,
    }
}

/// Generates the module for the top-level nodes with the library `lib`, as `gen_all` says;
/// `None` where some node has no code.
#[verifier::loop_isolation(false)]
pub fn gen(nodes: &Vec<LNode>, lib: &str) -> (r: Option<String>)
    ensures
        match (gen_all(nodes@.map_values(|n: LNode| lnode_v(n)), lib@), r) {
            (Some(v), Some(x)) => x@ == v,
            (None, None) => true,
            _ => false,
        },
{
    let ghost ns = nodes@.map_values(|n: LNode| lnode_v(n));
    let mut prog = Prog::new();
    let ghost p0 = prog_v(prog);
    let mut main = Func::new(line2("(func $", "_main"));
    proof {
        reveal_strlit("(func $");
        reveal_strlit("_main");
        reveal_strlit("(func $_main");
    }
    assert(main.sig@ =~= "(func $_main"@);
    let ghost m0 = func_v(main);
    let mut i: usize = 0;
    while i < nodes.len()
        invariant
            i <= nodes@.len(),
            ns == nodes@.map_values(|n: LNode| lnode_v(n)),
            gen_top(ns, p0, m0, i as int) == Some((prog_v(prog), func_v(main))),
        decreases nodes@.len() - i,
    {
        assert(ns[i as int] == lnode_v(nodes@[i as int]));
        if !nodes[i].codegen(&mut prog, &mut main) {
            proof {
                lemma_gen_top_none(ns, p0, m0, i as int + 1);
            }
            return None;
        }
        i += 1;
    }
    Some(prog.to_string(main, lib))
}

/// Once the code for a prefix of the top-level nodes fails, the code for all fails.
proof fn lemma_gen_top_none(ns: Seq<LNodeV>, p: ProgV, f: FuncV, k: int)
    requires
        0 <= k <= ns.len(),
        gen_top(ns, p, f, k) is None,
    ensures
        gen_top(ns, p, f, ns.len() as int) is None,
    decreases ns.len() - k,
{
    if k < ns.len() {
        lemma_gen_top_none(ns, p, f, k + 1);
    }
}


/// Lines one after another, each ended by a line break.
pub open spec fn lines_text(ls: Seq<Seq<char>>) -> Seq<char>
    decreases ls.len(),
{
    if ls.len() == 0 {
        seq![]
    } else {
        lines_text(ls.drop_last()) + ls.last() + seq!['\n']
    }
}

/// The lines of the built-in library: `fd_write` imported from WASI, one page of memory
/// exported, and a `$print_int` that writes two digits through it.
pub open spec fn builtin_lib_lines() -> Seq<Seq<char>> {
    seq![
        "  ;; (File Descriptor, *iovs, iovs_len, nwritten) -> Returns number of bytes written"@,
        "  (import \"wasi_unstable\" \"fd_write\" (func $fd_write (param i32 i32 i32 i32) (result i32)))"@,
        "  ;; first 20 bytes are reserved for printer"@,
        "  (memory 1)"@,
        "  (export \"memory\" (memory 0))"@,
        "  (func $print_int (param $x i32)"@,
        "    (i32.store (i32.const 8)"@,
        "        (i32.add"@,
        "            (i32.const 48)"@,
        "            (i32.const 1)"@,
        "        )"@,
        "    )"@,
        "    (i32.store (i32.const 9)"@,
        "        (i32.add"@,
        "            (i32.const 48)"@,
        "            (i32.const 7)"@,
        "        )"@,
        "    )"@,
        "    (i32.store (i32.const 0) (i32.const 8))"@,
        "    (i32.store (i32.const 4) (i32.const 2))"@,
        "    (call $fd_write"@,
        "        (i32.const 1)"@,
        "        (i32.const 0)"@,
        "        (i32.const 1)"@,
        "        (i32.const 16)"@,
        "    )"@,
        "    drop"@,
        "  )"@
    ]
}

/// The lines of `v` joined, each ended by a line break, as `lines_text` says.
pub fn join_lines(v: &Vec<&str>) -> (r: String)
    ensures
        r@ == lines_text(v@.map_values(|l: &str| l@)),
{
    let ghost ls = v@.map_values(|l: &str| l@);
    let mut s = String::new();
    let mut i: usize = 0;
    while i < v.len()
        invariant
            i <= v@.len(),
            ls == v@.map_values(|l: &str| l@),
            s@ == lines_text(ls.subrange(0, i as int)),
        decreases v@.len() - i,
    {
        s.push_str(v[i]);
        s.push('\n');
        assert(ls.subrange(0, i + 1).drop_last() =~= ls.subrange(0, i as int));
        i += 1;
    }
    assert(ls.subrange(0, v@.len() as int) =~= ls);
    s
}

impl Prog {
    /// The built-in library text, as `builtin_lib_lines` says.
    pub fn lib() -> (r: String)
        ensures
            r@ == lines_text(builtin_lib_lines()),
    {
        let v: Vec<&str> = vec![
        "  ;; (File Descriptor, *iovs, iovs_len, nwritten) -> Returns number of bytes written",
        "  (import \"wasi_unstable\" \"fd_write\" (func $fd_write (param i32 i32 i32 i32) (result i32)))",
        "  ;; first 20 bytes are reserved for printer",
        "  (memory 1)",
        "  (export \"memory\" (memory 0))",
        "  (func $print_int (param $x i32)",
        "    (i32.store (i32.const 8)",
        "        (i32.add",
        "            (i32.const 48)",
        "            (i32.const 1)",
        "        )",
        "    )",
        "    (i32.store (i32.const 9)",
        "        (i32.add",
        "            (i32.const 48)",
        "            (i32.const 7)",
        "        )",
        "    )",
        "    (i32.store (i32.const 0) (i32.const 8))",
        "    (i32.store (i32.const 4) (i32.const 2))",
        "    (call $fd_write",
        "        (i32.const 1)",
        "        (i32.const 0)",
        "        (i32.const 1)",
        "        (i32.const 16)",
        "    )",
        "    drop",
        "  )"
        ];
        assert(v@.map_values(|l: &str| l@) =~= builtin_lib_lines());
        join_lines(&v)
    }
}

} // verus!
