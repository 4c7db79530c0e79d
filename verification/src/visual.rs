use vstd::prelude::*;
use crate::grammar::{TokenT, NodeT};
use crate::token::{Type, TokenData, TokenDataV};
use crate::codegen::hex_digit;
use crate::text::{int_text, dec, usize_text};
use crate::grammar::{ElemT, Action, NUM_SYMBOLS, sym_at, symbol_of_index};
use crate::table::{ParseTable, State, States, Item, ITEM_W};
use crate::grammar::Production;
use crate::productions::{Productions, prod_view};
use crate::tree::{Node, Elem, NodeV, ElemV, node_v, elem_v, lemma_elems_v};
use crate::ast::{LNode, LElem, NodeData, LNodeV, LElemV, NodeDataV, lnode_v, lelem_v, lelems_v, data_v, data_kind, params_v, lemma_lelems_v};

pub use crate::token_drawing::{print_tokens, can_print_tokens};

verus! {

/// The name of a token kind.
pub open spec fn tok_name(t: TokenT) -> Seq<char> {
    match t {
        TokenT::EOF => "EOF"@,
        TokenT::a => "a"@,
        TokenT::b => "b"@,
        TokenT::x => "x"@,
        TokenT::K_LET => "K_LET"@,
        TokenT::K_FUNC => "K_FUNC"@,
        TokenT::K_RETURN => "K_RETURN"@,
        TokenT::K_IF => "K_IF"@,
        TokenT::IDENT => "IDENT"@,
        TokenT::EQ_1 => "EQ_1"@,
        TokenT::INT => "INT"@,
        TokenT::STR_LIT => "STR_LIT"@,
        TokenT::BOOL => "BOOL"@,
        TokenT::OP1_b => "OP1_b"@,
        TokenT::OP2_b => "OP2_b"@,
        TokenT::OP3_n => "OP3_n"@,
        TokenT::OP4_n => "OP4_n"@,
        TokenT::OP_UNARY => "OP_UNARY"@,
        TokenT::TYPE => "TYPE"@,
        TokenT::PAREN_L => "PAREN_L"@,
        TokenT::PAREN_R => "PAREN_R"@,
        TokenT::CURLY_L => "CURLY_L"@,
        TokenT::CURLY_R => "CURLY_R"@,
        TokenT::COMMA => "COMMA"@,
        TokenT::COLON => "COLON"@,
        TokenT::ARROW => "ARROW"@,
    }
}

/// The name of a node kind.
pub open spec fn node_name(n: NodeT) -> Seq<char> {
    match n {
        NodeT::A => "A"@,
        NodeT::S => "S"@,
        NodeT::ROOT => "ROOT"@,
        NodeT::Statement => "Statement"@,
        NodeT::Function => "Function"@,
        NodeT::Block => "Block"@,
        NodeT::List => "List"@,
        NodeT::If => "If"@,
        NodeT::Declaration => "Declaration"@,
        NodeT::Expr => "Expr"@,
        NodeT::UExpr => "UExpr"@,
        NodeT::T1 => "T1"@,
        NodeT::T2 => "T2"@,
        NodeT::T3 => "T3"@,
        NodeT::TBase => "TBase"@,
        NodeT::Return => "Return"@,
        NodeT::Invoke => "Invoke"@,
        NodeT::Args => "Args"@,
        NodeT::Params => "Params"@,
    }
}

/// The name of a type.
pub open spec fn type_label(t: Type) -> Seq<char> {
    match t {
        Type::Void => "Void"@,
        Type::Int => "Int"@,
        Type::Bool => "Bool"@,
        Type::String => "String"@,
    }
}

/// The name of a token kind.
pub fn token_name(t: TokenT) -> (r: &'static str)
    ensures
        r@ == tok_name(t),
{
    match t {
        TokenT::EOF => "EOF",
        TokenT::a => "a",
        TokenT::b => "b",
        TokenT::x => "x",
        TokenT::K_LET => "K_LET",
        TokenT::K_FUNC => "K_FUNC",
        TokenT::K_RETURN => "K_RETURN",
        TokenT::K_IF => "K_IF",
        TokenT::IDENT => "IDENT",
        TokenT::EQ_1 => "EQ_1",
        TokenT::INT => "INT",
        TokenT::STR_LIT => "STR_LIT",
        TokenT::BOOL => "BOOL",
        TokenT::OP1_b => "OP1_b",
        TokenT::OP2_b => "OP2_b",
        TokenT::OP3_n => "OP3_n",
        TokenT::OP4_n => "OP4_n",
        TokenT::OP_UNARY => "OP_UNARY",
        TokenT::TYPE => "TYPE",
        TokenT::PAREN_L => "PAREN_L",
        TokenT::PAREN_R => "PAREN_R",
        TokenT::CURLY_L => "CURLY_L",
        TokenT::CURLY_R => "CURLY_R",
        TokenT::COMMA => "COMMA",
        TokenT::COLON => "COLON",
        TokenT::ARROW => "ARROW",
    }
}

/// The name of a node kind.
pub fn node_kind_name(n: NodeT) -> (r: &'static str)
    ensures
        r@ == node_name(n),
{
    match n {
        NodeT::A => "A",
        NodeT::S => "S",
        NodeT::ROOT => "ROOT",
        NodeT::Statement => "Statement",
        NodeT::Function => "Function",
        NodeT::Block => "Block",
        NodeT::List => "List",
        NodeT::If => "If",
        NodeT::Declaration => "Declaration",
        NodeT::Expr => "Expr",
        NodeT::UExpr => "UExpr",
        NodeT::T1 => "T1",
        NodeT::T2 => "T2",
        NodeT::T3 => "T3",
        NodeT::TBase => "TBase",
        NodeT::Return => "Return",
        NodeT::Invoke => "Invoke",
        NodeT::Args => "Args",
        NodeT::Params => "Params",
    }
}

/// The name of a type.
pub fn type_text(t: Type) -> (r: &'static str)
    ensures
        r@ == type_label(t),
{
    match t {
        Type::Void => "Void",
        Type::Int => "Int",
        Type::Bool => "Bool",
        Type::String => "String",
    }
}

/// The hexadecimal notation of `n`.
pub open spec fn hex_text(n: nat) -> Seq<char>
    decreases n,
{
    if n < 16 {
        seq![hex_digit(n as int)]
    } else {
        hex_text(n / 16).push(hex_digit((n % 16) as int))
    }
}

/// A character as it appears in quoted text: the usual backslash escapes, quotes escaped as
/// `sq` and `dq` ask, other ASCII control characters as `\u{..}`, the rest as it is.
pub open spec fn esc(c: char, sq: bool, dq: bool) -> Seq<char> {
    if c == '\0' {
        seq!['\\', '0']
    } else if c == '\t' {
        seq!['\\', 't']
    } else if c == '\r' {
        seq!['\\', 'r']
    } else if c == '\n' {
        seq!['\\', 'n']
    } else if c == '\\' {
        seq!['\\', '\\']
    } else if dq && c == '"' {
        seq!['\\', '"']
    } else if sq && c == '\'' {
        seq!['\\', '\'']
    } else if c < ' ' || c == '\u{7f}' {
        seq!['\\', 'u', '{'] + hex_text((c as u32) as nat) + seq!['}']
    } else {
        seq![c]
    }
}

/// The characters of `s`, each as `esc` gives it.
pub open spec fn esc_str(s: Seq<char>, sq: bool, dq: bool) -> Seq<char>
    decreases s.len(),
{
    if s.len() == 0 {
        seq![]
    } else {
        esc_str(s.drop_last(), sq, dq) + esc(s.last(), sq, dq)
    }
}

/// A string in double quotes, escaped.
pub open spec fn str_dbg(s: Seq<char>) -> Seq<char> {
    seq!['"'] + esc_str(s, false, true) + seq!['"']
}

/// A character in single quotes, escaped.
pub open spec fn char_dbg(c: char) -> Seq<char> {
    seq!['\''] + esc(c, true, false) + seq!['\'']
}

/// A name with a payload in parentheses.
pub open spec fn with_arg(name: Seq<char>, arg: Seq<char>) -> Seq<char> {
    name + seq!['('] + arg + seq![')']
}

/// The text of a token value: its kind's name, and its payload in parentheses (strings and
/// characters quoted and escaped).
pub open spec fn data_text(d: TokenDataV) -> Seq<char> {
    match d {
        TokenDataV::a(c) => with_arg("a"@, char_dbg(c)),
        TokenDataV::b(c) => with_arg("b"@, char_dbg(c)),
        TokenDataV::IDENT(s) => with_arg("IDENT"@, str_dbg(s)),
        TokenDataV::INT(n) => with_arg("INT"@, int_text(n)),
        TokenDataV::STR_LIT(s) => with_arg("STR_LIT"@, str_dbg(s)),
        TokenDataV::BOOL(b) => with_arg("BOOL"@, if b { "true"@ } else { "false"@ }),
        TokenDataV::OP1_b(s) => with_arg("OP1_b"@, str_dbg(s)),
        TokenDataV::OP2_b(s) => with_arg("OP2_b"@, str_dbg(s)),
        TokenDataV::OP3_n(s) => with_arg("OP3_n"@, str_dbg(s)),
        TokenDataV::OP4_n(s) => with_arg("OP4_n"@, str_dbg(s)),
        TokenDataV::OP_UNARY(s) => with_arg("OP_UNARY"@, str_dbg(s)),
        TokenDataV::TYPE(t) => with_arg("TYPE"@, type_label(t)),
        _ => tok_name(crate::token::kind_of(d)),
    }
}

/// Appends the hexadecimal notation of `n`.
fn push_hex_num(s: &mut String, n: u32)
    ensures
        final(s)@ == old(s)@ + hex_text(n as nat),
    decreases n,
{
    if n < 16 {
        s.push(crate::codegen::hex_char_of(n as u8));
        assert(old(s)@.push(hex_digit(n as int)) =~= old(s)@ + hex_text(n as nat));
    } else {
        push_hex_num(s, n / 16);
        s.push(crate::codegen::hex_char_of((n % 16) as u8));
        assert(old(s)@ + hex_text((n / 16) as nat) + seq![hex_digit((n % 16) as int)] =~= old(s)@ + hex_text(n as nat));
    }
}

/// Appends a character as `esc` gives it.
pub(crate) fn push_esc(s: &mut String, c: char, sq: bool, dq: bool)
    ensures
        final(s)@ == old(s)@ + esc(c, sq, dq),
{
    let ghost s0 = s@;
    if c == '\0' {
        s.push('\\');
        s.push('0');
    } else if c == '\t' {
        s.push('\\');
        s.push('t');
    } else if c == '\r' {
        s.push('\\');
        s.push('r');
    } else if c == '\n' {
        s.push('\\');
        s.push('n');
    } else if c == '\\' {
        s.push('\\');
        s.push('\\');
    } else if dq && c == '"' {
        s.push('\\');
        s.push('"');
    } else if sq && c == '\'' {
        s.push('\\');
        s.push('\'');
    } else if c < ' ' || c == '\u{7f}' {
        s.push('\\');
        s.push('u');
        s.push('{');
        push_hex_num(s, c as u32);
        s.push('}');
    } else {
        s.push(c);
    }
    assert(s@ =~= s0 + esc(c, sq, dq));
}

/// Appends the characters of `t`, each as `esc` gives it.
fn push_esc_str(s: &mut String, t: &str, sq: bool, dq: bool)
    ensures
        final(s)@ == old(s)@ + esc_str(t@, sq, dq),
{
    let n = t.unicode_len();
    let mut i: usize = 0;
    while i < n
        invariant
            i <= n,
            n == t@.len(),
            s@ == old(s)@ + esc_str(t@.subrange(0, i as int), sq, dq),
        decreases n - i,
    {
        let c = t.get_char(i);
        push_esc(s, c, sq, dq);
        proof {
            assert(t@.subrange(0, i + 1).drop_last() =~= t@.subrange(0, i as int));
        }
        assert(s@ =~= old(s)@ + esc_str(t@.subrange(0, i + 1), sq, dq));
        i += 1;
    }
    assert(t@.subrange(0, n as int) =~= t@);
}

/// Appends a name with a quoted string payload.
fn push_str_arg(s: &mut String, name: &str, v: &String)
    ensures
        final(s)@ == old(s)@ + with_arg(name@, str_dbg(v@)),
{
    let ghost s0 = s@;
    s.push_str(name);
    s.push('(');
    s.push('"');
    push_esc_str(s, v.as_str(), false, true);
    s.push('"');
    s.push(')');
    assert(s@ =~= s0 + with_arg(name@, str_dbg(v@)));
}

/// Appends a name with a quoted character payload.
fn push_char_arg(s: &mut String, name: &str, c: char)
    ensures
        final(s)@ == old(s)@ + with_arg(name@, char_dbg(c)),
{
    let ghost s0 = s@;
    s.push_str(name);
    s.push('(');
    s.push('\'');
    push_esc(s, c, true, false);
    s.push('\'');
    s.push(')');
    assert(s@ =~= s0 + with_arg(name@, char_dbg(c)));
}

/// Appends a name with a plain payload.
pub(crate) fn push_plain_arg(s: &mut String, name: &str, arg: &str)
    ensures
        final(s)@ == old(s)@ + with_arg(name@, arg@),
{
    let ghost s0 = s@;
    s.push_str(name);
    s.push('(');
    s.push_str(arg);
    s.push(')');
    assert(s@ =~= s0 + with_arg(name@, arg@));
}

/// Appends the text of a token value, as `data_text` says.
pub fn push_data(s: &mut String, d: &TokenData)
    ensures
        final(s)@ == old(s)@ + data_text(d@),
{
    match d {
        TokenData::a(c) => push_char_arg(s, "a", *c),
        TokenData::b(c) => push_char_arg(s, "b", *c),
        TokenData::IDENT(v) => push_str_arg(s, "IDENT", v),
        TokenData::INT(n) => {
            let ghost s0 = s@;
            s.push_str("INT");
            s.push('(');
            crate::text::push_i64(s, *n);
            s.push(')');
            assert(s@ =~= s0 + with_arg("INT"@, int_text(*n as int)));
        },
        TokenData::STR_LIT(v) => push_str_arg(s, "STR_LIT", v),
        TokenData::BOOL(b) => push_plain_arg(s, "BOOL", if *b { "true" } else { "false" }),
        TokenData::OP1_b(v) => push_str_arg(s, "OP1_b", v),
        TokenData::OP2_b(v) => push_str_arg(s, "OP2_b", v),
        TokenData::OP3_n(v) => push_str_arg(s, "OP3_n", v),
        TokenData::OP4_n(v) => push_str_arg(s, "OP4_n", v),
        TokenData::OP_UNARY(v) => push_str_arg(s, "OP_UNARY", v),
        TokenData::TYPE(t) => push_plain_arg(s, "TYPE", type_text(*t)),
        _ => s.push_str(token_name(d.kind())),
    }
}

impl TokenData {
    /// The text of this token value, as `data_text` says.
    pub fn to_string(&self) -> (r: String)
        ensures
            r@ == data_text(self@),
    {
        let mut s = String::new();
        push_data(&mut s, self);
        assert(s@ =~= data_text(self@));
        s
    }
}


/// What leads the line of an entry in a tree drawing: the prefix without its last character,
/// then `├── ` where that character is `│` (a sibling follows) and `└── ` otherwise.
pub open spec fn branch(prefix: Seq<char>) -> Seq<char> {
    if prefix.len() > 0 && prefix.last() == '│' {
        prefix.drop_last() + seq!['├', '─', '─', ' ']
    } else if prefix.len() > 0 {
        prefix.drop_last() + seq!['└', '─', '─', ' ']
    } else {
        seq!['└', '─', '─', ' ']
    }
}

/// The prefix of a child's lines: the parent's, then a rule `│` leading on to the next
/// sibling, or blanks after the last one.
pub open spec fn kid_prefix(prefix: Seq<char>, last: bool) -> Seq<char> {
    if last {
        prefix + seq![' ', ' ', ' ', ' ']
    } else {
        prefix + seq![' ', ' ', ' ', '│']
    }
}

/// The drawing of a syntax tree, one line per node or token, each led by `prefix` as
/// `branch` says: a node's line holds its kind, a token's its value.
pub open spec fn tree_text(n: NodeV, prefix: Seq<char>) -> Seq<char>
    decreases n,
{
    branch(prefix) + node_name(n.t) + seq!['\n'] + kids_text(n.children, prefix, n.children.len())
}

/// The drawings of the children `c`, the first of `total` children of a node whose lines
/// are led by `prefix`.
pub open spec fn kids_text(c: Seq<ElemV>, prefix: Seq<char>, total: nat) -> Seq<char>
    decreases c,
{
    if c.len() == 0 {
        seq![]
    } else {
        kids_text(c.drop_last(), prefix, total) + match c.last() {
            ElemV::Node(m) => tree_text(m, kid_prefix(prefix, c.len() == total)),
            ElemV::Token(t) => branch(kid_prefix(prefix, c.len() == total)) + data_text(t.data)
                + seq!['\n'],
        }
    }
}

/// Appends `t` without its last character.
fn push_but_last(s: &mut String, t: &str)
    requires
        t@.len() > 0,
    ensures
        final(s)@ == old(s)@ + t@.drop_last(),
{
    let n = t.unicode_len();
    let mut i: usize = 0;
    while i < n - 1
        invariant
            i <= n - 1,
            n == t@.len(),
            s@ == old(s)@ + t@.subrange(0, i as int),
        decreases n - 1 - i,
    {
        let c = t.get_char(i);
        s.push(c);
        assert(t@.subrange(0, i as int).push(c) =~= t@.subrange(0, i + 1));
        i += 1;
    }
    assert(t@.subrange(0, n - 1) =~= t@.drop_last());
}

/// Appends what leads an entry's line, as `branch` says.
fn push_branch(s: &mut String, prefix: &str)
    ensures
        final(s)@ == old(s)@ + branch(prefix@),
{
    let ghost s0 = s@;
    let n = prefix.unicode_len();
    let mut c = '└';
    if n > 0 {
        if prefix.get_char(n - 1) == '│' {
            c = '├';
        }
        push_but_last(s, prefix);
    }
    s.push(c);
    s.push('─');
    s.push('─');
    s.push(' ');
    assert(s@ =~= s0 + branch(prefix@));
}

/// A copy of `prefix` with the four characters of a child's prefix after it.
fn child_prefix(prefix: &str, last: bool) -> (r: String)
    ensures
        r@ == kid_prefix(prefix@, last),
{
    let mut np = String::new();
    np.push_str(prefix);
    np.push(' ');
    np.push(' ');
    np.push(' ');
    np.push(if last { ' ' } else { '│' });
    assert(np@ =~= kid_prefix(prefix@, last));
    np
}

impl Node {
    /// Appends the drawing of this tree with each line led by `prefix`, as `tree_text` says.
    #[verifier::loop_isolation(false)]
    pub fn push_tree(&self, s: &mut String, prefix: &str)
        ensures
            final(s)@ == old(s)@ + tree_text(node_v(*self), prefix@),
        decreases node_v(*self),
    {
        let ghost nv = node_v(*self);
        let ghost c0 = self.children@;
        proof {
            lemma_elems_v(c0);
        }
        let ghost s0 = s@;
        push_branch(s, prefix);
        s.push_str(node_kind_name(self.t));
        s.push('\n');
        let ghost s1 = s@;
        let n = self.children.len();
        let mut i: usize = 0;
        assert(nv.children.subrange(0, 0) =~= seq![]);
        while i < n
            invariant
                i <= n,
                n == c0.len(),
                nv.children.len() == n,
                s@ == s1 + kids_text(nv.children.subrange(0, i as int), prefix@, n as nat),
            decreases n - i,
        {
            let np = child_prefix(prefix, i == n - 1);
            let ghost cur = nv.children.subrange(0, i + 1);
            proof {
                assert(cur.drop_last() =~= nv.children.subrange(0, i as int));
                assert(cur.last() == elem_v(c0[i as int]));
            }
            match &self.children[i] {
                Elem::Node(m) => {
                    proof {
                        assert(nv.children[i as int] == ElemV::Node(node_v(*m)));
                        assert(decreases_to!(nv => nv.children));
                        assert(decreases_to!(nv.children => nv.children[i as int]));
                        assert(decreases_to!(nv.children[i as int] => nv.children[i as int]->Node_0));
                    }
                    m.push_tree(s, np.as_str());
                },
                Elem::Token(t) => {
                    push_branch(s, np.as_str());
                    push_data(s, &t.data);
                    s.push('\n');
                },
            }
            assert(s@ =~= s1 + kids_text(cur, prefix@, n as nat));
            i += 1;
        }
        assert(nv.children.subrange(0, n as int) =~= nv.children);
        assert(s@ =~= s0 + tree_text(nv, prefix@));
    }

    /// The drawing of this tree, one line per node and token, as `tree_text` says with a
    /// prefix of one blank.
    pub fn to_string(&self) -> (r: String)
        ensures
            r@ == tree_text(node_v(*self), seq![' ']),
    {
        let mut s = String::new();
        let p = " ";
        proof {
            reveal_strlit(" ");
        }
        assert(p@ =~= seq![' ']);
        self.push_tree(&mut s, p);
        assert(s@ =~= tree_text(node_v(*self), seq![' ']));
        s
    }
}


/// A parameter as `(name, Type)`, the name quoted.
pub open spec fn param_dbg(p: (Seq<char>, Type)) -> Seq<char> {
    seq!['('] + str_dbg(p.0) + ", "@ + type_label(p.1) + seq![')']
}

/// Parameters one after another, separated by `, `.
pub open spec fn params_list(v: Seq<(Seq<char>, Type)>) -> Seq<char>
    decreases v.len(),
{
    if v.len() == 0 {
        seq![]
    } else if v.len() == 1 {
        param_dbg(v[0])
    } else {
        params_list(v.drop_last()) + ", "@ + param_dbg(v.last())
    }
}

/// The fields of a node payload that its line shows.
pub open spec fn fields_text(d: NodeDataV) -> Seq<char> {
    match d {
        NodeDataV::Function { ident, r_type, .. } => "ident: "@ + str_dbg(ident) + ", "@
            + "r_type: "@ + type_label(r_type) + ", "@,
        NodeDataV::Declaration { ident, .. } => "ident: "@ + str_dbg(ident) + ", "@,
        NodeDataV::Expr { op, .. } => "op: "@ + str_dbg(op) + ", "@,
        NodeDataV::UExpr { op, .. } => "op: "@ + str_dbg(op) + ", "@,
        NodeDataV::Invoke { ident, .. } => "ident: "@ + str_dbg(ident) + ", "@,
        NodeDataV::Params { v } => seq!['['] + params_list(v) + seq![']'] + ", "@,
        NodeDataV::If { .. } => "_"@,
        _ => "no impl"@,
    }
}

/// What the line of an abstract-syntax-tree node shows: its kind, its fields in braces and
/// its type.
pub open spec fn lhead(n: LNodeV) -> Seq<char> {
    node_name(data_kind(n.data)) + " { "@ + fields_text(n.data) + " }"@ + " => "@ + type_label(n.t)
}

/// The drawing of an abstract syntax tree, as `tree_text` draws a syntax tree: each node's
/// line as `lhead` says, each token's its value; the children of a node are those its
/// payload holds, in order.
pub open spec fn ltree_text(n: LNodeV, prefix: Seq<char>) -> Seq<char>
    decreases n,
{
    branch(prefix) + lhead(n) + seq!['\n'] + match n.data {
        NodeDataV::Function { params, block, .. } => match params {
            Some(p) => lelem_text(*p, kid_prefix(prefix, false)) + lelem_text(*block, kid_prefix(prefix, true)),
            None => lelem_text(*block, kid_prefix(prefix, true)),
        },
        NodeDataV::Block { v } => lkids_text(v, prefix, v.len()),
        NodeDataV::Declaration { expr, .. } => lelem_text(*expr, kid_prefix(prefix, true)),
        NodeDataV::If { expr, block } => lelem_text(*expr, kid_prefix(prefix, false))
            + lelem_text(*block, kid_prefix(prefix, true)),
        NodeDataV::Expr { t1, t2, .. } => lelem_text(*t1, kid_prefix(prefix, false))
            + lelem_text(*t2, kid_prefix(prefix, true)),
        NodeDataV::UExpr { t, .. } => lelem_text(*t, kid_prefix(prefix, true)),
        NodeDataV::Return { expr } => lelem_text(*expr, kid_prefix(prefix, true)),
        NodeDataV::Invoke { args, .. } => lkids_text(args, prefix, args.len()),
        NodeDataV::Params { .. } => seq![],
    }
}

/// The drawing of one child with its lines led by `prefix`.
pub open spec fn lelem_text(e: LElemV, prefix: Seq<char>) -> Seq<char>
    decreases e,
{
    match e {
        LElemV::Node(m) => ltree_text(m, prefix),
        LElemV::Token(t) => branch(prefix) + data_text(t.data) + seq!['\n'],
    }
}

/// The drawings of the children `c`, the first of `total` children of a node whose lines
/// are led by `prefix`.
pub open spec fn lkids_text(c: Seq<LElemV>, prefix: Seq<char>, total: nat) -> Seq<char>
    decreases c,
{
    if c.len() == 0 {
        seq![]
    } else {
        lkids_text(c.drop_last(), prefix, total) + lelem_text(c.last(), kid_prefix(prefix, c.len() == total))
    }
}

/// Appends a parameter as `param_dbg` says.
fn push_param(s: &mut String, p: &(String, Type))
    ensures
        final(s)@ == old(s)@ + param_dbg((p.0@, p.1)),
{
    let ghost s0 = s@;
    s.push('(');
    s.push('"');
    push_esc_str(s, p.0.as_str(), false, true);
    s.push('"');
    s.push_str(", ");
    s.push_str(type_text(p.1));
    s.push(')');
    assert(s@ =~= s0 + param_dbg((p.0@, p.1)));
}

/// Appends parameters as `params_list` says.
fn push_params(s: &mut String, v: &Vec<(String, Type)>)
    ensures
        final(s)@ == old(s)@ + params_list(params_v(v@)),
{
    let ghost s0 = s@;
    let ghost pv = params_v(v@);
    let mut i: usize = 0;
    assert(pv.subrange(0, 0) =~= seq![]);
    while i < v.len()
        invariant
            i <= v@.len(),
            pv == params_v(v@),
            s@ == s0 + params_list(pv.subrange(0, i as int)),
        decreases v@.len() - i,
    {
        if i > 0 {
            s.push_str(", ");
        }
        push_param(s, &v[i]);
        proof {
            let cur = pv.subrange(0, i + 1);
            assert(cur.drop_last() =~= pv.subrange(0, i as int));
            assert(cur.last() == (v@[i as int].0@, v@[i as int].1));
            if i == 0 {
                assert(cur.len() == 1);
            }
        }
        assert(s@ =~= s0 + params_list(pv.subrange(0, i + 1)));
        i += 1;
    }
    assert(pv.subrange(0, v@.len() as int) =~= pv);
}

/// Appends `ident: ` and a quoted name and `, `.
fn push_ident(s: &mut String, name: &str, v: &String)
    ensures
        final(s)@ == old(s)@ + name@ + str_dbg(v@) + ", "@,
{
    let ghost s0 = s@;
    s.push_str(name);
    s.push('"');
    push_esc_str(s, v.as_str(), false, true);
    s.push('"');
    s.push_str(", ");
    assert(s@ =~= s0 + name@ + str_dbg(v@) + ", "@);
}

/// Appends the fields of a node payload, as `fields_text` says.
fn push_fields(s: &mut String, d: &NodeData)
    ensures
        final(s)@ == old(s)@ + fields_text(data_v(*d)),
{
    let ghost s0 = s@;
    match d {
        NodeData::Function { ident, r_type, .. } => {
            push_ident(s, "ident: ", ident);
            s.push_str("r_type: ");
            s.push_str(type_text(*r_type));
            s.push_str(", ");
        },
        NodeData::Declaration { ident, .. } => push_ident(s, "ident: ", ident),
        NodeData::Expr { op, .. } => push_ident(s, "op: ", op),
        NodeData::UExpr { op, .. } => push_ident(s, "op: ", op),
        NodeData::Invoke { ident, .. } => push_ident(s, "ident: ", ident),
        NodeData::Params { v } => {
            s.push('[');
            push_params(s, v);
            s.push(']');
            s.push_str(", ");
        },
        NodeData::If { .. } => s.push_str("_"),
        _ => s.push_str("no impl"),
    }
    assert(s@ =~= s0 + fields_text(data_v(*d)));
}

impl LNode {
    /// Appends the line of this node without its lead, as `lhead` says.
    fn push_head(&self, s: &mut String)
        ensures
            final(s)@ == old(s)@ + lhead(lnode_v(*self)),
    {
        let ghost s0 = s@;
        s.push_str(node_kind_name(self.data.kind()));
        s.push_str(" { ");
        push_fields(s, &self.data);
        s.push_str(" }");
        s.push_str(" => ");
        s.push_str(type_text(self.t));
        assert(s@ =~= s0 + lhead(lnode_v(*self)));
    }

    /// Appends the drawing of this tree with each line led by `prefix`, as `ltree_text` says.
    #[verifier::spinoff_prover]
    #[verifier::rlimit(40)]
    pub fn push_tree(&self, s: &mut String, prefix: &str)
        ensures
            final(s)@ == old(s)@ + ltree_text(lnode_v(*self), prefix@),
        decreases lnode_v(*self), 1int,
    {
        let ghost nv = lnode_v(*self);
        let ghost s0 = s@;
        push_branch(s, prefix);
        self.push_head(s);
        s.push('\n');
        proof {
            assert(decreases_to!(nv => nv.data));
        }
        match &self.data {
            NodeData::Function { params, block, .. } => {
                match params {
                    Some(p) => {
                        proof {
                            assert(decreases_to!(nv.data => nv.data->Function_params));
                            assert(decreases_to!(nv.data->Function_params => nv.data->Function_params->Some_0));
                        }
                        p.push_tree(s, child_prefix(prefix, false).as_str());
                    },
                    None => {},
                }
                proof {
                    assert(decreases_to!(nv.data => nv.data->Function_block));
                }
                block.push_tree(s, child_prefix(prefix, true).as_str());
            },
            NodeData::Block { v } => {
                proof {
                    assert(decreases_to!(nv.data => nv.data->Block_v));
                    lemma_lelems_v(v@);
                }
                push_lkids(s, v, prefix);
            },
            NodeData::Declaration { expr, .. } => {
                proof {
                    assert(decreases_to!(nv.data => nv.data->Declaration_expr));
                }
                expr.push_tree(s, child_prefix(prefix, true).as_str());
            },
            NodeData::If { expr, block } => {
                proof {
                    assert(decreases_to!(nv.data => nv.data->If_expr));
                    assert(decreases_to!(nv.data => nv.data->If_block));
                }
                expr.push_tree(s, child_prefix(prefix, false).as_str());
                block.push_tree(s, child_prefix(prefix, true).as_str());
            },
            NodeData::Expr { t1, t2, .. } => {
                proof {
                    assert(decreases_to!(nv.data => nv.data->Expr_t1));
                    assert(decreases_to!(nv.data => nv.data->Expr_t2));
                }
                t1.push_tree(s, child_prefix(prefix, false).as_str());
                t2.push_tree(s, child_prefix(prefix, true).as_str());
            },
            NodeData::UExpr { t, .. } => {
                proof {
                    assert(decreases_to!(nv.data => nv.data->UExpr_t));
                }
                t.push_tree(s, child_prefix(prefix, true).as_str());
            },
            NodeData::Return { expr } => {
                proof {
                    assert(decreases_to!(nv.data => nv.data->Return_expr));
                }
                expr.push_tree(s, child_prefix(prefix, true).as_str());
            },
            NodeData::Invoke { args, .. } => {
                proof {
                    assert(decreases_to!(nv.data => nv.data->Invoke_args));
                    lemma_lelems_v(args@);
                }
                push_lkids(s, args, prefix);
            },
            NodeData::Params { .. } => {},
        }
        assert(s@ =~= s0 + ltree_text(nv, prefix@));
    }

    /// The drawing of this tree, as `ltree_text` says with a prefix of one blank.
    pub fn to_string(&self) -> (r: String)
        ensures
            r@ == ltree_text(lnode_v(*self), seq![' ']),
    {
        let mut s = String::new();
        let p = " ";
        proof {
            reveal_strlit(" ");
        }
        assert(p@ =~= seq![' ']);
        self.push_tree(&mut s, p);
        assert(s@ =~= ltree_text(lnode_v(*self), seq![' ']));
        s
    }
}

impl LElem {
    /// Appends the drawing of this child with its lines led by `prefix`, as `lelem_text` says.
    pub fn push_tree(&self, s: &mut String, prefix: &str)
        ensures
            final(s)@ == old(s)@ + lelem_text(lelem_v(*self), prefix@),
        decreases lelem_v(*self), 2int,
    {
        let ghost ev = lelem_v(*self);
        match self {
            LElem::Node(n) => {
                proof {
                    assert(decreases_to!(ev => ev->Node_0));
                }
                n.push_tree(s, prefix);
            },
            LElem::Token(t) => {
                let ghost s0 = s@;
                push_branch(s, prefix);
                push_data(s, &t.data);
                s.push('\n');
                assert(s@ =~= s0 + lelem_text(ev, prefix@));
            },
        }
    }
}

/// Appends the drawings of children in turn, as `lkids_text` says.
#[verifier::loop_isolation(false)]
fn push_lkids(s: &mut String, v: &Vec<Box<LElem>>, prefix: &str)
    ensures
        final(s)@ == old(s)@ + lkids_text(lelems_v(v@), prefix@, v@.len()),
    decreases lelems_v(v@), 0int,
{
    let ghost lv = lelems_v(v@);
    let ghost s0 = s@;
    proof {
        lemma_lelems_v(v@);
    }
    let n = v.len();
    let mut i: usize = 0;
    assert(lv.subrange(0, 0) =~= seq![]);
    while i < n
        invariant
            i <= n,
            n == v@.len(),
            lv == lelems_v(v@),
            lv.len() == n,
            s@ == s0 + lkids_text(lv.subrange(0, i as int), prefix@, n as nat),
        decreases n - i,
    {
        proof {
            assert(decreases_to!(lv => lv[i as int]));
            let cur = lv.subrange(0, i + 1);
            assert(cur.drop_last() =~= lv.subrange(0, i as int));
            assert(cur.last() == lelem_v(*v@[i as int]));
        }
        let np = child_prefix(prefix, i == n - 1);
        v[i].push_tree(s, np.as_str());
        assert(s@ =~= s0 + lkids_text(lv.subrange(0, i + 1), prefix@, n as nat));
        i += 1;
    }
    assert(lv.subrange(0, n as int) =~= lv);
}


/// `n` blanks.
pub open spec fn blanks(n: nat) -> Seq<char> {
    Seq::new(n, |i: int| ' ')
}

/// `t` cut to `w` characters, or filled out to `w` with blanks after it.
pub open spec fn fit(t: Seq<char>, w: nat) -> Seq<char> {
    if t.len() >= w {
        t.subrange(0, w as int)
    } else {
        t + blanks((w - t.len()) as nat)
    }
}

/// `t` with blanks before it to make `w` characters; `t` as it is where it is as long.
pub open spec fn pad_left(t: Seq<char>, w: nat) -> Seq<char> {
    if t.len() >= w {
        t
    } else {
        blanks((w - t.len()) as nat) + t
    }
}

/// The name of a grammar symbol.
pub open spec fn sym_name(e: ElemT) -> Seq<char> {
    match e {
        ElemT::Token(t) => tok_name(t),
        ElemT::Node(n) => node_name(n),
    }
}

/// The column heads of the first `k` symbols: each name cut or filled to eight characters,
/// then `|`.
pub open spec fn heads(k: nat) -> Seq<char>
    decreases k,
{
    if k == 0 {
        seq![]
    } else {
        heads((k - 1) as nat) + fit(sym_name(sym_at(k - 1)), 8) + seq!['|']
    }
}

/// A table cell: `S` and the state shifted to, `R` and the production reduced by, or
/// blanks; eight characters where the number has at most six digits, then `|`.
pub open spec fn cell(a: Option<Action>) -> Seq<char> {
    match a {
        Some(Action::Shift(r)) => seq!['S', ' '] + pad_left(dec(r as nat), 6) + seq!['|'],
        Some(Action::Reduce(p)) => seq!['R', ' '] + pad_left(dec(p as nat), 6) + seq!['|'],
        None => blanks(8) + seq!['|'],
    }
}

/// The cells of a row for the first `k` symbols; a symbol past the end of the row has none.
pub open spec fn cells(edges: Seq<Option<Action>>, k: nat) -> Seq<char>
    decreases k,
{
    if k == 0 {
        seq![]
    } else {
        cells(edges, (k - 1) as nat) + cell(if k - 1 < edges.len() { edges[k - 1] } else { None })
    }
}

/// The line of row `i`: its number right-aligned in three columns, `|`, and its cells.
pub open spec fn row_text(i: nat, edges: Seq<Option<Action>>) -> Seq<char> {
    pad_left(dec(i), 3) + seq!['|'] + cells(edges, NUM_SYMBOLS as nat) + seq!['\n']
}

/// The lines of the first `k` rows.
pub open spec fn rows_text(t: Seq<State>, k: nat) -> Seq<char>
    decreases k,
{
    if k == 0 {
        seq![]
    } else {
        rows_text(t, (k - 1) as nat) + row_text((k - 1) as nat, t[k - 1].edges@)
    }
}

/// The parse table as text: a line of column heads, one per token kind and then one per node
/// kind, and a line per state.
pub open spec fn table_text(t: Seq<State>) -> Seq<char> {
    seq![' ', ' ', ' ', '|'] + heads(NUM_SYMBOLS as nat) + seq!['\n'] + rows_text(t, t.len())
}

/// Appends `n` blanks.
pub(crate) fn push_blanks(s: &mut String, n: usize)
    ensures
        final(s)@ == old(s)@ + blanks(n as nat),
{
    let mut i: usize = 0;
    while i < n
        invariant
            i <= n,
            s@ == old(s)@ + blanks(i as nat),
        decreases n - i,
    {
        s.push(' ');
        assert(blanks(i as nat).push(' ') =~= blanks((i + 1) as nat));
        i += 1;
    }
}

/// Appends `t` cut or filled to `w` characters, as `fit` says.
pub(crate) fn push_fit(s: &mut String, t: &str, w: usize)
    ensures
        final(s)@ == old(s)@ + fit(t@, w as nat),
{
    let ghost s0 = s@;
    let n = t.unicode_len();
    let m = if n < w { n } else { w };
    let mut i: usize = 0;
    while i < m
        invariant
            i <= m,
            m <= n,
            n == t@.len(),
            s@ == s0 + t@.subrange(0, i as int),
        decreases m - i,
    {
        s.push(t.get_char(i));
        assert(t@.subrange(0, i as int).push(t@[i as int]) =~= t@.subrange(0, i + 1));
        i += 1;
    }
    if n < w {
        push_blanks(s, w - n);
        assert(t@.subrange(0, n as int) =~= t@);
    }
    assert(s@ =~= s0 + fit(t@, w as nat));
}

/// Appends `t` with blanks before it to make `w` characters, as `pad_left` says.
fn push_pad_left(s: &mut String, t: &str, w: usize)
    ensures
        final(s)@ == old(s)@ + pad_left(t@, w as nat),
{
    let ghost s0 = s@;
    let n = t.unicode_len();
    if n < w {
        push_blanks(s, w - n);
    }
    s.push_str(t);
    assert(s@ =~= s0 + pad_left(t@, w as nat));
}

/// The name of a grammar symbol.
pub(crate) fn symbol_name(e: ElemT) -> (r: &'static str)
    ensures
        r@ == sym_name(e),
{
    match e {
        ElemT::Token(t) => token_name(t),
        ElemT::Node(n) => node_kind_name(n),
    }
}

/// Appends a table cell, as `cell` says.
fn push_cell(s: &mut String, a: Option<Action>)
    ensures
        final(s)@ == old(s)@ + cell(a),
{
    let ghost s0 = s@;
    match a {
        Some(Action::Shift(r)) => {
            s.push('S');
            s.push(' ');
            push_pad_left(s, usize_text(r).as_str(), 6);
            s.push('|');
        },
        Some(Action::Reduce(p)) => {
            s.push('R');
            s.push(' ');
            push_pad_left(s, usize_text(p).as_str(), 6);
            s.push('|');
        },
        None => {
            push_blanks(s, 8);
            s.push('|');
        },
    }
    assert(s@ =~= s0 + cell(a));
}

/// Appends the line of row `i`, as `row_text` says.
fn push_row(s: &mut String, i: usize, row: &State)
    ensures
        final(s)@ == old(s)@ + row_text(i as nat, row.edges@),
{
    let ghost s0 = s@;
    push_pad_left(s, usize_text(i).as_str(), 3);
    s.push('|');
    let ghost s1 = s@;
    let mut k: usize = 0;
    while k < NUM_SYMBOLS
        invariant
            k <= NUM_SYMBOLS,
            s@ == s1 + cells(row.edges@, k as nat),
        decreases NUM_SYMBOLS - k,
    {
        let a = if k < row.edges.len() { row.edges[k] } else { None };
        push_cell(s, a);
        k += 1;
    }
    s.push('\n');
    assert(s@ =~= s0 + row_text(i as nat, row.edges@));
}

/// The parse table as text, as `table_text` says.
pub fn print_table(table: &ParseTable) -> (r: String)
    ensures
        r@ == table_text(table@),
{
    let mut s = String::new();
    s.push(' ');
    s.push(' ');
    s.push(' ');
    s.push('|');
    let mut k: usize = 0;
    while k < NUM_SYMBOLS
        invariant
            k <= NUM_SYMBOLS,
            s@ == seq![' ', ' ', ' ', '|'] + heads(k as nat),
        decreases NUM_SYMBOLS - k,
    {
        push_fit(&mut s, symbol_name(symbol_of_index(k)), 8);
        s.push('|');
        k += 1;
    }
    s.push('\n');
    let ghost s1 = s@;
    let mut i: usize = 0;
    while i < table.len()
        invariant
            i <= table@.len(),
            s@ == s1 + rows_text(table@, i as nat),
        decreases table@.len() - i,
    {
        push_row(&mut s, i, &table[i]);
        i += 1;
    }
    assert(s@ =~= table_text(table@));
    s
}


/// `t` with blanks after it to make at least `w` characters.
pub open spec fn pad_right(t: Seq<char>, w: nat) -> Seq<char> {
    if t.len() >= w {
        t
    } else {
        t + blanks((w - t.len()) as nat)
    }
}

/// The text of a child: a node's kind, or a token's value.
pub open spec fn elem_text(e: ElemV) -> Seq<char> {
    match e {
        ElemV::Node(n) => node_name(n.t),
        ElemV::Token(t) => data_text(t.data),
    }
}

impl ElemT {
    /// The name of this symbol, as `sym_name` says.
    pub fn to_string(&self) -> (r: String)
        ensures
            r@ == sym_name(*self),
    {
        let mut s = String::new();
        s.push_str(symbol_name(*self));
        s
    }
}

impl Elem {
    /// The text of this child, as `elem_text` says.
    pub fn to_string(&self) -> (r: String)
        ensures
            r@ == elem_text(elem_v(*self)),
    {
        match self {
            Elem::Node(n) => {
                let mut s = String::new();
                s.push_str(node_kind_name(n.t));
                s
            },
            Elem::Token(t) => t.data.to_string(),
        }
    }
}

/// Symbol names one after another, each followed by a blank.
pub open spec fn syms_text(v: Seq<ElemT>) -> Seq<char>
    decreases v.len(),
{
    if v.len() == 0 {
        seq![]
    } else {
        syms_text(v.drop_last()) + sym_name(v.last()) + seq![' ']
    }
}

/// A production as `node -> ` and its symbols, each followed by a blank.
pub open spec fn production_text(p: (NodeT, Seq<ElemT>)) -> Seq<char> {
    node_name(p.0) + " -> "@ + syms_text(p.1)
}

/// Productions, one per line.
pub open spec fn productions_text(ps: Seq<(NodeT, Seq<ElemT>)>) -> Seq<char>
    decreases ps.len(),
{
    if ps.len() == 0 {
        seq![]
    } else {
        productions_text(ps.drop_last()) + production_text(ps.last()) + seq!['\n']
    }
}

impl Production {
    /// Appends this production, as `production_text` says.
    fn push_text(&self, s: &mut String)
        ensures
            final(s)@ == old(s)@ + production_text(prod_view(*self)),
    {
        let ghost s0 = s@;
        s.push_str(node_kind_name(self.node));
        s.push_str(" -> ");
        let ghost s1 = s@;
        let mut i: usize = 0;
        while i < self.v.len()
            invariant
                i <= self.v@.len(),
                s@ == s1 + syms_text(self.v@.subrange(0, i as int)),
            decreases self.v@.len() - i,
        {
            s.push_str(symbol_name(self.v[i]));
            s.push(' ');
            assert(self.v@.subrange(0, i + 1).drop_last() =~= self.v@.subrange(0, i as int));
            i += 1;
        }
        assert(self.v@.subrange(0, self.v@.len() as int) =~= self.v@);
        assert(s@ =~= s0 + production_text(prod_view(*self)));
    }

    /// This production, as `production_text` says.
    pub fn to_string(&self) -> (r: String)
        ensures
            r@ == production_text(prod_view(*self)),
    {
        let mut s = String::new();
        self.push_text(&mut s);
        s
    }
}

impl Productions {
    /// The productions, one per line, as `productions_text` says.
    pub fn to_string(&self) -> (r: String)
        ensures
            r@ == productions_text(self.v@.map_values(|p: Production| prod_view(p))),
    {
        let ghost pv = self.v@.map_values(|p: Production| prod_view(p));
        let mut s = String::new();
        let mut i: usize = 0;
        while i < self.v.len()
            invariant
                i <= self.v@.len(),
                pv == self.v@.map_values(|p: Production| prod_view(p)),
                s@ == productions_text(pv.subrange(0, i as int)),
            decreases self.v@.len() - i,
        {
            self.v[i].push_text(&mut s);
            s.push('\n');
            assert(pv.subrange(0, i + 1).drop_last() =~= pv.subrange(0, i as int));
            i += 1;
        }
        assert(pv.subrange(0, self.v@.len() as int) =~= pv);
        s
    }
}

/// The width of each entry of a stack dump.
pub const STACK_W: usize = 10;

/// The states of stack entries, each filled out to `STACK_W` columns and followed by a blank.
pub open spec fn stack_states(l: Seq<(ElemV, int)>) -> Seq<char>
    decreases l.len(),
{
    if l.len() == 0 {
        seq![]
    } else {
        stack_states(l.drop_last()) + pad_right(dec(l.last().1 as nat), STACK_W as nat) + seq![' ']
    }
}

/// The texts of stack entries, each cut or filled to `STACK_W` columns and followed by a blank.
pub open spec fn stack_elems(l: Seq<(ElemV, int)>) -> Seq<char>
    decreases l.len(),
{
    if l.len() == 0 {
        seq![]
    } else {
        stack_elems(l.drop_last()) + fit(elem_text(l.last().0), STACK_W as nat) + seq![' ']
    }
}

/// The texts of the input still to be read, next first, each cut or filled to `STACK_W`
/// columns and followed by a blank.
pub open spec fn input_elems(r: Seq<ElemV>) -> Seq<char>
    decreases r.len(),
{
    if r.len() == 0 {
        seq![]
    } else {
        fit(elem_text(r.last()), STACK_W as nat) + seq![' '] + input_elems(r.drop_last())
    }
}

/// A dump of the parser's stack and input: a line with the stack's states, then a line with
/// the stack's elements, ` | ` and the input's elements.
pub open spec fn stacks_text(l: Seq<(ElemV, int)>, r: Seq<ElemV>) -> Seq<char> {
    stack_states(l) + seq!['\n'] + stack_elems(l) + " | "@ + input_elems(r) + seq!['\n']
}

/// A dump of the parser's stack `l` and input `r`, as `stacks_text` says.
pub fn print_stacks(l: &Vec<(Elem, usize)>, r: &Vec<Elem>) -> (out: String)
    ensures
        out@ == stacks_text(l@.map_values(|e: (Elem, usize)| (elem_v(e.0), e.1 as int)), r@.map_values(|e: Elem| elem_v(e))),
{
    let ghost lv = l@.map_values(|e: (Elem, usize)| (elem_v(e.0), e.1 as int));
    let ghost rv = r@.map_values(|e: Elem| elem_v(e));
    let mut f = String::new();
    let mut i: usize = 0;
    while i < l.len()
        invariant
            i <= l@.len(),
            lv == l@.map_values(|e: (Elem, usize)| (elem_v(e.0), e.1 as int)),
            f@ == stack_states(lv.subrange(0, i as int)),
        decreases l@.len() - i,
    {
        let t = usize_text(l[i].1);
        push_pad_right(&mut f, t.as_str(), STACK_W);
        f.push(' ');
        assert(lv.subrange(0, i + 1).drop_last() =~= lv.subrange(0, i as int));
        i += 1;
    }
    assert(lv.subrange(0, l@.len() as int) =~= lv);
    f.push('\n');
    let ghost f1 = f@;
    let mut i: usize = 0;
    while i < l.len()
        invariant
            i <= l@.len(),
            lv == l@.map_values(|e: (Elem, usize)| (elem_v(e.0), e.1 as int)),
            f@ == f1 + stack_elems(lv.subrange(0, i as int)),
        decreases l@.len() - i,
    {
        let t = l[i].0.to_string();
        push_fit(&mut f, t.as_str(), STACK_W);
        f.push(' ');
        assert(lv.subrange(0, i + 1).drop_last() =~= lv.subrange(0, i as int));
        i += 1;
    }
    assert(lv.subrange(0, l@.len() as int) =~= lv);
    f.push_str(" | ");
    let ghost f2 = f@;
    let mut k: usize = r.len();
    assert(rv.subrange(0, k as int) =~= rv);
    while k > 0
        invariant
            k <= r@.len(),
            rv == r@.map_values(|e: Elem| elem_v(e)),
            f@ + input_elems(rv.subrange(0, k as int)) == f2 + input_elems(rv),
        decreases k,
    {
        let t = r[k - 1].to_string();
        let ghost before = f@;
        push_fit(&mut f, t.as_str(), STACK_W);
        f.push(' ');
        assert(rv.subrange(0, k as int).drop_last() =~= rv.subrange(0, k - 1));
        assert(f@ + input_elems(rv.subrange(0, k - 1)) =~= before + input_elems(rv.subrange(0, k as int)));
        k -= 1;
    }
    assert(rv.subrange(0, 0) =~= Seq::<ElemV>::empty());
    f.push('\n');
    assert(f@ =~= stacks_text(lv, rv));
    f
}

/// Appends `t` with blanks after it to make `w` characters, as `pad_right` says.
fn push_pad_right(s: &mut String, t: &str, w: usize)
    ensures
        final(s)@ == old(s)@ + pad_right(t@, w as nat),
{
    let ghost s0 = s@;
    let n = t.unicode_len();
    s.push_str(t);
    if n < w {
        push_blanks(s, w - n);
    }
    assert(s@ =~= s0 + pad_right(t@, w as nat));
}


/// The first `k` symbols of `v`, with a dot before the one at `pos`.
pub open spec fn dotted(v: Seq<ElemT>, pos: int, k: int) -> Seq<char>
    decreases k,
{
    if k <= 0 {
        seq![]
    } else {
        dotted(v, pos, k - 1) + (if pos == k - 1 { seq!['.'] } else { seq![] }) + sym_name(v[k - 1])
    }
}

/// An item as its production with a dot at its position: `node -> ` and the symbols, and a
/// closing dot and line break where the dot is at the end.
pub open spec fn item_text(p: (NodeT, Seq<ElemT>), pos: int) -> Seq<char> {
    node_name(p.0) + " -> "@ + dotted(p.1, pos, p.1.len() as int)
        + if pos == p.1.len() { seq!['.', '\n'] } else { seq![] }
}

impl Item {
    /// This item, as `item_text` says.
    pub fn to_text(&self, prods: &Productions) -> (r: String)
        requires
            self.prod < prods.table_rules@.len(),
        ensures
            r@ == item_text(prod_view(prods.table_rules@[self.prod as int]), self.pos as int),
    {
        let p = &prods.table_rules[self.prod];
        let mut s = String::new();
        s.push_str(node_kind_name(p.node));
        s.push_str(" -> ");
        let ghost s1 = s@;
        let mut i: usize = 0;
        while i < p.v.len()
            invariant
                i <= p.v@.len(),
                s@ == s1 + dotted(p.v@, self.pos as int, i as int),
            decreases p.v@.len() - i,
        {
            if self.pos == i {
                s.push('.');
            }
            s.push_str(symbol_name(p.v[i]));
            i += 1;
        }
        if self.pos == p.v.len() {
            s.push('.');
            s.push('\n');
        }
        assert(s@ =~= item_text(prod_view(*p), self.pos as int));
        s
    }
}


/// `s` holds no line break.
pub open spec fn no_nl(s: Seq<char>) -> bool {
    forall|i: int| 0 <= i < s.len() ==> s[i] != '\n'
}

/// The number of line breaks in `s`.
pub open spec fn count_nl(s: Seq<char>) -> nat
    decreases s.len(),
{
    if s.len() == 0 {
        0
    } else {
        count_nl(s.drop_last()) + if s.last() == '\n' { 1nat } else { 0nat }
    }
}

/// The number of nodes and tokens of a syntax tree.
pub open spec fn tree_size(n: NodeV) -> nat
    decreases n,
{
    1 + kids_size(n.children)
}

/// The number of nodes and tokens under the children `c`, them included.
pub open spec fn kids_size(c: Seq<ElemV>) -> nat
    decreases c,
{
    if c.len() == 0 {
        0
    } else {
        kids_size(c.drop_last()) + match c.last() {
            ElemV::Node(m) => tree_size(m),
            ElemV::Token(_) => 1nat,
        }
    }
}

/// Line breaks add up over two texts put together.
proof fn lemma_count_add(a: Seq<char>, b: Seq<char>)
    ensures
        count_nl(a + b) == count_nl(a) + count_nl(b),
    decreases b.len(),
{
    if b.len() == 0 {
        assert(a + b =~= a);
    } else {
        lemma_count_add(a, b.drop_last());
        assert((a + b).drop_last() =~= a + b.drop_last());
    }
}

/// One line break counts one.
proof fn lemma_count_one()
    ensures
        count_nl(seq!['\n']) == 1,
{
    assert(seq!['\n'].drop_last() =~= Seq::<char>::empty());
    assert(count_nl(seq!['\n'].drop_last()) == 0);
}

/// A text without line breaks counts none.
proof fn lemma_no_nl_count(s: Seq<char>)
    requires
        no_nl(s),
    ensures
        count_nl(s) == 0,
    decreases s.len(),
{
    if s.len() > 0 {
        lemma_no_nl_count(s.drop_last());
    }
}

/// Texts without line breaks put together hold none.
proof fn lemma_no_nl_add(a: Seq<char>, b: Seq<char>)
    requires
        no_nl(a),
        no_nl(b),
    ensures
        no_nl(a + b),
{
    assert forall|i: int| 0 <= i < (a + b).len() implies (a + b)[i] != '\n' by {
        if i >= a.len() {
            assert((a + b)[i] == b[i - a.len()]);
        }
    }
}

/// What leads a line, and a child's prefix, hold no line break where the prefix holds none.
proof fn lemma_prefix_no_nl(prefix: Seq<char>, last: bool)
    requires
        no_nl(prefix),
    ensures
        no_nl(branch(prefix)),
        no_nl(kid_prefix(prefix, last)),
{
    if prefix.len() > 0 {
        assert(no_nl(prefix.drop_last()));
        lemma_no_nl_add(prefix.drop_last(), seq!['├', '─', '─', ' ']);
        lemma_no_nl_add(prefix.drop_last(), seq!['└', '─', '─', ' ']);
    }
    lemma_no_nl_add(prefix, seq![' ', ' ', ' ', ' ']);
    lemma_no_nl_add(prefix, seq![' ', ' ', ' ', '│']);
}

/// A name with a payload holds no line break where neither does.
proof fn lemma_with_arg_no_nl(name: Seq<char>, arg: Seq<char>)
    requires
        no_nl(name),
        no_nl(arg),
    ensures
        no_nl(with_arg(name, arg)),
{
    lemma_no_nl_add(name, seq!['(']);
    lemma_no_nl_add(name + seq!['('], arg);
    lemma_no_nl_add(name + seq!['('] + arg, seq![')']);
}

/// Quoted text and characters hold no line break.
proof fn lemma_quoted_no_nl(x: Seq<char>, c: char)
    ensures
        no_nl(str_dbg(x)),
        no_nl(char_dbg(c)),
{
    lemma_esc_str_no_nl(x, false, true);
    lemma_no_nl_add(seq!['"'], esc_str(x, false, true));
    lemma_no_nl_add(seq!['"'] + esc_str(x, false, true), seq!['"']);
    lemma_esc_no_nl(c, true, false);
    lemma_no_nl_add(seq!['\''], esc(c, true, false));
    lemma_no_nl_add(seq!['\''] + esc(c, true, false), seq!['\'']);
}

/// Names of symbols and types hold no line break.
proof fn lemma_names_no_nl()
    ensures
        forall|t: TokenT| #[trigger] no_nl(tok_name(t)),
        forall|n: NodeT| #[trigger] no_nl(node_name(n)),
        forall|t: Type| #[trigger] no_nl(type_label(t)),
{
    reveal_strlit("EOF");
    reveal_strlit("a");
    reveal_strlit("b");
    reveal_strlit("x");
    reveal_strlit("K_LET");
    reveal_strlit("K_FUNC");
    reveal_strlit("K_RETURN");
    reveal_strlit("K_IF");
    reveal_strlit("IDENT");
    reveal_strlit("EQ_1");
    reveal_strlit("INT");
    reveal_strlit("STR_LIT");
    reveal_strlit("BOOL");
    reveal_strlit("OP1_b");
    reveal_strlit("OP2_b");
    reveal_strlit("OP3_n");
    reveal_strlit("OP4_n");
    reveal_strlit("OP_UNARY");
    reveal_strlit("TYPE");
    reveal_strlit("PAREN_L");
    reveal_strlit("PAREN_R");
    reveal_strlit("CURLY_L");
    reveal_strlit("CURLY_R");
    reveal_strlit("COMMA");
    reveal_strlit("COLON");
    reveal_strlit("ARROW");
    reveal_strlit("A");
    reveal_strlit("S");
    reveal_strlit("ROOT");
    reveal_strlit("Statement");
    reveal_strlit("Function");
    reveal_strlit("Block");
    reveal_strlit("List");
    reveal_strlit("If");
    reveal_strlit("Declaration");
    reveal_strlit("Expr");
    reveal_strlit("UExpr");
    reveal_strlit("T1");
    reveal_strlit("T2");
    reveal_strlit("T3");
    reveal_strlit("TBase");
    reveal_strlit("Return");
    reveal_strlit("Invoke");
    reveal_strlit("Args");
    reveal_strlit("Params");
    reveal_strlit("Void");
    reveal_strlit("Int");
    reveal_strlit("Bool");
    reveal_strlit("String");
}

/// Hexadecimal notation holds no line break.
proof fn lemma_hex_no_nl(n: nat)
    ensures
        no_nl(hex_text(n)),
    decreases n,
{
    if n >= 16 {
        lemma_hex_no_nl(n / 16);
    }
}

/// Decimal notation holds no line break.
proof fn lemma_dec_no_nl(n: nat)
    ensures
        no_nl(dec(n)),
    decreases n,
{
    if n >= 10 {
        lemma_dec_no_nl(n / 10);
    }
}

/// An escaped character is no line break.
proof fn lemma_esc_no_nl(c: char, sq: bool, dq: bool)
    ensures
        no_nl(esc(c, sq, dq)),
{
    if c < ' ' || c == '\u{7f}' {
        lemma_hex_no_nl((c as u32) as nat);
    }
}

/// Escaped text holds no line break.
proof fn lemma_esc_str_no_nl(s: Seq<char>, sq: bool, dq: bool)
    ensures
        no_nl(esc_str(s, sq, dq)),
    decreases s.len(),
{
    if s.len() > 0 {
        lemma_esc_str_no_nl(s.drop_last(), sq, dq);
        lemma_esc_no_nl(s.last(), sq, dq);
    }
}

/// The text of a token value holds no line break: line breaks in its payload are escaped.
proof fn lemma_data_text_no_nl(d: TokenDataV)
    ensures
        no_nl(data_text(d)),
{
    lemma_names_no_nl();
    reveal_strlit("a");
    reveal_strlit("b");
    reveal_strlit("IDENT");
    reveal_strlit("INT");
    reveal_strlit("STR_LIT");
    reveal_strlit("BOOL");
    reveal_strlit("OP1_b");
    reveal_strlit("OP2_b");
    reveal_strlit("OP3_n");
    reveal_strlit("OP4_n");
    reveal_strlit("OP_UNARY");
    reveal_strlit("TYPE");
    reveal_strlit("true");
    reveal_strlit("false");
    match d {
        TokenDataV::a(c) => {
            lemma_quoted_no_nl(seq![], c);
            lemma_with_arg_no_nl("a"@, char_dbg(c));
        },
        TokenDataV::b(c) => {
            lemma_quoted_no_nl(seq![], c);
            lemma_with_arg_no_nl("b"@, char_dbg(c));
        },
        TokenDataV::IDENT(x) => {
            lemma_quoted_no_nl(x, ' ');
            lemma_with_arg_no_nl("IDENT"@, str_dbg(x));
        },
        TokenDataV::INT(v) => {
            if v < 0 {
                lemma_dec_no_nl((-v) as nat);
                lemma_no_nl_add(seq!['-'], dec((-v) as nat));
            } else {
                lemma_dec_no_nl(v as nat);
            }
            lemma_with_arg_no_nl("INT"@, int_text(v));
        },
        TokenDataV::STR_LIT(x) => {
            lemma_quoted_no_nl(x, ' ');
            lemma_with_arg_no_nl("STR_LIT"@, str_dbg(x));
        },
        TokenDataV::BOOL(v) => {
            lemma_with_arg_no_nl("BOOL"@, if v { "true"@ } else { "false"@ });
        },
        TokenDataV::OP1_b(x) => {
            lemma_quoted_no_nl(x, ' ');
            lemma_with_arg_no_nl("OP1_b"@, str_dbg(x));
        },
        TokenDataV::OP2_b(x) => {
            lemma_quoted_no_nl(x, ' ');
            lemma_with_arg_no_nl("OP2_b"@, str_dbg(x));
        },
        TokenDataV::OP3_n(x) => {
            lemma_quoted_no_nl(x, ' ');
            lemma_with_arg_no_nl("OP3_n"@, str_dbg(x));
        },
        TokenDataV::OP4_n(x) => {
            lemma_quoted_no_nl(x, ' ');
            lemma_with_arg_no_nl("OP4_n"@, str_dbg(x));
        },
        TokenDataV::OP_UNARY(x) => {
            lemma_quoted_no_nl(x, ' ');
            lemma_with_arg_no_nl("OP_UNARY"@, str_dbg(x));
        },
        TokenDataV::TYPE(t) => {
            lemma_with_arg_no_nl("TYPE"@, type_label(t));
        },
        _ => {},
    }
}

/// The lines of the drawings of children: one per node and token under them.
proof fn lemma_kids_lines(c: Seq<ElemV>, prefix: Seq<char>, total: nat)
    requires
        no_nl(prefix),
    ensures
        count_nl(kids_text(c, prefix, total)) == kids_size(c),
    decreases c,
{
    if c.len() > 0 {
        lemma_kids_lines(c.drop_last(), prefix, total);
        let p = kid_prefix(prefix, c.len() == total);
        lemma_prefix_no_nl(prefix, c.len() == total);
        lemma_prefix_no_nl(p, true);
        let rest = match c.last() {
            ElemV::Node(m) => tree_text(m, p),
            ElemV::Token(t) => branch(p) + data_text(t.data) + seq!['\n'],
        };
        lemma_count_add(kids_text(c.drop_last(), prefix, total), rest);
        match c.last() {
            ElemV::Node(m) => {
                drawing_has_a_line_per_element(m, p);
            },
            ElemV::Token(t) => {
                lemma_data_text_no_nl(t.data);
                lemma_no_nl_add(branch(p), data_text(t.data));
                lemma_no_nl_count(branch(p) + data_text(t.data));
                lemma_count_add(branch(p) + data_text(t.data), seq!['\n']);
                lemma_count_one();
            },
        }
    }
}

/// The drawing of a syntax tree has one line per node and per token: token values and
/// names hold no line break of their own, so each line ends one entry.
pub proof fn drawing_has_a_line_per_element(n: NodeV, prefix: Seq<char>)
    requires
        no_nl(prefix),
    ensures
        count_nl(tree_text(n, prefix)) == tree_size(n),
    decreases n,
{
    lemma_names_no_nl();
    let head = branch(prefix) + node_name(n.t);
    lemma_prefix_no_nl(prefix, true);
    lemma_no_nl_add(branch(prefix), node_name(n.t));
    lemma_no_nl_count(head);
    lemma_count_add(head, seq!['\n']);
    lemma_count_one();
    lemma_kids_lines(n.children, prefix, n.children.len());
    lemma_count_add(head + seq!['\n'], kids_text(n.children, prefix, n.children.len()));
}


/// The lines of the items among the first `k` places of the item set `s`: a tab, then the
/// item as `item_text` says, then a line break; in the order of productions, then of dots.
pub open spec fn items_text(g: Seq<(NodeT, Seq<ElemT>)>, s: Seq<bool>, k: int) -> Seq<char>
    decreases k,
{
    if k <= 0 {
        seq![]
    } else if s[k - 1] {
        items_text(g, s, k - 1) + seq!['\t'] + item_text(g[(k - 1) / ITEM_W as int], (k - 1) % ITEM_W as int) + seq!['\n']
    } else {
        items_text(g, s, k - 1)
    }
}

/// A state as its items in brackets, one per line.
pub open spec fn state_text(g: Seq<(NodeT, Seq<ElemT>)>, s: Seq<bool>) -> Seq<char> {
    seq!['[', '\n'] + items_text(g, s, s.len() as int) + seq![']', '\n']
}

/// States one after another.
pub open spec fn states_text(g: Seq<(NodeT, Seq<ElemT>)>, v: Seq<State>) -> Seq<char>
    decreases v.len(),
{
    if v.len() == 0 {
        seq![]
    } else {
        states_text(g, v.drop_last()) + state_text(g, v.last().items@)
    }
}

impl State {
    /// This state's items, as `state_text` says.
    pub fn to_text(&self, prods: &Productions) -> (r: String)
        requires
            self.items@.len() == prods.table_rules@.len() * ITEM_W,
        ensures
            r@ == state_text(prods.table_rules@.map_values(|p: Production| prod_view(p)), self.items@),
    {
        let ghost g = prods.table_rules@.map_values(|p: Production| prod_view(p));
        let mut s = String::new();
        s.push('[');
        s.push('\n');
        let ghost s1 = s@;
        let n = self.items.len();
        let mut k: usize = 0;
        while k < n
            invariant
                k <= n,
                n == self.items@.len(),
                n == prods.table_rules@.len() * ITEM_W,
                g == prods.table_rules@.map_values(|p: Production| prod_view(p)),
                s@ == s1 + items_text(g, self.items@, k as int),
            decreases n - k,
        {
            if self.items[k] {
                let it = Item { prod: k / ITEM_W, pos: k % ITEM_W };
                assert(k / ITEM_W < prods.table_rules@.len()) by (nonlinear_arith)
                    requires
                        k < n,
                        n == prods.table_rules@.len() * ITEM_W,
                        ITEM_W == 16;
                s.push('\t');
                s.push_str(it.to_text(prods).as_str());
                s.push('\n');
            }
            k += 1;
        }
        s.push(']');
        s.push('\n');
        s
    }
}

impl States {
    /// The states built so far, as `states_text` says.
    pub fn to_text(&self, prods: &Productions) -> (r: String)
        requires
            forall|i: int| 0 <= i < self.v@.len() ==> (#[trigger] self.v@[i]).items@.len() == prods.table_rules@.len() * ITEM_W,
        ensures
            r@ == states_text(prods.table_rules@.map_values(|p: Production| prod_view(p)), self.v@),
    {
        let mut s = String::new();
        let mut i: usize = 0;
        while i < self.v.len()
            invariant
                i <= self.v@.len(),
                forall|j: int| 0 <= j < self.v@.len() ==> (#[trigger] self.v@[j]).items@.len() == prods.table_rules@.len() * ITEM_W,
                s@ == states_text(prods.table_rules@.map_values(|p: Production| prod_view(p)), self.v@.subrange(0, i as int)),
            decreases self.v@.len() - i,
        {
            let t = self.v[i].to_text(prods);
            s.push_str(t.as_str());
            assert(self.v@.subrange(0, i + 1).drop_last() =~= self.v@.subrange(0, i as int));
            i += 1;
        }
        assert(self.v@.subrange(0, self.v@.len() as int) =~= self.v@);
        s
    }
}

} // verus!
