use cilantro::grammar::TokenT;
use cilantro::codegen::{Func, Prog};
use cilantro::lexer::tokenize;
use cilantro::parser::Parser;
use cilantro::scope::SymbolStack;
use cilantro::token::{Token, TokenData, Type};
use cilantro::tree::{Elem, Node};
use cilantro::typecheck::TypeTable;

fn leaves(n: &Node, out: &mut Vec<(usize, usize)>) {
    for c in &n.children {
        match c {
            Elem::Node(m) => leaves(m, out),
            Elem::Token(t) => out.push((t.start, t.end)),
        }
    }
}

#[test]
fn lexer_tokens_in_order() {
    let src = "func f (a: i64) -> i64 {\n return a * 2\n}\nprint64(f(21))";
    let toks: Vec<Token> = tokenize(src).unwrap();
    assert!(toks.len() >= 2);
    let last = toks.last().unwrap();
    assert!(matches!(last.data, TokenData::EOF));
    assert_eq!((last.start, last.end), (src.len(), src.len()));
    for w in toks.windows(2) {
        assert!(w[0].start <= w[0].end);
        assert!(w[0].end <= w[1].start);
        assert!(w[0].start < w[1].start);
    }
}

#[test]
fn parse_keeps_every_token_but_eof() {
    let src = "let x = (1 + 2) * 3\nif x == 9 { print64(x) }";
    let toks = tokenize(src).unwrap();
    let spans: Vec<(usize, usize)> = toks.iter().map(|t| (t.start, t.end)).collect();
    let nodes = Parser::new(toks, src).parse().unwrap();
    let mut got = Vec::new();
    for n in &nodes {
        leaves(n, &mut got);
    }
    assert_eq!(got, spans[..spans.len() - 1].to_vec());
}

#[test]
fn parse_ends_with_a_root_node() {
    let src = "let x = 1\nfunc f () -> void { }";
    let toks = tokenize(src).unwrap();
    let nodes = Parser::new(toks, src).parse().unwrap();
    let last = nodes.last().unwrap();
    assert!(matches!(last.t, cilantro::grammar::NodeT::Statement | cilantro::grammar::NodeT::Function));
}

#[test]
fn scope_declare_then_lookup() {
    let mut st = SymbolStack::new();
    let x = "x".to_string();
    let y = "y".to_string();
    assert_eq!(st.declare(x.clone()), Ok(0));
    assert_eq!(st.get_scope(&x), Some(0));
    assert_eq!(st.get_scope(&y), None);
    st.new_scope();
    assert_eq!(st.get_scope(&x), Some(0));
    assert_eq!(st.declare(x.clone()), Ok(1));
    assert_eq!(st.get_scope(&x), Some(1));
    assert!(st.declare(x.clone()).is_err());
    st.end_scope();
    assert_eq!(st.get_scope(&x), Some(0));
    assert_eq!(st.get_scope(&y), None);
}

#[test]
fn type_table_reads_back_definitions() {
    let mut t = TypeTable::new();
    let a = "a".to_string();
    let b = "b".to_string();
    assert!(t.define_v(&a, Type::Int));
    assert_eq!(t.get_v(&a), Some(Type::Int));
    assert_eq!(t.get_v(&b), None);
    assert!(!t.define_v(&a, Type::Bool));
    assert_eq!(t.get_v(&a), Some(Type::Int));
    assert!(t.define_f(&b, (vec![Type::Int], Type::Bool)));
    let (ps, r) = t.get_f(&b).unwrap();
    assert_eq!(ps, vec![Type::Int]);
    assert_eq!(r, Type::Bool);
}

#[test]
fn function_depth_follows_parentheses() {
    let mut f = Func::new("(func $f".to_string());
    assert_eq!(f.t, 2);
    assert!(f.push("(block"));
    assert_eq!(f.t, 3);
    assert!(f.push("(i64.add (i64.const 1) (i64.const 2))"));
    assert_eq!(f.t, 3);
    assert!(f.push(")"));
    assert_eq!(f.t, 2);
    assert_eq!(f.v, "    (block\n      (i64.add (i64.const 1) (i64.const 2))\n    )\n");
    assert!(f.push(")"));
    assert!(f.push(")"));
    assert!(!f.push(")"));
    assert_eq!(f.t, 0);
}

#[test]
fn string_literals_do_not_overlap() {
    let mut p = Prog::new();
    let a = p.add_str_lit(&"hello".to_string()).unwrap();
    let b = p.add_str_lit(&"wörld".to_string()).unwrap();
    let c = p.add_str_lit(&String::new()).unwrap();
    assert_eq!(a, 40);
    assert_eq!(b, 45);
    assert_eq!(c, 51);
    assert_eq!(p.mem, 51);
}

#[test]
fn module_holds_library_text() {
    let lib = ";; my library\n";
    let code = cilantro::pipeline::compile("let x = 1", lib).unwrap();
    assert!(code.starts_with("(module\n;; my library\n"));
    assert!(code.ends_with(")"));
}

#[test]
fn builtin_library_lines() {
    let lib = Prog::lib();
    assert!(lib.starts_with("  ;; (File Descriptor, *iovs, iovs_len, nwritten) -> Returns number of bytes written\n"));
    assert!(lib.contains("  (import \"wasi_unstable\" \"fd_write\" (func $fd_write (param i32 i32 i32 i32) (result i32)))\n"));
    assert!(lib.ends_with("    drop\n  )\n"));
    assert_eq!(lib.lines().count(), 28);
}

#[test]
fn join_lines_ends_each_line() {
    assert_eq!(cilantro::codegen::join_lines(&vec!["a", "", "b"]), "a\n\nb\n");
    assert_eq!(cilantro::codegen::join_lines(&vec![]), "");
}

#[test]
fn lexed_tokens_carry_their_text() {
    let src = "let name = \"hi there\"\nprint(name)";
    let toks = tokenize(src).unwrap();
    let mut seen = 0;
    for t in &toks {
        match &t.data {
            TokenData::IDENT(x) | TokenData::STR_LIT(x) => {
                assert_eq!(x, &src[t.start..t.end]);
                seen += 1;
            },
            _ => {},
        }
    }
    assert_eq!(seen, 4);
}

#[test]
fn multiplication_binds_tighter_than_addition() {
    let src = "let x = 1 + 2 * 3";
    let parser = Parser::new(tokenize(src).unwrap(), src);
    let ast = cilantro::pipeline::to_ast(parser.parse().unwrap(), "").unwrap();
    match &ast[0].data {
        cilantro::ast::NodeData::Declaration { expr, .. } => match &**expr {
            cilantro::ast::LElem::Node(e) => match &e.data {
                cilantro::ast::NodeData::Expr { op, t2, .. } => {
                    assert_eq!(op, "+");
                    match &**t2 {
                        cilantro::ast::LElem::Node(m) => match &m.data {
                            cilantro::ast::NodeData::Expr { op, .. } => assert_eq!(op, "*"),
                            _ => panic!("expected a product"),
                        },
                        _ => panic!("expected a node"),
                    }
                    assert_eq!(e.t, Type::Int);
                },
                _ => panic!("expected a sum"),
            },
            _ => panic!("expected a node"),
        },
        _ => panic!("expected a declaration"),
    }
}

#[test]
fn declared_variables_take_their_expression_types() {
    let src = "let b = 1 == 1\nif b { print64(1) }";
    let parser = Parser::new(tokenize(src).unwrap(), src);
    let lib = ";;@signature $print64 : void (i64)\n";
    assert!(cilantro::pipeline::to_ast(parser.parse().unwrap(), lib).is_ok());
    let src = "let n = 1\nif n { print64(1) }";
    let parser = Parser::new(tokenize(src).unwrap(), src);
    assert!(matches!(cilantro::pipeline::to_ast(parser.parse().unwrap(), lib), Err(cilantro::pipeline::CompileError::Type(_))));
}

fn elem_leaves(e: &Elem, out: &mut Vec<(usize, usize)>) {
    match e {
        Elem::Node(m) => leaves(m, out),
        Elem::Token(t) => out.push((t.start, t.end)),
    }
}

fn is_subsequence(a: &[(usize, usize)], b: &[(usize, usize)]) -> bool {
    let mut it = b.iter();
    a.iter().all(|x| it.any(|y| y == x))
}

#[test]
fn trimming_keeps_token_order() {
    let src = "let x = (1 + 2) * f(3, 4)\n{ if x == 3 { print64(x) } }";
    let toks = tokenize(src).unwrap();
    let nodes = Parser::new(toks, src).parse().unwrap();
    for n in nodes {
        let mut before = Vec::new();
        leaves(&n, &mut before);
        let trimmed = n.trim();
        let mut after = Vec::new();
        elem_leaves(&trimmed, &mut after);
        assert!(after.len() < before.len());
        assert!(is_subsequence(&after, &before));
    }
}

#[test]
fn subtraction_groups_to_the_left() {
    let src = "let x = 10 - 3 - 2";
    let parser = Parser::new(tokenize(src).unwrap(), src);
    let ast = cilantro::pipeline::to_ast(parser.parse().unwrap(), "").unwrap();
    match &ast[0].data {
        cilantro::ast::NodeData::Declaration { ident, expr } => {
            assert_eq!(ident, "x@0");
            match &**expr {
                cilantro::ast::LElem::Node(e) => match &e.data {
                    cilantro::ast::NodeData::Expr { op, t1, t2 } => {
                        assert_eq!(op, "-");
                        match &**t2 {
                            cilantro::ast::LElem::Token(t) => assert!(matches!(t.data, TokenData::INT(2))),
                            _ => panic!("expected 2 on the right"),
                        }
                        match &**t1 {
                            cilantro::ast::LElem::Node(m) => match &m.data {
                                cilantro::ast::NodeData::Expr { op, t1, t2 } => {
                                    assert_eq!(op, "-");
                                    assert!(matches!(&**t1, cilantro::ast::LElem::Token(t) if matches!(t.data, TokenData::INT(10))));
                                    assert!(matches!(&**t2, cilantro::ast::LElem::Token(t) if matches!(t.data, TokenData::INT(3))));
                                },
                                _ => panic!("expected 10 - 3 on the left"),
                            },
                            _ => panic!("expected a node on the left"),
                        }
                    },
                    _ => panic!("expected a difference"),
                },
                _ => panic!("expected a node"),
            }
        },
        _ => panic!("expected a declaration"),
    }
}

fn kinded_leaves(e: &Elem, out: &mut Vec<(usize, usize, TokenT)>) {
    match e {
        Elem::Node(m) => {
            for c in &m.children {
                kinded_leaves(c, out);
            }
        },
        Elem::Token(t) => out.push((t.start, t.end, t.data.kind())),
    }
}

#[test]
fn trimming_drops_exactly_the_punctuation() {
    let punct = [
        TokenT::K_LET, TokenT::EQ_1, TokenT::K_IF, TokenT::K_RETURN, TokenT::K_FUNC, TokenT::PAREN_L,
        TokenT::PAREN_R, TokenT::ARROW, TokenT::CURLY_L, TokenT::CURLY_R, TokenT::COMMA, TokenT::COLON,
    ];
    let src = "func f (a: i64, b: i64) -> i64 {\n return a * (b - 1)\n}\nlet x = f(3, 4)\nif x == 8 { print64(x) }";
    let toks = tokenize(src).unwrap();
    let nodes = Parser::new(toks, src).parse().unwrap();
    for n in nodes {
        let mut before = Vec::new();
        for c in &n.children {
            kinded_leaves(c, &mut before);
        }
        let trimmed = n.trim();
        let mut after = Vec::new();
        kinded_leaves(&trimmed, &mut after);
        let expected: Vec<_> = before.into_iter().filter(|l| !punct.contains(&l.2)).collect();
        assert_eq!(after, expected);
    }
}

#[test]
fn deeply_nested_expression_parses_within_the_step_budget() {
    let depth = 200;
    let src = ["let x = ", &"(".repeat(depth), "1", &")".repeat(depth), " + 2"].concat();
    let toks = tokenize(&src).unwrap();
    let nodes = Parser::new(toks, &src).parse().unwrap();
    assert_eq!(nodes.len(), 1);
}
