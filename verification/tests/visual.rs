use cilantro::grammar::{ElemT, NodeT, TokenT};
use cilantro::parser::SyntaxError;
use cilantro::token::{Token, TokenData, Type};
use cilantro::tree::{Elem, Node};
use cilantro::grammar::Action;
use cilantro::lexer::tokenize;
use cilantro::parser::Parser;
use cilantro::pipeline::{to_ast, CompileError};
use cilantro::scope::ScopeError;
use cilantro::table::State;
use cilantro::typecheck::TypeError;
use cilantro::visual::print_table;
use cilantro::visual::print_tokens;

fn tok(data: TokenData) -> Token {
    Token { start: 0, end: 0, data }
}

fn node_of(t: NodeT, children: Vec<Elem>) -> Node {
    Node { start: 0, end: 0, t, children }
}

#[allow(non_snake_case)]
#[test]
fn node() {
    let n = {
        let a = tok(TokenData::a('a'));
        let b1 = tok(TokenData::b('b'));
        let b2 = tok(TokenData::b('b'));
        let A1 = node_of(NodeT::A, vec![Elem::Token(b2)]);
        let A2 = node_of(NodeT::A, vec![Elem::Token(a), Elem::Node(A1)]);
        let A3 = node_of(NodeT::A, vec![Elem::Token(b1)]);
        node_of(NodeT::S, vec![Elem::Node(A2), Elem::Node(A3)])
    };

    let s = [
        "└── S\n",
        "    ├── A\n",
        "    │   ├── a('a')\n",
        "    │   └── A\n",
        "    │       └── b('b')\n",
        "    └── A\n",
        "        └── b('b')\n",
    ].concat();

    let o = n.to_string();
    println!("{o}");

    assert_eq!(o, s);
}

#[test]
fn token_text_quotes_and_escapes() {
    assert_eq!(TokenData::IDENT("x\"y".to_string()).to_string(), "IDENT(\"x\\\"y\")");
    assert_eq!(TokenData::STR_LIT("a\nb".to_string()).to_string(), "STR_LIT(\"a\\nb\")");
    assert_eq!(TokenData::a('\'').to_string(), "a('\\'')");
    assert_eq!(TokenData::INT(-42).to_string(), "INT(-42)");
    assert_eq!(TokenData::BOOL(true).to_string(), "BOOL(true)");
    assert_eq!(TokenData::TYPE(Type::String).to_string(), "TYPE(String)");
    assert_eq!(TokenData::K_LET.to_string(), "K_LET");
    assert_eq!(TokenData::STR_LIT("\u{1}".to_string()).to_string(), "STR_LIT(\"\\u{1}\")");
}

const LIB: &str = ";;@signature $print64 : void (i64)\n  (func $print64 (param $x i64))\n";

#[test]
fn ast_drawing_shows_fields_and_types() {
    let src = "let x = 1 + 2";
    let parser = Parser::new(tokenize(src).unwrap(), src);
    let ast = to_ast(parser.parse().unwrap(), LIB).unwrap();
    let s = [
        "└── Declaration { ident: \"x@0\",  } => Void\n",
        "    └── Expr { op: \"+\",  } => Int\n",
        "        ├── INT(1)\n",
        "        └── INT(2)\n",
    ].concat();
    assert_eq!(ast[0].to_string(), s);
}

#[test]
fn table_text_layout() {
    let mut edges = vec![None; 45];
    edges[0] = Some(Action::Shift(3));
    edges[26] = Some(Action::Reduce(12));
    let table = vec![State { items: vec![], edges }];
    let text = print_table(&table);
    let lines: Vec<&str> = text.lines().collect();
    assert_eq!(lines.len(), 2);
    assert!(lines[0].starts_with("   |EOF     |a       |b       |x       |K_LET   |K_FUNC  |K_RETURN|K_IF    |"));
    assert!(lines[0].contains("|A       |S       |ROOT    |Statemen|Function|"));
    assert!(lines[0].ends_with("|Args    |Params  |"));
    let mut row = String::from("  0|S      3|");
    for _ in 1..26 {
        row.push_str("        |");
    }
    row.push_str("R     12|");
    for _ in 27..45 {
        row.push_str("        |");
    }
    assert_eq!(lines[1], row);
    assert!(text.ends_with('\n'));
}

#[test]
fn tokens() {
    let source = "let A = 100\n let B = 68_104".to_owned();
    let toks = tokenize(&source).unwrap();
    let s = print_tokens(&toks, &source);

    let res = [
        "K_LET       IDENT EQ_1  INT(100)       K_LET       IDENT EQ_1  INT(68104)        EOF\n",
        "│           │     │     │              │           │     │     │                 │\n",
        "l  e  t     A     =     1  0  0  \\n    l  e  t     B     =     6  8  _  1  0  4  \n",
    ].concat();
    println!("{}", s);

    assert_eq!(s, res);
}

#[test]
fn tokens_wrap_into_blocks() {
    let source = "let abcdefghijklmnop = 1\nlet klmnopqrstuvwxyz = 2\nlet u = 3";
    let toks = tokenize(source).unwrap();
    let s = print_tokens(&toks, source);
    let res = [
        "K_LET       IDENT(\"abcdefghijklmnop\")                          EQ_1  INT(1 K_LET       IDENT(\"klmnopqrstuvwxyz\")                          EQ_1  INT(2 K_LET      \n",
        "│           │                                                  │     │     │           │                                                  │     │     │           \n",
        "l  e  t     a  b  c  d  e  f  g  h  i  j  k  l  m  n  o  p     =     1  \\n l  e  t     k  l  m  n  o  p  q  r  s  t  u  v  w  x  y  z     =     2  \\n \n",
        "            IDENT EQ_1  IN EOF\n",
        "            │     │     │  │\n",
        "l  e  t     u     =     3  \n",
    ].concat();
    assert_eq!(s, res);
}

#[test]
fn type_error_shown_against_source() {
    let src = "let x = 1 == true";
    let parser = Parser::new(tokenize(src).unwrap(), src);
    match to_ast(parser.parse().unwrap(), LIB) {
        Err(CompileError::Type(e)) => {
            assert!(e.shows_in(src));
            let expected = [
                "=== Type Error ===\n",
                "Error at: 13\n",
                "    let x = 1 == true\n",
                "                 ^-----Expression terms not of same type\n",
                "  expected type: Int\n",
                "  found type: Bool\n",
            ].concat();
            assert_eq!(e.to_text(src), expected);
        },
        _ => panic!("expected a type error"),
    }
}

#[test]
fn type_error_window_stops_at_line_breaks() {
    let src = "let a = 1\nlet b = 2 + \"s\"\nlet c = 3";
    let e = TypeError { start: 18, msg: "bad".to_string(), expected: None, found: Some(Type::String) };
    assert!(e.shows_in(src));
    let expected = [
        "=== Type Error ===\n",
        "Error at: 18\n",
        "    let b = 2 + \\\"s\\\"\n",
        "            ^-----bad\n",
        "  found type: String\n",
    ].concat();
    assert_eq!(e.to_text(src), expected);
    let at_start = TypeError { start: 0, msg: String::new(), expected: None, found: None };
    assert!(!at_start.shows_in(src));
}

#[test]
fn scope_error_header() {
    let e = ScopeError { msg: "x".to_string(), start: 3 };
    assert_eq!(e.to_text(), "== Scope Error ==");
}

#[test]
fn syntax_error_shown_against_source() {
    let src = "let a = )\nlet b = 2";
    let e = SyntaxError {
        at: 4,
        start: 8,
        end: 9,
        found: ElemT::Token(TokenT::PAREN_R),
        expected: vec![ElemT::Token(TokenT::INT), ElemT::Node(NodeT::Expr)],
    };
    assert!(e.shows_in(src));
    let expected = [
        "==Syntax Error==\n",
        "Error At: 4\n",
        "    let a = )...\n",
        "        ----^-\n",
        "unexpected token: PAREN_R\n",
        "expected: [Token(INT), Node(Expr)]\n",
    ].concat();
    assert_eq!(e.to_text(src), expected);
    let at_start = SyntaxError { at: 0, start: 0, end: 1, found: ElemT::Token(TokenT::EOF), expected: vec![] };
    assert!(!at_start.shows_in(src));
}

#[test]
fn productions_listed_one_per_line() {
    let p = cilantro::productions::Productions::make_test();
    assert_eq!(p.to_string(), "S -> A A \nA -> b \nA -> a A \n");
    assert_eq!(p.v[1].to_string(), "A -> b ");
}

#[test]
fn symbols_and_children_as_text() {
    assert_eq!(ElemT::Token(TokenT::K_LET).to_string(), "K_LET");
    assert_eq!(ElemT::Node(NodeT::Declaration).to_string(), "Declaration");
    assert_eq!(Elem::Token(tok(TokenData::INT(7))).to_string(), "INT(7)");
    assert_eq!(Elem::Node(node_of(NodeT::Block, vec![])).to_string(), "Block");
}

#[test]
fn stack_dump_layout() {
    let l = vec![(Elem::Token(tok(TokenData::K_LET)), 3), (Elem::Node(node_of(NodeT::Declaration, vec![])), 12)];
    let r = vec![Elem::Token(tok(TokenData::EOF)), Elem::Token(tok(TokenData::IDENT("abcdefghijkl".to_string())))];
    let text = cilantro::visual::print_stacks(&l, &r);
    assert_eq!(text, "3          12         \nK_LET      Declaratio  | IDENT(\"abc EOF        \n");
}

#[test]
fn item_shows_its_dot() {
    let p = cilantro::productions::Productions::make_test();
    let it = cilantro::table::Item { prod: 2, pos: 1 };
    assert_eq!(it.to_text(&p), "A -> a.A");
    let done = cilantro::table::Item { prod: 0, pos: 2 };
    assert_eq!(done.to_text(&p), "S -> AA.\n");
}

#[test]
fn drawing_has_one_line_per_element() {
    let n = node_of(
        NodeT::Declaration,
        vec![
            Elem::Token(tok(TokenData::K_LET)),
            Elem::Token(tok(TokenData::STR_LIT("two\nlines".to_string()))),
            Elem::Node(node_of(NodeT::Expr, vec![Elem::Token(tok(TokenData::INT(1)))])),
        ],
    );
    let text = n.to_string();
    assert_eq!(text.matches('\n').count(), 5);
    assert!(text.contains("STR_LIT(\"two\\nlines\")"));
}

#[test]
fn first_state_lists_its_items() {
    let p = cilantro::productions::Productions::make_test();
    let table = p.make_table();
    assert_eq!(table[0].to_text(&p), "[\n\tS -> .AA\n\tA -> .b\n\tA -> .aA\n\tROOT -> .SROOT\n]\n");
}
