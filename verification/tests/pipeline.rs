use cilantro::ast::{LElem, LNode, LToken, NodeData};
use cilantro::typecheck::{type_check, TypeTable};
use cilantro::grammar::{ElemT, NodeT, TokenT};
use cilantro::lexer::{tokenize, types};
use cilantro::parser::Parser;
use cilantro::pipeline::{compile, compile_web, to_ast, CompileError};
use cilantro::token::{TokenData, Type};
use cilantro::wasm::tobytes;

const LIB: &str = ";;@signature $print64 : void (i64)\n  (func $print64 (param $x i64))\n;;@signature $print : void (str)\n  (func $print (param $x i64))\n";

fn kinds(src: &str) -> Vec<TokenT> {
    tokenize(src).unwrap().iter().map(|t| t.data.kind()).collect()
}

#[test]
fn lexer_spans_and_payloads() {
    let toks = tokenize("let A = 100\n let B = 68_104").unwrap();
    let spans: Vec<(usize, usize)> = toks.iter().map(|t| (t.start, t.end)).collect();
    assert_eq!(spans, vec![(0, 3), (4, 5), (6, 7), (8, 11), (13, 16), (17, 18), (19, 20), (21, 24), (27, 27)]);
    match &toks[7].data {
        TokenData::INT(n) => assert_eq!(*n, 68104),
        _ => panic!("expected an integer"),
    }
    match &toks[1].data {
        TokenData::IDENT(s) => assert_eq!(s, "A"),
        _ => panic!("expected an identifier"),
    }
}

#[test]
fn lexer_keywords_are_prefixes() {
    assert_eq!(kinds("lettuce"), vec![TokenT::K_LET, TokenT::IDENT, TokenT::EOF]);
    assert_eq!(kinds("string"), vec![TokenT::TYPE, TokenT::IDENT, TokenT::EOF]);
    assert_eq!(kinds("a==b != c"), vec![TokenT::IDENT, TokenT::OP1_b, TokenT::IDENT, TokenT::OP1_b, TokenT::IDENT, TokenT::EOF]);
    assert_eq!(kinds("x -> !y"), vec![TokenT::IDENT, TokenT::ARROW, TokenT::OP_UNARY, TokenT::IDENT, TokenT::EOF]);
}

#[test]
fn lexer_string_literal_span() {
    let toks = tokenize("print(\"h\u{e9}llo\")").unwrap();
    match &toks[2].data {
        TokenData::STR_LIT(s) => assert_eq!(s, "h\u{e9}llo"),
        _ => panic!("expected a string literal"),
    }
    assert_eq!((toks[2].start, toks[2].end), (7, 13));
}

#[test]
fn lexer_errors() {
    assert_eq!(tokenize("").unwrap_err().pos, 0);
    assert_eq!(tokenize("   ").unwrap_err().pos, 3);
    assert_eq!(tokenize("let x = #").unwrap_err().pos, 8);
    assert_eq!(tokenize("let s = \"open").unwrap_err().pos, 8);
    assert_eq!(tokenize("99999999999999999999").unwrap_err().pos, 0);
}

#[test]
fn parser_test() {
    let s = "baab".to_owned();
    let toks = tokenize(&s).unwrap();
    let parser = Parser::new_test(toks, &s);
    println!("starting parse");
    match parser.parse() {
        Ok(nodes) => {
            for node in nodes {
                println!("{:?}", node.t);
            }
        },
        Err(e) => println!("{:?}", e.found),
    }
}

#[test]
fn parse_declaration() {
    let src = "let x = 1 + 2";
    let parser = Parser::new(tokenize(src).unwrap(), src);
    let nodes = parser.parse().unwrap();
    assert_eq!(nodes.len(), 1);
    assert_eq!(nodes[0].t, NodeT::Statement);
    assert_eq!((nodes[0].start, nodes[0].end), (0, 13));
}

#[test]
fn parse_error_reports_token() {
    let src = "let = 5";
    let parser = Parser::new(tokenize(src).unwrap(), src);
    let e = parser.parse().unwrap_err();
    assert_eq!(e.found, ElemT::Token(TokenT::EQ_1));
    assert_eq!((e.start, e.end), (4, 5));
    assert!(e.expected.contains(&ElemT::Token(TokenT::IDENT)));
}

#[test]
fn semantic_passes_annotate_scopes() {
    let src = "let x = 1\n{ let y = x }";
    let parser = Parser::new(tokenize(src).unwrap(), src);
    let ast = to_ast(parser.parse().unwrap(), LIB).unwrap();
    assert_eq!(ast.len(), 2);
    match &ast[0].data {
        NodeData::Declaration { ident, expr } => {
            assert_eq!(ident, "x@0");
            assert_eq!(expr.t(), Type::Int);
        },
        _ => panic!("expected a declaration"),
    }
    match &ast[1].data {
        NodeData::Block { v } => match &*v[0] {
            LElem::Node(d) => match &d.data {
                NodeData::Declaration { ident, expr } => {
                    assert_eq!(ident, "y@1");
                    match &**expr {
                        LElem::Token(t) => match &t.data {
                            TokenData::IDENT(s) => assert_eq!(s, "x@0"),
                            _ => panic!("expected an identifier"),
                        },
                        _ => panic!("expected a token"),
                    }
                },
                _ => panic!("expected a declaration"),
            },
            _ => panic!("expected a node"),
        },
        _ => panic!("expected a block"),
    }
}

#[test]
fn scope_errors() {
    let src = "let x = 1\nlet x = 2";
    let parser = Parser::new(tokenize(src).unwrap(), src);
    match to_ast(parser.parse().unwrap(), LIB) {
        Err(CompileError::Scope(e)) => {
            assert_eq!(e.msg, "Attempted to redeclare identifier 'x'");
            assert_eq!(e.start, 10);
        },
        _ => panic!("expected a scope error"),
    }
    let src = "let y = z";
    let parser = Parser::new(tokenize(src).unwrap(), src);
    match to_ast(parser.parse().unwrap(), LIB) {
        Err(CompileError::Scope(e)) => assert_eq!(e.msg, "cannot find identifier 'z'"),
        _ => panic!("expected a scope error"),
    }
}

#[test]
fn type_errors() {
    let src = "let x = 1 == true";
    let parser = Parser::new(tokenize(src).unwrap(), src);
    match to_ast(parser.parse().unwrap(), LIB) {
        Err(CompileError::Type(e)) => {
            assert_eq!(e.msg, "Expression terms not of same type");
            assert_eq!(e.expected, Some(Type::Int));
            assert_eq!(e.found, Some(Type::Bool));
        },
        other => panic!("expected a type error, got {:?}", other.is_ok()),
    }
    let src = "print64(1, 2)";
    let parser = Parser::new(tokenize(src).unwrap(), src);
    match to_ast(parser.parse().unwrap(), LIB) {
        Err(CompileError::Type(e)) => assert_eq!(e.msg, "Argument lengths mismatched. expected 1, found 2"),
        _ => panic!("expected a type error"),
    }
    let src = "print64(true)";
    let parser = Parser::new(tokenize(src).unwrap(), src);
    match to_ast(parser.parse().unwrap(), LIB) {
        Err(CompileError::Type(e)) => assert_eq!(e.msg, "Argument no.0 has mismatched type."),
        _ => panic!("expected a type error"),
    }
    let src = "let b = 1 && 2";
    let parser = Parser::new(tokenize(src).unwrap(), src);
    assert!(matches!(to_ast(parser.parse().unwrap(), LIB), Err(CompileError::Aborted)));
}

#[test]
fn compile_program() {
    let src = "func fib (n: i64) -> i64 {\n    if n == 1 {\n        return 1\n    }\n    if n == 2 {\n        return 1\n    }\n    return fib(n-1) + fib(n-2)\n}\n\nlet num = 13\nprint64(fib(num))\nprint(\"done\")\n";
    let code = compile(src, LIB).unwrap();
    println!("{}", code);
    assert!(code.starts_with("(module\n;;@signature $print64"));
    assert!(code.contains("  (func $fib"));
    assert!(code.contains("(local $num@0 i64)"));
    assert!(code.contains("(data (i32.const 40) \"\\64\\6f\\6e\\65\")"));
    assert!(code.ends_with("  (export \"_start\" (func $_main))\n)"));
}

#[test]
fn compile_reports_stages() {
    assert!(matches!(compile("let x = #", LIB), Err(CompileError::Lex(e)) if e.pos == 8));
    assert!(matches!(compile("let = 1", LIB), Err(CompileError::Syntax(_))));
    assert!(matches!(compile("let x = y", LIB), Err(CompileError::Scope(_))));
}

#[test]
fn tobytes_encodes_module() {
    assert_eq!(tobytes("(module)".to_owned()).unwrap(), b"\0asm\x01\0\0\0".to_vec());
    assert!(tobytes("module".to_owned()).is_err());
}

#[test]
fn generated_code_assembles() {
    let src = "func fib (n: i64) -> i64 {\n    if n == 1 {\n        return 1\n    }\n    return fib(n-1) + fib(n-2)\n}\nlet x = 1 + 2\nprint64(fib(x))\nprint(\"fibonacci\")";
    let code = compile(src, LIB).unwrap();
    println!("{}", code);
    assert!(tobytes(code).is_ok());
}

#[test]
fn unchecked_if_block_has_no_code() {
    // The block of an `if` is not type checked, so an expression in it has no type to
    // generate code by.
    let src = "let x = 1\nif x == 1 { print64(x * 2) }";
    assert!(matches!(compile(src, LIB), Err(CompileError::Aborted)));
}

#[test]
fn web_entry_shows_errors_as_text() {
    match compile_web("let x = 1", LIB) {
        Some(Ok(code)) => assert!(code.starts_with("(module\n")),
        _ => panic!("expected code"),
    }
    match compile_web("let x = 1 == true", LIB) {
        Some(Err(m)) => assert!(m.starts_with("=== Type Error ===\nError at: 13\n")),
        _ => panic!("expected a type error text"),
    }
    assert_eq!(compile_web("let x = y", LIB), Some(Err("== Scope Error ==".to_string())));
    assert_eq!(compile_web("let x = #", LIB), None);
}

#[test]
fn web_entry_shows_errors_beside_non_ascii_text() {
    let src = "let s = \"h\u{e9}llo\"\nlet x = 1 == true";
    let expected = [
        "=== Type Error ===\n",
        "Error at: 30\n",
        "    let x = 1 == true\n",
        "                 ^-----Expression terms not of same type\n",
        "  expected type: Int\n",
        "  found type: Bool\n",
    ].concat();
    assert_eq!(compile_web(src, LIB), Some(Err(expected)));
}

#[test]
fn web_entry_shows_non_ascii_text_in_the_line_shown() {
    let expected = [
        "=== Type Error ===\n",
        "Error at: 16\n",
        "    let x = \\\"\u{e9}\\\" == 1\n",
        "                    ^-----Expression terms not of same type\n",
        "  expected type: String\n",
        "  found type: Int\n",
    ].concat();
    assert_eq!(compile_web("let x = \"\u{e9}\" == 1", LIB), Some(Err(expected)));
}

#[test]
fn web_entry_escapes_a_combining_mark_in_the_line_shown() {
    let expected = [
        "=== Type Error ===\n",
        "Error at: 16\n",
        "    let x = \\\"\\u{301}\\\" == 1\n",
        "                    ^-----Expression terms not of same type\n",
        "  expected type: String\n",
        "  found type: Int\n",
    ].concat();
    assert_eq!(compile_web("let x = \"\u{301}\" == 1", LIB), Some(Err(expected)));
}

#[test]
fn web_entry_gives_nothing_where_the_line_shown_would_split_a_character() {
    // Twenty bytes back from the error falls inside an `\u{e9}`.
    let src = ["let x = \"", &"\u{e9}".repeat(8), "\" == 1"].concat();
    assert_eq!(compile_web(&src, LIB), None);
}

#[test]
fn type_keywords_with_white_space() {
    let (t, n) = types("  void x", 0).unwrap();
    assert_eq!((t.start, t.end, n), (2, 6, 7));
    assert!(matches!(t.data, TokenData::TYPE(Type::Void)));
    let (t, n) = types("i64", 0).unwrap();
    assert_eq!((t.start, t.end, n), (0, 3, 3));
    assert!(matches!(t.data, TokenData::TYPE(Type::Int)));
    assert!(types("x str", 0).is_none());
    let (t, _) = types("x str", 1).unwrap();
    assert!(matches!(t.data, TokenData::TYPE(Type::String)));
}

#[test]
fn type_error_messages() {
    let src = "if 1 { print64(1) }";
    let parser = Parser::new(tokenize(src).unwrap(), src);
    match to_ast(parser.parse().unwrap(), LIB) {
        Err(CompileError::Type(e)) => {
            assert_eq!(e.msg, "If statement expression does not evaluate to a boolean");
            assert_eq!(e.expected, Some(Type::Bool));
            assert_eq!(e.found, Some(Type::Int));
        },
        _ => panic!("expected a type error"),
    }
    let src = "func f () -> i64 {\n return true\n}";
    let parser = Parser::new(tokenize(src).unwrap(), src);
    match to_ast(parser.parse().unwrap(), LIB) {
        Err(CompileError::Type(e)) => {
            assert_eq!(e.msg, "Return expression does not match function signature");
            assert_eq!(e.expected, Some(Type::Int));
            assert_eq!(e.found, Some(Type::Bool));
        },
        _ => panic!("expected a type error"),
    }
}

#[test]
fn parse_of_end_only_is_an_error() {
    let toks = vec![cilantro::token::Token { start: 0, end: 0, data: TokenData::EOF }];
    let e = Parser::new(toks, "").parse().unwrap_err();
    assert_eq!(e.found, ElemT::Token(TokenT::EOF));
    assert_eq!((e.at, e.start, e.end), (0, 0, 0));
}

fn ltok(start: usize, data: TokenData) -> Box<LElem> {
    Box::new(LElem::Token(LToken { start, end: start + 1, data, t: Type::Void }))
}

#[test]
fn type_check_types_declarations_and_reports_mismatches() {
    let table = TypeTable::with_std(LIB).unwrap();
    let decl = LNode {
        start: 0,
        end: 9,
        data: NodeData::Declaration { ident: "x@0".to_string(), expr: ltok(8, TokenData::INT(1)) },
        t: Type::Void,
    };
    let decl2 = LNode {
        start: 10,
        end: 19,
        data: NodeData::Declaration { ident: "z@0".to_string(), expr: ltok(18, TokenData::BOOL(true)) },
        t: Type::Void,
    };
    match type_check(vec![decl, decl2], table) {
        Ok(v) => {
            assert_eq!(v.len(), 2);
            assert_eq!((v[0].start, v[0].end, v[1].start, v[1].end), (0, 9, 10, 19));
            assert!(matches!(v[0].data, NodeData::Declaration { .. }));
            assert!(matches!(v[1].data, NodeData::Declaration { .. }));
        },
        Err(_) => panic!("expected the declarations to check"),
    }
    let table = TypeTable::with_std(LIB).unwrap();
    let cmp = LNode {
        start: 8,
        end: 17,
        data: NodeData::Expr { t1: ltok(8, TokenData::INT(1)), t2: ltok(13, TokenData::BOOL(true)), op: "==".to_string() },
        t: Type::Void,
    };
    let bad = LNode {
        start: 0,
        end: 17,
        data: NodeData::Declaration { ident: "y@0".to_string(), expr: Box::new(LElem::Node(cmp)) },
        t: Type::Void,
    };
    match type_check(vec![bad], table) {
        Err(e) => assert_eq!(e.start, 13),
        Ok(_) => panic!("expected a type error"),
    }
}
