use cilantro::grammar::{node_index, node_of_index, symbol_index, token_of_index, Action, ElemT, NodeT, TokenT, NUM_NODES, NUM_SYMBOLS, NUM_TOKENS};
use cilantro::productions::Productions;

#[test]
fn table_test() {
    let table = Productions::make_test().make_table();

    assert_eq!(*table[0].get(&ElemT::Token(TokenT::a)).unwrap(), Action::Shift(1));
    assert_eq!(*table[0].get(&ElemT::Token(TokenT::b)).unwrap(), Action::Shift(2));
    assert_eq!(*table[0].get(&ElemT::Node(NodeT::A)).unwrap(), Action::Shift(4));

    assert_eq!(*table[1].get(&ElemT::Token(TokenT::a)).unwrap(), Action::Shift(1));
    assert_eq!(*table[1].get(&ElemT::Token(TokenT::b)).unwrap(), Action::Shift(2));
    assert_eq!(*table[1].get(&ElemT::Node(NodeT::A)).unwrap(), Action::Shift(3));

    assert_eq!(*table[2].get(&ElemT::Token(TokenT::a)).unwrap(), Action::Reduce(1));
    assert_eq!(*table[2].get(&ElemT::Token(TokenT::b)).unwrap(), Action::Reduce(1));
    assert_eq!(*table[2].get(&ElemT::Node(NodeT::A)).unwrap(), Action::Reduce(1));

    assert_eq!(*table[3].get(&ElemT::Token(TokenT::a)).unwrap(), Action::Reduce(2));
    assert_eq!(*table[3].get(&ElemT::Token(TokenT::b)).unwrap(), Action::Reduce(2));
    assert_eq!(*table[3].get(&ElemT::Node(NodeT::A)).unwrap(), Action::Reduce(2));

    assert_eq!(*table[4].get(&ElemT::Token(TokenT::a)).unwrap(), Action::Shift(1));
    assert_eq!(*table[4].get(&ElemT::Token(TokenT::b)).unwrap(), Action::Shift(2));
    assert_eq!(*table[4].get(&ElemT::Node(NodeT::A)).unwrap(), Action::Shift(5));
}

#[test]
fn rule_lists_leave_out_root_rules() {
    let p = Productions::make();
    assert_eq!(p.v.len(), 35);
    assert_eq!(p.roots, vec![NodeT::Statement, NodeT::Function]);
    assert_eq!(p.v[1].v, vec![ElemT::Token(TokenT::CURLY_L), ElemT::Token(TokenT::CURLY_R)]);
    assert_eq!(p.v[34].node, NodeT::TBase);
    assert_eq!(p.v[34].v, vec![ElemT::Token(TokenT::PAREN_L), ElemT::Node(NodeT::Expr), ElemT::Token(TokenT::PAREN_R)]);
    assert!(p.v.iter().all(|r| r.node != NodeT::ROOT));
    assert_eq!(p.table_rules.len(), 37);
    let t = Productions::make_test();
    assert_eq!(t.v.len(), 3);
    assert_eq!((t.v[0].node, t.v[0].v.clone()), (NodeT::S, vec![ElemT::Node(NodeT::A), ElemT::Node(NodeT::A)]));
    assert_eq!((t.v[1].node, t.v[1].v.clone()), (NodeT::A, vec![ElemT::Token(TokenT::b)]));
    assert_eq!((t.v[2].node, t.v[2].v.clone()), (NodeT::A, vec![ElemT::Token(TokenT::a), ElemT::Node(NodeT::A)]));
}

#[test]
fn test_grammar_follows() {
    let p = Productions::make_test();
    let row = node_index(NodeT::A) * NUM_SYMBOLS;
    let expected = [ElemT::Node(NodeT::A), ElemT::Token(TokenT::EOF), ElemT::Token(TokenT::a), ElemT::Token(TokenT::b)];
    for i in 0..NUM_TOKENS {
        let e = ElemT::Token(token_of_index(i));
        assert_eq!(p.follows[row + symbol_index(e)], expected.contains(&e));
    }
    for i in 0..NUM_NODES {
        let e = ElemT::Node(node_of_index(i));
        assert_eq!(p.follows[row + symbol_index(e)], expected.contains(&e));
    }
}

#[test]
fn roots_are_followed_by_the_end_of_input() {
    let eof = symbol_index(ElemT::Token(TokenT::EOF));
    let p = Productions::make_test();
    assert!(p.follows[node_index(NodeT::S) * NUM_SYMBOLS + eof]);
    let p = Productions::make();
    assert!(p.follows[node_index(NodeT::Statement) * NUM_SYMBOLS + eof]);
    assert!(p.follows[node_index(NodeT::Function) * NUM_SYMBOLS + eof]);
    // A begins with `a` or `b`, and A follows A in `S -> A A`.
    let p = Productions::make_test();
    let row = node_index(NodeT::A) * NUM_SYMBOLS;
    assert!(p.follows[row + symbol_index(ElemT::Token(TokenT::a))]);
    assert!(p.follows[row + symbol_index(ElemT::Token(TokenT::b))]);
}
