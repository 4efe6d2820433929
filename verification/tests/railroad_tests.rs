use saltgrep::railroad::{Ast, AstNode, AstRef};
use saltgrep::tokenize;
use saltgrep::tokenize::{LiteralType, Token, TokenType};

#[test]
fn add_hands_out_the_appended_index() {
    let mut ast = Ast(Vec::new());
    let node = AstNode::Literal(
        LiteralType::Character,
        Token::create(TokenType::Literal(LiteralType::Character), 0),
    );
    let r = ast.add(node);
    assert_eq!(r, AstRef(0));
    assert_eq!(*ast.get(r), node);
}

#[test]
fn child_references_point_to_earlier_nodes() {
    let ast = Ast::from_tokens(tokenize::tokenize("ab").expect("tokenization failed"))
        .expect("parsing succeeds");
    assert_eq!(ast.size(), 3);
    match *ast.get(AstRef(2)) {
        AstNode::Cons(left, right) => {
            assert_eq!(left, AstRef(0));
            assert_eq!(right, AstRef(1));
            assert!(matches!(*ast.get(left), AstNode::Literal(..)));
            assert!(matches!(*ast.get(right), AstNode::Literal(..)));
        }
        _ => panic!("expected a concatenation node at the root"),
    }
}

#[test]
fn railroad_test_empty_group() {
    assert!(Ast::from_tokens(tokenize::tokenize("()").expect("tokenization failed")).is_ok());
}

#[test]
fn test_pointless_equivalence() {
    let tokens = tokenize::tokenize("a|b|c").expect("tokenization failed");
    assert_eq!(
        Ast::from_tokens(tokens.clone()).expect("parsing succeeds"),
        Ast::railroad(tokens.clone()).expect("parsing succeeds")
    );
}

#[test]
fn test_alternation_associativity() {
    let tokens = tokenize::tokenize("a|b|c").expect("tokenization failed");

    assert_eq!("0..1 2..3 | 4..5 |", Ast::railroad(tokens).unwrap().to_string());
}

#[test]
fn test_cons_associativity() {
    let tokens = tokenize::tokenize("abc").expect("tokenization failed");

    assert_eq!("0..1 1..2 J 2..3 J", Ast::from_tokens(tokens).unwrap().to_string());
}

#[test]
fn test_mixed_pattern_1() {
    let tokens = tokenize::tokenize("(ab+34)5|6*").expect("tokenization failed");

    assert_eq!(
        "1..2 2..3 + J 4..5 J 5..6 J G 7..8 J 9..10 * |",
        Ast::from_tokens(tokens).unwrap().to_string()
    );
}

#[test]
fn test_mixed_pattern_2() {
    let tokens =
        tokenize::tokenize("(ab+(cd)*e(f(g)h))i?|(j(k(l|m|n)))").expect("tokenization failed");
    assert_eq!(
        "1..2 2..3 + J 5..6 6..7 J G * J 9..10 J 11..12 13..14 G J 15..16 J G J G 18..19 ? J 22..23 24..25 26..27 28..29 | 30..31 | G J G J G |",
        Ast::from_tokens(tokens).unwrap().to_string()
    );
}
