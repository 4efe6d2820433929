use saltgrep::tokenize::{
    tokenize, CharacterClassType, LiteralType, QuantifierType, Token, TokenType, TokenizeError,
};

#[test]
fn test_unclosed_character_class() {
    assert_eq!(
        tokenize(r"123[fdhk\]dfsdf"),
        Err(TokenizeError::UnterminatedCharacterSet(3))
    );
}

#[test]
fn test_empty_positive_character_class() {
    assert_eq!(tokenize(r"abc[]"), Err(TokenizeError::EmptyCharacterSet(3)));
}

#[test]
fn test_empty_negative_character_class() {
    assert_eq!(tokenize(r"abc[^]"), Err(TokenizeError::EmptyCharacterSet(3)));
}

#[test]
fn test_unterminated_escape() {
    assert_eq!(tokenize(r"abc\"), Err(TokenizeError::UnterminatedEscape(3)));
}

#[test]
fn test_tokenize() {
    assert_eq!(
        vec![
            Token::create(TokenType::Literal(LiteralType::Character), 0),
            Token::cons(1),
            Token::create(TokenType::Literal(LiteralType::Character), 1),
            Token::cons(2),
            Token::create(TokenType::Literal(LiteralType::Character), 2),
            Token::cons(3),
            Token::create(TokenType::Literal(LiteralType::Character), 3),
            Token::cons(4),
            Token::create_long(
                TokenType::Literal(LiteralType::CharacterClass(CharacterClassType::Manual, true)),
                4,
                8
            ),
            Token::quantifier(QuantifierType::OneOrMore, 8),
            Token::cons(9),
            Token::create(TokenType::Literal(LiteralType::Character), 9),
            Token::quantifier(QuantifierType::ZeroOrMore, 10),
            Token::create(TokenType::Alternation, 11),
            Token::create(TokenType::Literal(LiteralType::Character), 12),
            Token::quantifier(QuantifierType::ZeroOrOne, 13),
            Token::cons(14),
            Token::create(TokenType::Literal(LiteralType::Character), 14),
            Token::cons(15),
            Token::create_long(TokenType::Literal(LiteralType::EscapedCharacter), 15, 17),
            Token::cons(17),
            Token::create(TokenType::Literal(LiteralType::Character), 17),
            Token::cons(18),
            Token::create_long(
                TokenType::Literal(LiteralType::CharacterClass(CharacterClassType::Manual, false)),
                18,
                24
            ),
            Token::cons(24),
            Token::open_group(24),
            Token::create(TokenType::Literal(LiteralType::Character), 25),
            Token::cons(26),
            Token::create(TokenType::Literal(LiteralType::Character), 26),
            Token::cons(27),
            Token::create(TokenType::Literal(LiteralType::Character), 27),
            Token::cons(28),
            Token::create(TokenType::Literal(LiteralType::Character), 28),
            Token::close_group(29),
            Token::cons(30),
            Token::create(TokenType::Literal(LiteralType::Character), 30),
        ],
        tokenize(r"abce[fg]+h*|i?j\kl[^a-c](abcd)i").unwrap()
    )
}
