//! Lexer for the pattern language. A pattern string becomes a sequence of
//! tokens with byte spans; zero-width concatenation tokens are inserted
//! between adjacent atoms so that the parser only sees binary operators.

use vstd::prelude::*;

verus! {

use crate::text::{char_len, char_utf8_len, str_to_chars};

/// A lexical fault, carrying the byte offset of the offending syntax.
#[derive(Debug, Clone, Copy, PartialEq, Eq, Structural)]
pub enum TokenizeError {
    EmptyCharacterSet(usize),
    UnterminatedCharacterSet(usize),
    UnterminatedEscape(usize),
}

#[derive(Debug, PartialEq, Eq, Structural, Clone, Copy)]
pub enum QuantifierType {
    ZeroOrMore,
    OneOrMore,
    ZeroOrOne,
}

#[derive(Debug, PartialEq, Eq, Structural, Clone, Copy)]
pub enum CharacterClassType {
    Manual,
    Whitespace,
    Digit,
    Word,
}

#[derive(Debug, PartialEq, Eq, Structural, Clone, Copy)]
pub enum LiteralType {
    Wildcard,
    Character,
    EscapedCharacter,
    CharacterClass(CharacterClassType, bool),
    EmptyString,
}

#[derive(Debug, PartialEq, Eq, Structural, Clone, Copy)]
pub enum TokenType {
    Quantifier(QuantifierType),
    Alternation,
    Cons,
    Literal(LiteralType),
    OpenGroup,
    CloseGroup,
}

#[derive(Debug, PartialEq, Eq, Clone, Copy)]
pub struct Token {
    pub kind: TokenType,
    /// Byte span of the token in the source string, inclusive-exclusive.
    pub position: (usize, usize),
    pub flags: u8,
}

/// The token that `create_long` builds, for use in specifications.
pub open spec fn spec_token(kind: TokenType, start: int, end: int) -> Token {
    Token { kind, position: (start as usize, end as usize), flags: 0u8 }
}

/// A token after which an adjacent atom means concatenation.
pub open spec fn spec_should_join(t: Token) -> bool {
    match t.kind {
        TokenType::CloseGroup => true,
        TokenType::Quantifier(_) => true,
        TokenType::Literal(_) => true,
        _ => false,
    }
}

pub fn should_join_literals(token: &Token) -> (r: bool)
    ensures
        r == spec_should_join(*token),
{
    match &token.kind {
        TokenType::CloseGroup | TokenType::Quantifier(_) | TokenType::Literal(_) => true,
        _ => false,
    }
}

impl Token {
    pub fn create_long(kind: TokenType, start_position: usize, end_position: usize) -> (t: Token)
        ensures
            t == spec_token(kind, start_position as int, end_position as int),
    {
        Token { kind, position: (start_position, end_position), flags: 0u8 }
    }

    pub fn create(kind: TokenType, position: usize) -> (t: Token)
        requires
            position < usize::MAX,
        ensures
            t == spec_token(kind, position as int, position + 1),
    {
        Token::create_long(kind, position, position + 1)
    }

    pub fn cons(position: usize) -> (t: Token)
        ensures
            t == spec_token(TokenType::Cons, position as int, position as int),
    {
        Token::create_long(TokenType::Cons, position, position)
    }

    pub fn quantifier(kind: QuantifierType, position: usize) -> (t: Token)
        requires
            position < usize::MAX,
        ensures
            t == spec_token(TokenType::Quantifier(kind), position as int, position + 1),
    {
        Token::create(TokenType::Quantifier(kind), position)
    }

    pub fn open_group(position: usize) -> (t: Token)
        requires
            position < usize::MAX,
        ensures
            t == spec_token(TokenType::OpenGroup, position as int, position + 1),
    {
        Token::create(TokenType::OpenGroup, position)
    }

    pub fn close_group(position: usize) -> (t: Token)
        requires
            position < usize::MAX,
        ensures
            t == spec_token(TokenType::CloseGroup, position as int, position + 1),
    {
        Token::create(TokenType::CloseGroup, position)
    }

    /// The byte span as a range.
    pub fn input_range(&self) -> (r: std::ops::Range<usize>)
        ensures
            r.start == self.position.0,
            r.end == self.position.1,
    {
        std::ops::Range { start: self.position.0, end: self.position.1 }
    }

    /// A zero-width empty-string literal at `position`.
    pub fn empty_string(position: usize) -> (t: Token)
        ensures
            t == spec_token(
                TokenType::Literal(LiteralType::EmptyString),
                position as int,
                position as int,
            ),
    {
        Token {
            kind: TokenType::Literal(LiteralType::EmptyString),
            position: (position, position),
            flags: 0u8,
        }
    }

    pub fn start(&self) -> (r: usize)
        ensures
            r == self.position.0,
    {
        self.position.0
    }

    pub fn end(&self) -> (r: usize)
        ensures
            r == self.position.1,
    {
        self.position.1
    }

    fn get_precedence(&self) -> (r: i8)
        ensures
            r as int == spec_precedence(self.kind),
    {
        -(match &self.kind {
            TokenType::CloseGroup => 4,
            TokenType::Quantifier(_) => 5,
            TokenType::Cons => 6,
            TokenType::Alternation => 8,
            TokenType::OpenGroup => 10,
            TokenType::Literal(_) => 0,
        })
    }

    /// True when `self` binds tighter than `other`.
    pub fn precedes(&self, other: &Token) -> (r: bool)
        ensures
            r == (spec_precedence(self.kind) > spec_precedence(other.kind)),
    {
        self.get_precedence() > other.get_precedence()
    }

    pub fn same_precedence_as(&self, other: &Token) -> (r: bool)
        ensures
            r == (spec_precedence(self.kind) == spec_precedence(other.kind)),
    {
        self.get_precedence() == other.get_precedence()
    }
}

impl crate::operators::Operator for Token {
    fn arity(&self) -> crate::operators::Arity {
        match self.kind {
            TokenType::Quantifier(_) | TokenType::CloseGroup => crate::operators::Arity::Unary,
            TokenType::Cons | TokenType::Alternation => crate::operators::Arity::Binary,
            _ => crate::operators::Arity::NoOp,
        }
    }
}

/// Negated binding strength: smaller means tighter, so the shunting-yard pass
/// can pop while the stack top is not strictly weaker.
pub open spec fn spec_precedence(k: TokenType) -> int {
    match k {
        TokenType::CloseGroup => -4,
        TokenType::Quantifier(_) => -5,
        TokenType::Cons => -6,
        TokenType::Alternation => -8,
        TokenType::OpenGroup => -10,
        TokenType::Literal(_) => 0,
    }
}

/// Appends a zero-width concatenation token when the previously emitted token
/// can end an atom.
pub open spec fn spec_with_cons(acc: Seq<Token>) -> Seq<Token> {
    if acc.len() > 0 && spec_should_join(acc.last()) {
        acc.push(
            spec_token(TokenType::Cons, acc.last().position.1 as int, acc.last().position.1 as int),
        )
    } else {
        acc
    }
}

/// Scans a manual character class for its closing bracket, starting after the
/// opening `[` (and after a leading `^`, when present). Returns the scalar
/// index just past `]` and the byte offset just past `]`.
pub open spec fn spec_scan_class(
    cs: Seq<char>,
    i: int,
    npos: int,
    prev: char,
    count: int,
    start_pos: int,
) -> Result<(int, int), TokenizeError>
    decreases cs.len() - i,
{
    if i < 0 || i >= cs.len() {
        Err(TokenizeError::UnterminatedCharacterSet(start_pos as usize))
    } else {
        let c = cs[i];
        if c == ']' && prev != '\\' {
            if count == 0 {
                Err(TokenizeError::EmptyCharacterSet(start_pos as usize))
            } else {
                Ok((i + 1, npos + 1))
            }
        } else {
            spec_scan_class(cs, i + 1, npos + char_len(c), c, count + 1, start_pos)
        }
    }
}

/// One step of the tokenizer at scalar index `i` and byte offset `pos`:
/// the tokens after the step, the next scalar index and the next byte offset.
pub open spec fn spec_munch(cs: Seq<char>, i: int, pos: int, acc: Seq<Token>) -> Result<
    (Seq<Token>, int, int),
    TokenizeError,
>
    recommends
        0 <= i < cs.len(),
{
    let c = cs[i];
    if c == '(' {
        Ok((spec_with_cons(acc).push(spec_token(TokenType::OpenGroup, pos, pos + 1)), i + 1, pos + 1))
    } else if c == ')' {
        Ok((acc.push(spec_token(TokenType::CloseGroup, pos, pos + 1)), i + 1, pos + 1))
    } else if c == '[' {
        let acc2 = spec_with_cons(acc);
        let inverted = i + 1 < cs.len() && cs[i + 1] == '^';
        let j0 = if inverted { i + 2 } else { i + 1 };
        let npos0 = if inverted { pos + 2 } else { pos + 1 };
        match spec_scan_class(cs, j0, npos0, '\0', 0, pos) {
            Ok((ni, endpos)) => Ok(
                (
                    acc2.push(
                        spec_token(
                            TokenType::Literal(
                                LiteralType::CharacterClass(CharacterClassType::Manual, !inverted),
                            ),
                            pos,
                            endpos,
                        ),
                    ),
                    ni,
                    endpos,
                ),
            ),
            Err(e) => Err(e),
        }
    } else if c == '|' {
        Ok((acc.push(spec_token(TokenType::Alternation, pos, pos + 1)), i + 1, pos + 1))
    } else if c == '*' {
        Ok(
            (
                acc.push(spec_token(TokenType::Quantifier(QuantifierType::ZeroOrMore), pos, pos + 1)),
                i + 1,
                pos + 1,
            ),
        )
    } else if c == '+' {
        Ok(
            (
                acc.push(spec_token(TokenType::Quantifier(QuantifierType::OneOrMore), pos, pos + 1)),
                i + 1,
                pos + 1,
            ),
        )
    } else if c == '?' {
        Ok(
            (
                acc.push(spec_token(TokenType::Quantifier(QuantifierType::ZeroOrOne), pos, pos + 1)),
                i + 1,
                pos + 1,
            ),
        )
    } else if c == '\\' {
        let acc2 = spec_with_cons(acc);
        if i + 1 >= cs.len() {
            Err(TokenizeError::UnterminatedEscape(pos as usize))
        } else {
            let c2 = cs[i + 1];
            let end = pos + 1 + char_len(c2);
            let kind = if c2 == 's' || c2 == 'S' {
                TokenType::Literal(
                    LiteralType::CharacterClass(CharacterClassType::Whitespace, c2 == 's'),
                )
            } else if c2 == 'w' || c2 == 'W' {
                TokenType::Literal(LiteralType::CharacterClass(CharacterClassType::Word, c2 == 'w'))
            } else if c2 == 'd' || c2 == 'D' {
                TokenType::Literal(LiteralType::CharacterClass(CharacterClassType::Digit, c2 == 'd'))
            } else {
                TokenType::Literal(LiteralType::EscapedCharacter)
            };
            Ok((acc2.push(spec_token(kind, pos, end)), i + 2, end))
        }
    } else if c == '.' {
        Ok(
            (
                spec_with_cons(acc).push(
                    spec_token(TokenType::Literal(LiteralType::Wildcard), pos, pos + 1),
                ),
                i + 1,
                pos + 1,
            ),
        )
    } else {
        Ok(
            (
                spec_with_cons(acc).push(
                    spec_token(TokenType::Literal(LiteralType::Character), pos, pos + char_len(c)),
                ),
                i + 1,
                pos + char_len(c),
            ),
        )
    }
}

/// The tokenizer from scalar index `i` on. The scalar index returned by a step
/// is clamped into `(i, cs.len()]`; the step always lands there anyway.
pub open spec fn spec_tokenize_from(cs: Seq<char>, i: int, pos: int, acc: Seq<Token>) -> Result<
    Seq<Token>,
    TokenizeError,
>
    decreases cs.len() - i,
{
    if i < 0 || i >= cs.len() {
        Ok(acc)
    } else {
        match spec_munch(cs, i, pos, acc) {
            Ok((acc2, ni, npos)) => {
                let ni2 = if ni <= i {
                    i + 1
                } else if ni > cs.len() {
                    cs.len() as int
                } else {
                    ni
                };
                spec_tokenize_from(cs, ni2, npos, acc2)
            },
            Err(e) => Err(e),
        }
    }
}

/// What `tokenize` returns on a pattern with the given scalars.
pub open spec fn spec_tokenize(cs: Seq<char>) -> Result<Seq<Token>, TokenizeError> {
    spec_tokenize_from(cs, 0, 0, Seq::empty())
}

/// Appends a zero-width concatenation token when the last emitted token can
/// end an atom and the next one can begin an atom.
fn insert_cons(tokens: &mut Vec<Token>)
    ensures
        final(tokens)@ == spec_with_cons(old(tokens)@),
{
    if tokens.len() > 0 {
        let last = tokens[tokens.len() - 1];
        if should_join_literals(&last) {
            tokens.push(Token::cons(last.position.1));
        }
    }
}

/// Splits a pattern into tokens with byte spans, inserting implicit
/// concatenation tokens between adjacent atoms. Errors carry the byte offset
/// of the offending syntax: an empty or unterminated `[...]` class, or `\` at
/// the end of the pattern.
#[verifier::loop_isolation(false)]
pub fn tokenize(in_str: &str) -> (r: Result<Vec<Token>, TokenizeError>)
    requires
        4 * in_str@.len() <= usize::MAX,
    ensures
        match r {
            Ok(v) => spec_tokenize(in_str@) == Ok::<Seq<Token>, TokenizeError>(v@),
            Err(e) => spec_tokenize(in_str@) == Err::<Seq<Token>, TokenizeError>(e),
        },
{
    let chars = str_to_chars(in_str);
    let n = chars.len();
    let mut tokens: Vec<Token> = Vec::new();
    let mut i: usize = 0;
    let mut pos: usize = 0;
    while i < n
        invariant
            chars@ == in_str@,
            n == chars@.len(),
            4 * n <= usize::MAX,
            i <= n,
            pos <= 4 * i,
            spec_tokenize(in_str@) == spec_tokenize_from(chars@, i as int, pos as int, tokens@),
        decreases n - i,
    {
        let c = chars[i];
        let ghost prev_tokens = tokens@;
        let ghost prev_i = i as int;
        let ghost prev_pos = pos as int;
        if c == '(' {
            insert_cons(&mut tokens);
            tokens.push(Token::open_group(pos));
            i = i + 1;
            pos = pos + 1;
        } else if c == ')' {
            tokens.push(Token::close_group(pos));
            i = i + 1;
            pos = pos + 1;
        } else if c == '[' {
            insert_cons(&mut tokens);
            let start_pos = pos;
            let mut j = i + 1;
            let mut npos = pos + 1;
            let mut inverted = false;
            if j < n && chars[j] == '^' {
                inverted = true;
                j = j + 1;
                npos = npos + 1;
            }
            let ghost j0 = j as int;
            let ghost npos0 = npos as int;
            let mut prev: char = '\0';
            let mut count: usize = 0;
            let mut closed = false;
            while !closed
                invariant
                    j0 <= j <= n,
                    npos <= 4 * j,
                    count <= j,
                    !closed ==> spec_scan_class(chars@, j0, npos0, '\0', 0, start_pos as int)
                        == spec_scan_class(
                        chars@,
                        j as int,
                        npos as int,
                        prev,
                        count as int,
                        start_pos as int,
                    ),
                    closed ==> spec_scan_class(chars@, j0, npos0, '\0', 0, start_pos as int)
                        == Ok::<(int, int), TokenizeError>((j as int, npos as int)),
                decreases n - j,
            {
                if j >= n {
                    proof {
                        assert(spec_tokenize(in_str@) == Err::<Seq<Token>, TokenizeError>(
                            TokenizeError::UnterminatedCharacterSet(start_pos),
                        ));
                    }
                    return Err(TokenizeError::UnterminatedCharacterSet(start_pos));
                }
                let cj = chars[j];
                if cj == ']' && prev != '\\' {
                    if count == 0 {
                        proof {
                            assert(spec_tokenize(in_str@) == Err::<Seq<Token>, TokenizeError>(
                                TokenizeError::EmptyCharacterSet(start_pos),
                            ));
                        }
                        return Err(TokenizeError::EmptyCharacterSet(start_pos));
                    }
                    npos = npos + 1;
                    j = j + 1;
                    closed = true;
                } else {
                    npos = npos + char_utf8_len(cj);
                    j = j + 1;
                    prev = cj;
                    count = count + 1;
                }
            }
            tokens.push(
                Token::create_long(
                    TokenType::Literal(
                        LiteralType::CharacterClass(CharacterClassType::Manual, !inverted),
                    ),
                    start_pos,
                    npos,
                ),
            );
            i = j;
            pos = npos;
        } else if c == '|' {
            tokens.push(Token::create(TokenType::Alternation, pos));
            i = i + 1;
            pos = pos + 1;
        } else if c == '*' {
            tokens.push(Token::quantifier(QuantifierType::ZeroOrMore, pos));
            i = i + 1;
            pos = pos + 1;
        } else if c == '+' {
            tokens.push(Token::quantifier(QuantifierType::OneOrMore, pos));
            i = i + 1;
            pos = pos + 1;
        } else if c == '?' {
            tokens.push(Token::quantifier(QuantifierType::ZeroOrOne, pos));
            i = i + 1;
            pos = pos + 1;
        } else if c == '\\' {
            insert_cons(&mut tokens);
            if i + 1 >= n {
                proof {
                    assert(spec_tokenize(in_str@) == Err::<Seq<Token>, TokenizeError>(
                        TokenizeError::UnterminatedEscape(pos),
                    ));
                }
                return Err(TokenizeError::UnterminatedEscape(pos));
            }
            let c2 = chars[i + 1];
            let end = pos + 1 + char_utf8_len(c2);
            let kind: TokenType = if c2 == 's' || c2 == 'S' {
                TokenType::Literal(
                    LiteralType::CharacterClass(CharacterClassType::Whitespace, c2 == 's'),
                )
            } else if c2 == 'w' || c2 == 'W' {
                TokenType::Literal(LiteralType::CharacterClass(CharacterClassType::Word, c2 == 'w'))
            } else if c2 == 'd' || c2 == 'D' {
                TokenType::Literal(LiteralType::CharacterClass(CharacterClassType::Digit, c2 == 'd'))
            } else {
                TokenType::Literal(LiteralType::EscapedCharacter)
            };
            tokens.push(Token::create_long(kind, pos, end));
            i = i + 2;
            pos = end;
        } else if c == '.' {
            insert_cons(&mut tokens);
            tokens.push(Token::create(TokenType::Literal(LiteralType::Wildcard), pos));
            i = i + 1;
            pos = pos + 1;
        } else {
            insert_cons(&mut tokens);
            let end = pos + char_utf8_len(c);
            tokens.push(Token::create_long(TokenType::Literal(LiteralType::Character), pos, end));
            i = i + 1;
            pos = end;
        }
        proof {
            assert(spec_tokenize_from(chars@, prev_i, prev_pos, prev_tokens)
                == spec_tokenize_from(chars@, i as int, pos as int, tokens@));
        }
    }
    Ok(tokens)
}

/// A pattern whose last scalar is a bare backslash fails with an
/// unterminated escape at that scalar's byte offset, whenever the tokenizer
/// reaches it.
pub proof fn lemma_trailing_escape(cs: Seq<char>, i: int, pos: int, acc: Seq<Token>)
    requires
        0 <= i,
        i == cs.len() - 1,
        cs.last() == '\\',
    ensures
        spec_tokenize_from(cs, i, pos, acc) == Err::<Seq<Token>, TokenizeError>(
            TokenizeError::UnterminatedEscape(pos as usize),
        ),
{
}

} // verus!
