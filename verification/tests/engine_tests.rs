//! Behaviors of the compiled engine beyond the per-module checks: iterated
//! matching, Unicode byte offsets, scan offsets, and the compile-time faults.

use saltgrep::compile::compiler::{compile, CompilerError};
use saltgrep::matcher::Match;
use saltgrep::railroad::SyntaxError;
use saltgrep::tokenize::TokenizeError;

#[test]
fn iterated_matches_are_ordered_and_disjoint() {
    let machine = compile("ab+").unwrap();
    let matches = machine.find_iter_at("cabb,abababbbbcdabbb", 0);
    let spans: Vec<(usize, usize)> = matches.iter().map(|m| (m.start, m.end)).collect();
    assert_eq!(spans, vec![(1, 4), (5, 7), (7, 9), (9, 14), (16, 20)]);
}

#[test]
fn iterated_zero_width_matches_advance() {
    let machine = compile("a*").unwrap();
    let matches = machine.find_iter_at("ba", 0);
    let spans: Vec<(usize, usize)> = matches.iter().map(|m| (m.start, m.end)).collect();
    assert_eq!(spans, vec![(0, 0), (1, 2), (2, 2)]);
}

#[test]
fn multibyte_offsets_are_byte_offsets() {
    let machine = compile("b").unwrap();
    assert_eq!(machine.find("\u{e9}\u{e9}b"), Some(Match { start: 4, end: 5 }));

    let wildcard = compile("..").unwrap();
    assert_eq!(wildcard.find("\u{1F600}a"), Some(Match { start: 0, end: 5 }));
}

#[test]
fn multibyte_literal_matches() {
    let machine = compile("caf\u{e9}").unwrap();
    assert_eq!(machine.find("un caf\u{e9} noir"), Some(Match { start: 3, end: 8 }));
}

#[test]
fn find_at_starts_where_asked() {
    let machine = compile("ab").unwrap();
    assert_eq!(machine.find_at("abxab", 0), Some(Match { start: 0, end: 2 }));
    assert_eq!(machine.find_at("abxab", 1), Some(Match { start: 3, end: 5 }));
    assert_eq!(machine.find_at("abxab", 4), None);
}

#[test]
fn captures_at_matches_find_span() {
    let machine = compile("x(y)").unwrap();
    let caps = machine.captures_at("zzxy", 1).unwrap();
    assert_eq!(*caps.get(&0).unwrap(), Match { start: 2, end: 4 });
    assert_eq!(*caps.get(&1).unwrap(), Match { start: 3, end: 4 });
    let found = machine.find_at("zzxy", 1).unwrap();
    assert_eq!(found, *caps.get(&0).unwrap());
}

#[test]
fn empty_pattern_is_refused() {
    let err = compile("").unwrap_err();
    assert!(matches!(err, CompilerError::Catastrophic(_)));
}

#[test]
fn decreasing_range_is_refused() {
    let err = compile("[z-a]").unwrap_err();
    assert!(matches!(
        err,
        CompilerError::SyntaxError(SyntaxError::InvalidCharacterRange(_))
    ));
}

#[test]
fn trailing_escape_is_refused() {
    let err = compile("ab\\").unwrap_err();
    assert!(matches!(
        err,
        CompilerError::LexicalError(TokenizeError::UnterminatedEscape(2))
    ));
}

#[test]
fn lexical_faults_surface_through_compile() {
    assert!(matches!(
        compile("a[]").unwrap_err(),
        CompilerError::LexicalError(TokenizeError::EmptyCharacterSet(1))
    ));
    assert!(matches!(
        compile("a[bc").unwrap_err(),
        CompilerError::LexicalError(TokenizeError::UnterminatedCharacterSet(1))
    ));
}

#[test]
fn syntactic_faults_surface_through_compile() {
    assert!(matches!(
        compile("*a").unwrap_err(),
        CompilerError::SyntaxError(SyntaxError::MissingQuantifierOperand(0))
    ));
    assert!(matches!(
        compile(")a").unwrap_err(),
        CompilerError::SyntaxError(SyntaxError::UnmatchedGroupClosure(0))
    ));
    assert!(matches!(
        compile("(ab").unwrap_err(),
        CompilerError::SyntaxError(SyntaxError::UnclosedGroup(0))
    ));
    assert!(matches!(
        compile("c|").unwrap_err(),
        CompilerError::SyntaxError(SyntaxError::MissingBinaryOperand(1))
    ));
}

#[test]
fn empty_group_matches_empty_string() {
    let machine = compile("()").unwrap();
    let found = machine.find("xyz").unwrap();
    assert_eq!(found, Match { start: 0, end: 0 });
    let caps = machine.captures("xyz").unwrap();
    assert_eq!(*caps.get(&1).unwrap(), Match { start: 0, end: 0 });
}

#[test]
fn full_span_negative_class() {
    let machine = compile("[^a-zA-Z]+").unwrap();
    assert_eq!(machine.find("52787&^%$"), Some(Match { start: 0, end: 9 }));
}

#[test]
fn exotic_alternation_covers_whole_string() {
    let machine = compile(r"ab\c.d+(efg)|i").unwrap();
    assert_eq!(machine.find("abcxdddefg"), Some(Match { start: 0, end: 10 }));
}

#[test]
fn escaped_class_rules_differ_from_literals() {
    let digits = compile(r"\d+").unwrap();
    assert_eq!(digits.find("ab123cd"), Some(Match { start: 2, end: 5 }));
    assert_eq!(digits.find("abcd"), None);

    let word = compile(r"\w").unwrap();
    assert!(word.find("_").is_some());
    assert!(word.find("-").is_none());

    let space = compile(r"\s").unwrap();
    assert!(space.find("\t").is_some());
    assert!(space.find("q").is_none());
}
