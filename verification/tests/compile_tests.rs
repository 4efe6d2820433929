use saltgrep::compile::compile;
use saltgrep::matcher::Match;

fn assert_match(pattern: &str, input: &str, match_string: &str) {
    let gex_machine = compile(pattern);
    let result = gex_machine.find(input);

    assert!(result.is_some());
    let result_match = result.unwrap();
    assert_eq!(match_string, &input[result_match.start..result_match.end]);
}

fn assert_full_match(pattern: &str, input: &str) {
    assert_match(pattern, input, input);
}

fn assert_no_match(pattern: &str, input: &str) {
    let gex_machine = compile(pattern);
    let result = gex_machine.find(input);

    assert!(result.is_none());
}

#[test]
fn compile_test_nfa() {
    assert_full_match(r"abcd+(efg)|i", r"i");
}

#[test]
fn compile_test_exotic_cases() {
    assert_full_match(r"ab\c.d+(efg)|i", r"abcxdddefg");
}

#[test]
fn compile_test_word_char_class() {
    assert_full_match(r"\w", r"a");
    assert_full_match(r"\w+", r"abfhkg10235_1204");

    assert_no_match(r"\w", r"-");
    assert_no_match(r"\w+", r"%^$//-");

    assert_full_match(r"\W", r"&");
    assert_match(r"\W+", r"%^$//_0-", r"%^$//");

    assert_no_match(r"\W", r"a");
    assert_no_match(r"\W+", r"abckjdjfk");
}

#[test]
fn compile_test_digit_char_class() {
    assert_full_match(r"\d", r"0");
    assert_full_match(r"\d+", r"1234567890");

    assert_no_match(r"\d", r"^");
    assert_no_match(r"\d+", r"abc(*");

    assert_full_match(r"\D", r"a");
    assert_full_match(r"\D+", r"cddfi*&^w");

    assert_no_match(r"\D", r"1");
    assert_no_match(r"\D+", r"12345");
}

#[test]
fn compile_test_whitespace_char_class() {
    assert_full_match(r"\s", r" ");
    assert_full_match(r"\s+", " \n");

    assert_no_match(r"\s", r"d");
    assert_no_match(r"\s+", r"abc(*");

    assert_full_match(r"\S", r"d");
    assert_full_match(r"\S+", r"cddfi*&^w");

    assert_no_match(r"\S", "\n");
    assert_no_match(r"\S+", "  \n  ");
}

#[test]
fn compile_test_basic_character_class() {
    assert_full_match(r"[abc]", r"b");
    assert_full_match(r"[a-z]", r"x");
    assert_full_match(r"[a-zA-Z]", r"Y");

    assert_no_match(r"[abc]", r"d");
    assert_no_match(r"[a-z]", r"X");
    assert_no_match(r"[a-zA-Z]", r"5");
}

#[test]
fn compile_test_basic_negative_character_class() {
    assert_full_match(r"[^abc]", r"d");
    assert_full_match(r"[^a-z]", r"A");
    assert_full_match(r"[^a-zA-Z]", r"5");

    assert_no_match(r"[^abc]", r"c");
    assert_no_match(r"[^a-z]", r"a");
    assert_no_match(r"[^a-zA-Z]", r"X");
}

#[test]
fn compile_test_quantified_character_class() {
    assert!(compile(r"[abc]+").find(r"abcabccba").is_some());
    assert!(compile(r"[^abc]+").find(r"def").is_some());
    assert_full_match(r"[a-z]*", r"a");
    assert_full_match(r"[^a-z]?", r"A");
    assert!(compile(r"[a-zA-Z]+").find(r"abcdAXZ").is_some());
    assert!(compile(r"[^a-zA-Z]*").find(r"52787&^%$").is_some());

    assert!(compile(r"[abc]+").find(r"defdfk").is_none());
    assert!(compile(r"[^abc]+").find(r"abc").is_none());
    assert!(compile(r"[a-z]+").find(r"ABC").is_none());
    assert!(compile(r"[^a-z]+").find(r"abc").is_none());
    assert!(compile(r"[a-zA-Z]+").find(r"1203845").is_none());
    assert!(compile(r"[^a-zA-Z]+").find(r"abcACCD").is_none());
}

#[test]
fn compile_test_simple_capturing_group() {
    let machine = compile(r"(abc)");
    let wrapped_captures = machine.captures(r"abcdfdefg");

    assert!(wrapped_captures.is_some());

    let captures = wrapped_captures.unwrap();

    assert_eq!(*captures.get(&1).unwrap(), Match { start: 0, end: 3 });
    assert_eq!(captures.len(), 2);
}

#[test]
fn compile_test_simple_staggered_capturing_group() {
    let machine = compile(r"123(abc)");
    let wrapped_captures = machine.captures(r"123abcdfdefg");

    assert!(wrapped_captures.is_some());

    let captures = wrapped_captures.unwrap();

    assert_eq!(*captures.get(&1).unwrap(), Match { start: 3, end: 6 });
    assert_eq!(captures.len(), 2);
}

#[test]
fn compile_test_capturing_group() {
    assert_full_match(r"(abc)df(defg)(123)", r"abcdfdefg123");

    let machine = compile(r"(abc)df(defg)(123)");

    let wrapped_captures = machine.captures(r"abcdfdefg123");

    assert!(wrapped_captures.is_some());

    let captures = wrapped_captures.unwrap();

    assert_eq!(*captures.get(&1).unwrap(), Match { start: 0, end: 3 });
    assert_eq!(*captures.get(&2).unwrap(), Match { start: 5, end: 9 });
    assert_eq!(*captures.get(&3).unwrap(), Match { start: 9, end: 12 });
    assert_eq!(captures.len(), 4);
}

#[test]
fn compile_test_capturing_group_with_alternation1() {
    let machine = compile(r"(abc)df(defg)|(123)");

    let wrapped_captures = machine.captures(r"abcdfdefg123");

    assert!(wrapped_captures.is_some());

    let captures = wrapped_captures.unwrap();

    assert_eq!(*captures.get(&0).unwrap(), Match { start: 0, end: 9 });
    assert_eq!(*captures.get(&1).unwrap(), Match { start: 0, end: 3 });
    assert_eq!(*captures.get(&2).unwrap(), Match { start: 5, end: 9 });
    assert_eq!(captures.len(), 3);
}

#[test]
fn compile_test_capturing_group_with_alternation2() {
    let machine = compile(r"(abc)df(defg)|(123)");

    let wrapped_captures = machine.captures(r"123abcdfdefg");

    assert!(wrapped_captures.is_some());

    let captures = wrapped_captures.unwrap();

    assert_eq!(*captures.get(&0).unwrap(), Match { start: 0, end: 3 });
    assert_eq!(*captures.get(&3).unwrap(), Match { start: 0, end: 3 });
    assert_eq!(captures.len(), 2);
}

#[test]
fn compile_test_capturing_group_with_alternation3() {
    let machine = compile(r"(abc)df(defg)|(1(23)a)");

    let wrapped_captures = machine.captures(r"123abcdfdefg");

    assert!(wrapped_captures.is_some());

    let captures = wrapped_captures.unwrap();

    assert_eq!(*captures.get(&0).unwrap(), Match { start: 0, end: 4 });
    assert_eq!(*captures.get(&3).unwrap(), Match { start: 0, end: 4 });
    assert_eq!(*captures.get(&4).unwrap(), Match { start: 1, end: 3 });
    assert_eq!(captures.len(), 3);
}

#[test]
fn compile_test_nested_capturing_group() {
    let machine = compile(r"(a(bc(de)))df(defg)");

    let wrapped_captures = machine.captures(r"abcdedfdefgh");

    assert!(wrapped_captures.is_some());

    let captures = wrapped_captures.unwrap();

    assert_eq!(*captures.get(&0).unwrap(), Match { start: 0, end: 11 });
    assert_eq!(*captures.get(&1).unwrap(), Match { start: 0, end: 5 });
    assert_eq!(*captures.get(&2).unwrap(), Match { start: 1, end: 5 });
    assert_eq!(*captures.get(&3).unwrap(), Match { start: 3, end: 5 });
    assert_eq!(*captures.get(&4).unwrap(), Match { start: 7, end: 11 });
    assert_eq!(captures.len(), 5);
}

#[test]
fn compile_test_empty_group() {
    let machine = compile(r"()af(())d(f()f)");

    let wrapped_captures = machine.captures(r"afdffdiui");
    assert!(wrapped_captures.is_some());
    let captures = wrapped_captures.unwrap();
    assert_eq!(*captures.get(&0).unwrap(), Match { start: 0, end: 5 });
    assert_eq!(*captures.get(&1).unwrap(), Match { start: 0, end: 0 });
    assert_eq!(*captures.get(&2).unwrap(), Match { start: 2, end: 2 });
    assert_eq!(*captures.get(&3).unwrap(), Match { start: 2, end: 2 });
    assert_eq!(*captures.get(&4).unwrap(), Match { start: 3, end: 5 });
    assert_eq!(*captures.get(&5).unwrap(), Match { start: 4, end: 4 });
    assert_eq!(captures.len(), 6);
}
