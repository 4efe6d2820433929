use saltgrep::gex::machine::{GexMachine, State};
use saltgrep::gex::simple_machines::machine_for_character;

fn assert_match(gex_machine: &GexMachine, input: &str, match_string: &str) {
    let result = gex_machine.find(input);

    assert!(result.is_some());
    let result_match = result.unwrap();
    assert_eq!(match_string, &input[result_match.start..result_match.end]);
}

fn assert_full_match(gex_machine: &GexMachine, input: &str) {
    assert_match(gex_machine, input, input);
}

fn assert_no_match(gex_machine: &GexMachine, input: &str) {
    let result = gex_machine.find(input);

    assert!(result.is_none());
}

#[test]
fn machine_test_cons() {
    let gex_machine = machine_for_character('a')
        .cons(machine_for_character('b'))
        .cons(machine_for_character('c'));

    assert_full_match(&gex_machine, "abc");
    assert_no_match(&gex_machine, "cba");
}

#[test]
fn machine_test_or() {
    let gex_machine = machine_for_character('a').or(machine_for_character('b'));

    assert_full_match(&gex_machine, "a");
    assert_full_match(&gex_machine, "b");
    assert_match(&gex_machine, "aab", "a");
    assert_match(&gex_machine, "bab", "b");
    assert_match(&gex_machine, "babdef", "b");
    assert_no_match(&gex_machine, "c");
    assert_no_match(&gex_machine, "cdef");
}

#[test]
fn test_zero_or_more() {
    let gex_machine = machine_for_character('a').zero_or_more();

    assert_full_match(&gex_machine, "a");
    assert_full_match(&gex_machine, "aa");
    assert_full_match(&gex_machine, "aaaaa");
    assert_full_match(&gex_machine, "");

    assert_match(&gex_machine, "aab", "aa");
    assert_match(&gex_machine, "baaaaa", "");
    assert_match(&gex_machine, "c", "");
}

#[test]
fn test_zero_or_one() {
    let gex_machine = machine_for_character('a').zero_or_one();

    assert_full_match(&gex_machine, "a");
    assert_full_match(&gex_machine, "");

    assert_match(&gex_machine, "aa", "a");
    assert_match(&gex_machine, "aaaaa", "a");
    assert_match(&gex_machine, "aab", "a");
    assert_match(&gex_machine, "baaaaa", "");
    assert_match(&gex_machine, "c", "");
}

#[test]
fn test_one_or_more() {
    let gex_machine = machine_for_character('a').one_or_more();

    assert_full_match(&gex_machine, "a");
    assert_full_match(&gex_machine, "aa");
    assert_full_match(&gex_machine, "aaaaa");
    assert_match(&gex_machine, "aab", "aa");
    assert_match(&gex_machine, "baaaaa", "aaaaa");
    assert_no_match(&gex_machine, "");
}

#[test]
fn machine_test_multiple_alternation() {
    let gex_machine = machine_for_character('a')
        .or(machine_for_character('b'))
        .or(machine_for_character('c'));

    assert_full_match(&gex_machine, "a");
    assert_full_match(&gex_machine, "b");
    assert_full_match(&gex_machine, "c");
    assert_no_match(&gex_machine, "d");
}

#[test]
fn test_complex_composition() {
    // pattern: `(a|b)+ca?b*`
    let gex_machine = machine_for_character('a')
        .or(machine_for_character('b'))
        .one_or_more()
        .cons(machine_for_character('c'))
        .cons(machine_for_character('a').zero_or_one())
        .cons(machine_for_character('b').zero_or_more());

    assert_full_match(&gex_machine, "ac");
    assert_full_match(&gex_machine, "bc");
    assert_full_match(&gex_machine, "abbacabb");
    assert_full_match(&gex_machine, "bcbbbb");
    assert_full_match(&gex_machine, "baaaabcabbbb");
}

#[test]
fn test_state_short_circuit() {
    let state = State::short_circuit_from_transitions(vec![]);

    assert!(state.short_circuit());
}
