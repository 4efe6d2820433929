use saltgrep::gex::{GexMachine, Next, Rule, State};

fn assert_match(gex_machine: &GexMachine, input: &[u8]) {
    let result = gex_machine.find(input);

    assert!(result.is_some());
    let result_match = result.unwrap();
    assert_eq!(input, &input[result_match.start..result_match.end]);
}

#[test]
fn gex_test_cons() {
    // pattern: `ab+`
    let first = GexMachine {
        states: vec![
            State::from_transitions(vec![(Rule::Null, Next::Target(1))]),
            State::from_transitions(vec![(Rule::Range(b'a', b'a'), Next::Target(2))]),
            State::from_transitions(vec![(Rule::Range(b'b', b'b'), Next::Target(3))]),
            State::from_transitions(vec![
                (Rule::Range(b'b', b'b'), Next::Target(3)),
                (Rule::Null, Next::Target(4)),
            ]),
            State::from_transitions(vec![(Rule::Null, Next::Accept)]),
        ],
    };

    // pattern: `ab+c*d`
    let second = GexMachine {
        states: vec![
            State::from_transitions(vec![(Rule::Null, Next::Target(1))]),
            State::from_transitions(vec![(Rule::Range(b'a', b'a'), Next::Target(2))]),
            State::from_transitions(vec![(Rule::Range(b'b', b'b'), Next::Target(3))]),
            State::from_transitions(vec![
                (Rule::Range(b'b', b'b'), Next::Target(3)),
                (Rule::Null, Next::Target(4)),
            ]),
            State::from_transitions(vec![
                (Rule::Range(b'c', b'c'), Next::Target(4)),
                (Rule::Range(b'd', b'd'), Next::Target(5)),
            ]),
            State::from_transitions(vec![(Rule::Null, Next::Accept)]),
        ],
    };

    // pattern `ab+ab+c*d`
    let result = GexMachine {
        states: vec![
            State::from_transitions(vec![(Rule::Null, Next::Target(1))]),
            State::from_transitions(vec![(Rule::Range(b'a', b'a'), Next::Target(2))]),
            State::from_transitions(vec![(Rule::Range(b'b', b'b'), Next::Target(3))]),
            State::from_transitions(vec![
                (Rule::Range(b'b', b'b'), Next::Target(3)),
                (Rule::Null, Next::Target(4)),
            ]),
            State::from_transitions(vec![(Rule::Null, Next::Target(1 + 4))]),
            State::from_transitions(vec![(Rule::Range(b'a', b'a'), Next::Target(2 + 4))]),
            State::from_transitions(vec![(Rule::Range(b'b', b'b'), Next::Target(3 + 4))]),
            State::from_transitions(vec![
                (Rule::Range(b'b', b'b'), Next::Target(3 + 4)),
                (Rule::Null, Next::Target(4 + 4)),
            ]),
            State::from_transitions(vec![
                (Rule::Range(b'c', b'c'), Next::Target(4 + 4)),
                (Rule::Range(b'd', b'd'), Next::Target(5 + 4)),
            ]),
            State::from_transitions(vec![(Rule::Null, Next::Accept)]),
        ],
    };

    assert_eq!(first.cons(second), result);
}

#[test]
fn gex_test_or() {
    // pattern: `ab+`
    let first = GexMachine {
        states: vec![
            State::from_transitions(vec![(Rule::Null, Next::Target(1))]),
            State::from_transitions(vec![(Rule::Range(b'a', b'a'), Next::Target(2))]),
            State::from_transitions(vec![(Rule::Range(b'b', b'b'), Next::Target(3))]),
            State::from_transitions(vec![
                (Rule::Range(b'b', b'b'), Next::Target(3)),
                (Rule::Null, Next::Target(4)),
            ]),
            State::from_transitions(vec![(Rule::Null, Next::Accept)]),
        ],
    };

    // pattern: `ab+c*d`
    let second = GexMachine {
        states: vec![
            State::from_transitions(vec![(Rule::Null, Next::Target(1))]),
            State::from_transitions(vec![(Rule::Range(b'a', b'a'), Next::Target(2))]),
            State::from_transitions(vec![(Rule::Range(b'b', b'b'), Next::Target(3))]),
            State::from_transitions(vec![
                (Rule::Range(b'b', b'b'), Next::Target(3)),
                (Rule::Null, Next::Target(4)),
            ]),
            State::from_transitions(vec![
                (Rule::Range(b'c', b'c'), Next::Target(4)),
                (Rule::Range(b'd', b'd'), Next::Target(5)),
            ]),
            State::from_transitions(vec![(Rule::Null, Next::Accept)]),
        ],
    };

    let result = GexMachine {
        states: vec![
            State::from_transitions(vec![
                (Rule::Null, Next::Target(1)),
                (Rule::Null, Next::Target(5)),
            ]),
            State::from_transitions(vec![(Rule::Range(b'a', b'a'), Next::Target(2))]),
            State::from_transitions(vec![(Rule::Range(b'b', b'b'), Next::Target(3))]),
            State::from_transitions(vec![
                (Rule::Range(b'b', b'b'), Next::Target(3)),
                (Rule::Null, Next::Target(4)),
            ]),
            State::from_transitions(vec![(Rule::Null, Next::Target(10))]),
            State::from_transitions(vec![(Rule::Null, Next::Target(1 + 5))]),
            State::from_transitions(vec![(Rule::Range(b'a', b'a'), Next::Target(2 + 5))]),
            State::from_transitions(vec![(Rule::Range(b'b', b'b'), Next::Target(3 + 5))]),
            State::from_transitions(vec![
                (Rule::Range(b'b', b'b'), Next::Target(3 + 5)),
                (Rule::Null, Next::Target(4 + 5)),
            ]),
            State::from_transitions(vec![
                (Rule::Range(b'c', b'c'), Next::Target(4 + 5)),
                (Rule::Range(b'd', b'd'), Next::Target(5 + 5)),
            ]),
            State::from_transitions(vec![(Rule::Null, Next::Accept)]),
        ],
    };

    assert_eq!(first.or(second), result);
}

#[test]
fn gex_test_multiple_alternation() {
    let match_a = GexMachine {
        states: vec![
            State::from_transitions(vec![(Rule::Null, Next::Target(1))]),
            State::from_transitions(vec![(Rule::Range(b'a', b'a'), Next::Target(2))]),
            State::from_transitions(vec![(Rule::Null, Next::Accept)]),
        ],
    };

    let match_b = GexMachine {
        states: vec![
            State::from_transitions(vec![(Rule::Null, Next::Target(1))]),
            State::from_transitions(vec![(Rule::Range(b'b', b'b'), Next::Target(2))]),
            State::from_transitions(vec![(Rule::Null, Next::Accept)]),
        ],
    };

    let match_c = GexMachine {
        states: vec![
            State::from_transitions(vec![(Rule::Null, Next::Target(1))]),
            State::from_transitions(vec![(Rule::Range(b'c', b'c'), Next::Target(2))]),
            State::from_transitions(vec![(Rule::Null, Next::Accept)]),
        ],
    };

    let gex_machine = match_a.or(match_b).or(match_c);

    assert_match(&gex_machine, b"a");
    assert_match(&gex_machine, b"b");
    assert_match(&gex_machine, b"c");
}

#[test]
fn test_alternation_with_cons() {
    let match_a = GexMachine {
        states: vec![
            State::from_transitions(vec![(Rule::Null, Next::Target(1))]),
            State::from_transitions(vec![(Rule::Range(b'a', b'a'), Next::Target(2))]),
            State::from_transitions(vec![(Rule::Null, Next::Accept)]),
        ],
    };

    let match_b = GexMachine {
        states: vec![
            State::from_transitions(vec![(Rule::Null, Next::Target(1))]),
            State::from_transitions(vec![(Rule::Range(b'b', b'b'), Next::Target(2))]),
            State::from_transitions(vec![(Rule::Null, Next::Accept)]),
        ],
    };

    let match_c = GexMachine {
        states: vec![
            State::from_transitions(vec![(Rule::Null, Next::Target(1))]),
            State::from_transitions(vec![(Rule::Range(b'c', b'c'), Next::Target(2))]),
            State::from_transitions(vec![(Rule::Null, Next::Accept)]),
        ],
    };

    // pattern: `(a|b)c`
    let gex_machine = match_a.clone().or(match_b.clone()).cons(match_c.clone());

    assert_match(&gex_machine, b"ac");
    assert_match(&gex_machine, b"bc");

    // pattern: `ab|c`
    let gex_machine = match_a.clone().cons(match_b.clone()).or(match_c.clone());

    assert_match(&gex_machine, b"ab");
    assert_match(&gex_machine, b"c");
}

#[test]
fn gex_test_simple_match() {
    // pattern: `ab+`
    let gex_machine = GexMachine {
        states: vec![
            State::from_transitions(vec![(Rule::Null, Next::Target(1))]),
            State::from_transitions(vec![(Rule::Range(b'a', b'a'), Next::Target(2))]),
            State::from_transitions(vec![(Rule::Range(b'b', b'b'), Next::Target(3))]),
            State::from_transitions(vec![
                (Rule::Range(b'b', b'b'), Next::Target(3)),
                (Rule::Null, Next::Target(4)),
            ]),
            State::from_transitions(vec![(Rule::Null, Next::Accept)]),
        ],
    };

    let test = b"abcd";
    let result = gex_machine.find(test);

    assert!(result.is_some());
    let test_match = result.unwrap();
    assert_eq!(b"ab", &test[test_match.start..test_match.end]);
}

#[test]
fn gex_test_complex_match() {
    // pattern: `ab+c*d`
    let gex_machine = GexMachine {
        states: vec![
            State::from_transitions(vec![(Rule::Null, Next::Target(1))]),
            State::from_transitions(vec![(Rule::Range(b'a', b'a'), Next::Target(2))]),
            State::from_transitions(vec![(Rule::Range(b'b', b'b'), Next::Target(3))]),
            State::from_transitions(vec![
                (Rule::Range(b'b', b'b'), Next::Target(3)),
                (Rule::Null, Next::Target(4)),
            ]),
            State::from_transitions(vec![
                (Rule::Range(b'c', b'c'), Next::Target(4)),
                (Rule::Range(b'd', b'd'), Next::Target(5)),
            ]),
            State::from_transitions(vec![(Rule::Null, Next::Accept)]),
        ],
    };

    let test = b"abcd";
    let result = gex_machine.find(test);

    assert!(result.is_some());
    let test_match = result.unwrap();
    assert_eq!(b"abcd", &test[test_match.start..test_match.end]);

    let test2 = b"abd";
    let result2 = gex_machine.find(test2);

    assert!(result2.is_some());
    let test_match2 = result2.unwrap();
    assert_eq!(b"abd", &test2[test_match2.start..test_match2.end]);
}
