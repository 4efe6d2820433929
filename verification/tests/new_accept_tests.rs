use saltgrep::new_accept::{re_accept_match, Acceptor, Rule, Transition};

#[test]
fn new_accept_test_cons() {
    // pattern: `ab+`
    let mut first = Acceptor {
        transitions: vec![
            vec![(Rule::Null, Transition::Target(1))],
            vec![(Rule::Range(b'a', b'a'), Transition::Target(2))],
            vec![(Rule::Range(b'b', b'b'), Transition::Target(3))],
            vec![
                (Rule::Range(b'b', b'b'), Transition::Target(3)),
                (Rule::Null, Transition::Target(4)),
            ],
            vec![(Rule::Null, Transition::Accept)],
        ],
    };

    // pattern: `ab+c*d`
    let second = Acceptor {
        transitions: vec![
            vec![(Rule::Null, Transition::Target(1))],
            vec![(Rule::Range(b'a', b'a'), Transition::Target(2))],
            vec![(Rule::Range(b'b', b'b'), Transition::Target(3))],
            vec![
                (Rule::Range(b'b', b'b'), Transition::Target(3)),
                (Rule::Null, Transition::Target(4)),
            ],
            vec![
                (Rule::Range(b'c', b'c'), Transition::Target(4)),
                (Rule::Range(b'd', b'd'), Transition::Target(5)),
            ],
            vec![(Rule::Null, Transition::Accept)],
        ],
    };

    first.cons(second);

    // pattern `ab+ab+c*d`
    let result = Acceptor {
        transitions: vec![
            vec![(Rule::Null, Transition::Target(1))],
            vec![(Rule::Range(b'a', b'a'), Transition::Target(2))],
            vec![(Rule::Range(b'b', b'b'), Transition::Target(3))],
            vec![
                (Rule::Range(b'b', b'b'), Transition::Target(3)),
                (Rule::Null, Transition::Target(4)),
            ],
            vec![(Rule::Null, Transition::Target(1 + 4))],
            vec![(Rule::Range(b'a', b'a'), Transition::Target(2 + 4))],
            vec![(Rule::Range(b'b', b'b'), Transition::Target(3 + 4))],
            vec![
                (Rule::Range(b'b', b'b'), Transition::Target(3 + 4)),
                (Rule::Null, Transition::Target(4 + 4)),
            ],
            vec![
                (Rule::Range(b'c', b'c'), Transition::Target(4 + 4)),
                (Rule::Range(b'd', b'd'), Transition::Target(5 + 4)),
            ],
            vec![(Rule::Null, Transition::Accept)],
        ],
    };

    assert_eq!(first, result);
}

#[test]
fn new_accept_test_simple_match() {
    // pattern: `ab+`
    let acceptor = Acceptor {
        transitions: vec![
            vec![(Rule::Null, Transition::Target(1))],
            vec![(Rule::Range(b'a', b'a'), Transition::Target(2))],
            vec![(Rule::Range(b'b', b'b'), Transition::Target(3))],
            vec![
                (Rule::Range(b'b', b'b'), Transition::Target(3)),
                (Rule::Null, Transition::Target(4)),
            ],
            vec![(Rule::Null, Transition::Accept)],
        ],
    };

    let test = b"abcd";
    let result = re_accept_match(&acceptor, test);

    assert!(result.is_some());
    let test_match = result.unwrap();
    assert_eq!(b"ab", &test[test_match.start..test_match.end]);
}

#[test]
fn new_accept_test_complex_match() {
    // pattern: `ab+c*d`
    let acceptor = Acceptor {
        transitions: vec![
            vec![(Rule::Null, Transition::Target(1))],
            vec![(Rule::Range(b'a', b'a'), Transition::Target(2))],
            vec![(Rule::Range(b'b', b'b'), Transition::Target(3))],
            vec![
                (Rule::Range(b'b', b'b'), Transition::Target(3)),
                (Rule::Null, Transition::Target(4)),
            ],
            vec![
                (Rule::Range(b'c', b'c'), Transition::Target(4)),
                (Rule::Range(b'd', b'd'), Transition::Target(5)),
            ],
            vec![(Rule::Null, Transition::Accept)],
        ],
    };

    let test = b"abcd";
    let result = re_accept_match(&acceptor, test);

    assert!(result.is_some());
    let test_match = result.unwrap();
    assert_eq!(b"abcd", &test[test_match.start..test_match.end]);

    let test2 = b"abd";
    let result2 = re_accept_match(&acceptor, test2);

    assert!(result2.is_some());
    let test_match2 = result2.unwrap();
    assert_eq!(b"abd", &test2[test_match2.start..test_match2.end]);
}
