use saltgrep::accept::{re_accept_find_all, re_accept_match, re_accept_search, Acceptor};

const UNIT: &[u8] = b"UNIT";

#[test]
fn test_concat() {
    let mut acceptor = Acceptor {
        transitions: vec![
            vec![("a".as_bytes(), vec![1])],
            vec![("b".as_bytes(), vec![2])],
            vec![("b".as_bytes(), vec![2])],
        ],
        start_state: 0,
        accept_states: vec![2],
    };

    let acceptor2 = Acceptor {
        transitions: vec![
            vec![("a".as_bytes(), vec![1])],
            vec![("b".as_bytes(), vec![2])],
            vec![("b".as_bytes(), vec![2])],
        ],
        start_state: 0,
        accept_states: vec![2],
    };

    acceptor.append(acceptor2);
}

#[test]
fn test_find_all() {
    let acceptor = Acceptor {
        transitions: vec![
            vec![("a".as_bytes(), vec![1])],
            vec![("b".as_bytes(), vec![2])],
            vec![("b".as_bytes(), vec![2])],
        ],
        start_state: 0,
        accept_states: vec![2],
    };

    let test = b"cabb,abababbbbcdabbb";
    let result = re_accept_find_all(&acceptor, test);

    assert_eq!(5, result.len());
    let mut test_match = &result[0];
    assert_eq!(b"abb", &test[test_match.start..test_match.end]);
    test_match = &result[1];
    assert_eq!(b"ab", &test[test_match.start..test_match.end]);
    test_match = &result[2];
    assert_eq!(b"ab", &test[test_match.start..test_match.end]);
    test_match = &result[3];
    assert_eq!(b"abbbb", &test[test_match.start..test_match.end]);
    test_match = &result[4];
    assert_eq!(b"abbb", &test[test_match.start..test_match.end]);
}

#[test]
fn test_search() {
    let acceptor = Acceptor {
        transitions: vec![
            vec![("a".as_bytes(), vec![1])],
            vec![("b".as_bytes(), vec![2])],
            vec![("b".as_bytes(), vec![2])],
        ],
        start_state: 0,
        accept_states: vec![2],
    };

    let test = b"cdabbcd";
    let result = re_accept_search(&acceptor, test);

    assert!(result.is_some());
    let test_match = result.unwrap();
    assert_eq!(b"abb", &test[test_match.start..test_match.end]);
}

#[test]
fn accept_test_simple_match() {
    let acceptor = Acceptor {
        transitions: vec![
            vec![("a".as_bytes(), vec![1])],
            vec![("b".as_bytes(), vec![2])],
            vec![("b".as_bytes(), vec![2])],
        ],
        start_state: 0,
        accept_states: vec![2],
    };

    let test = b"abcd";
    let result = re_accept_match(&acceptor, test);

    assert!(result.is_some());
    let test_match = result.unwrap();
    assert_eq!(b"ab", &test[test_match.start..test_match.end]);
}

#[test]
fn accept_test_complex_match() {
    let acceptor = Acceptor {
        transitions: vec![
            vec![("a".as_bytes(), vec![1])],
            vec![("b".as_bytes(), vec![2])],
            vec![("b".as_bytes(), vec![2]), (UNIT, vec![3])],
            vec![("c".as_bytes(), vec![3]), ("d".as_bytes(), vec![4])],
        ],
        start_state: 0,
        accept_states: vec![4],
    };

    let test = b"abcd";
    let result = re_accept_match(&acceptor, test);

    assert!(result.is_some());
    let test_match = result.unwrap();
    assert_eq!(b"abcd", &test[test_match.start..test_match.end]);

    let test2 = b"abd";
    let result2 = re_accept_match(&acceptor, test2);

    assert!(result2.is_some());
    let test_match2 = result2.unwrap();
    assert_eq!(b"abd", &test2[test_match2.start..test_match2.end]);
}

#[test]
fn test_miss() {
    let acceptor = Acceptor {
        transitions: vec![
            vec![("a".as_bytes(), vec![1])],
            vec![("b".as_bytes(), vec![2])],
            vec![("b".as_bytes(), vec![2])],
        ],
        start_state: 0,
        accept_states: vec![2],
    };

    let result = re_accept_match(&acceptor, b"cdef");

    assert!(result.is_none());
}

#[test]
fn test_longer_match() {
    let acceptor = Acceptor {
        transitions: vec![
            vec![("a".as_bytes(), vec![1])],
            vec![("b".as_bytes(), vec![2])],
            vec![("b".as_bytes(), vec![2])],
        ],
        start_state: 0,
        accept_states: vec![2],
    };

    let test: &[u8] = b"abbbbc";

    let result = re_accept_match(&acceptor, test);

    assert!(result.is_some());
    let test_match = result.unwrap();
    assert_eq!(b"abbbb", &test[test_match.start..test_match.end]);
}

#[test]
fn test_branching() {
    let acceptor = Acceptor {
        transitions: vec![
            vec![("a".as_bytes(), vec![1, 4])],
            vec![("b".as_bytes(), vec![2])],
            vec![("b".as_bytes(), vec![2]), ("c".as_bytes(), vec![3])],
            vec![],
            vec![(UNIT, vec![5])],
            vec![
                (UNIT, vec![6]),
                ("d".as_bytes(), vec![6]),
                ("b".as_bytes(), vec![5]),
            ],
        ],
        start_state: 0,
        accept_states: vec![3, 6],
    };

    let test: &[u8] = b"def";

    let result = re_accept_match(&acceptor, test);

    assert!(result.is_none());

    let test1: &[u8] = b"abbc";

    let result1 = re_accept_match(&acceptor, test1);

    assert!(result1.is_some());
    let test_match1 = result1.unwrap();
    assert_eq!(b"abbc", &test1[test_match1.start..test_match1.end]);

    let test2: &[u8] = b"a";

    let result2 = re_accept_match(&acceptor, test2);

    assert!(result2.is_some());
    let test_match2 = result2.unwrap();
    assert_eq!(b"a", &test2[test_match2.start..test_match2.end]);

    let test3: &[u8] = b"ad";

    let result3 = re_accept_match(&acceptor, test3);

    assert!(result3.is_some());
    let test_match3 = result3.unwrap();
    assert_eq!(b"ad", &test3[test_match3.start..test_match3.end]);

    let test4: &[u8] = b"abbd";

    let result4 = re_accept_match(&acceptor, test4);

    assert!(result4.is_some());
    let test_match4 = result4.unwrap();
    assert_eq!(b"abbd", &test4[test_match4.start..test_match4.end]);
}
