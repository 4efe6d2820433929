use saltgrep::matcher::Match;

#[test]
fn expected_substr() {
    let match_result = Match { start: 3, end: 7 };

    assert_eq!(match_result.substr("abcdefghi"), "defg");
}
