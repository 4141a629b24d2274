use grep_regex::{parse_regex, GroupType, Token};

#[test]
fn parses_literals() {
    let t = parse_regex("abc");
    assert_eq!(
        t,
        vec![Token::Literal('a'), Token::Literal('b'), Token::Literal('c')]
    );
}

#[test]
fn parses_escapes_digit_and_word_and_literal_escape() {
    let t = parse_regex(r"\d\w\.");
    assert_eq!(
        t,
        vec![Token::Digit, Token::Alphanumeric, Token::Literal('.')]
    );
}

#[test]
fn parses_wildcard_and_end_anchor() {
    let t = parse_regex("a.$");
    assert_eq!(
        t,
        vec![Token::Literal('a'), Token::Wildcard, Token::EndAnchor]
    );
}

#[test]
fn parses_bracket_group_positive() {
    let t = parse_regex("[abc]");
    assert_eq!(
        t,
        vec![Token::BracketGroup(vec!['a', 'b', 'c'], GroupType::Positive)]
    );
}

#[test]
fn parses_bracket_group_negative() {
    let t = parse_regex("[^abc]");
    assert_eq!(
        t,
        vec![Token::BracketGroup(vec!['a', 'b', 'c'], GroupType::Negative)]
    );
}

#[test]
fn parses_quantifiers_question_star_plus() {
    let t = parse_regex("a?b*c+");
    assert_eq!(
        t,
        vec![
            Token::Quantifier(Box::new(Token::Literal('a')), 0, Some(1)),
            Token::Quantifier(Box::new(Token::Literal('b')), 0, None),
            Token::Quantifier(Box::new(Token::Literal('c')), 1, None),
        ]
    );
}

#[test]
fn parses_braced_quantifier_exact() {
    let t = parse_regex("a{3}");
    assert_eq!(
        t,
        vec![Token::Quantifier(Box::new(Token::Literal('a')), 3, Some(3))]
    );
}

#[test]
fn parses_braced_quantifier_min_only() {
    let t = parse_regex("a{2,}");
    assert_eq!(
        t,
        vec![Token::Quantifier(Box::new(Token::Literal('a')), 2, None)]
    );
}

#[test]
fn parses_braced_quantifier_range() {
    let t = parse_regex("a{2,4}");
    assert_eq!(
        t,
        vec![Token::Quantifier(Box::new(Token::Literal('a')), 2, Some(4))]
    );
}

#[test]
fn parses_group_assigns_id_1() {
    let t = parse_regex("(ab)");
    assert_eq!(
        t,
        vec![Token::Group(vec![Token::Literal('a'), Token::Literal('b')], 1)]
    );
}

#[test]
fn parses_nested_groups_increment_ids() {
    let t = parse_regex("(a(b))");
    assert_eq!(
        t,
        vec![Token::Group(
            vec![
                Token::Literal('a'),
                Token::Group(vec![Token::Literal('b')], 2)
            ],
            1
        )]
    );
}

#[test]
fn parses_alternation_inside_group() {
    let t = parse_regex("(a|bc)");
    assert_eq!(
        t,
        vec![Token::Group(
            vec![Token::Alternation(
                vec![Token::Literal('a')],
                vec![Token::Literal('b'), Token::Literal('c')]
            )],
            1
        )]
    );
}

#[test]
fn parses_backreference() {
    let t = parse_regex(r"(ab)\1");
    assert_eq!(
        t,
        vec![
            Token::Group(vec![Token::Literal('a'), Token::Literal('b')], 1),
            Token::Backreference(1)
        ]
    );
}

#[test]
fn parses_three_way_alternation_nesting() {
    let t = parse_regex("(a|b|c)");
    assert_eq!(
        t,
        vec![Token::Group(
            vec![Token::Alternation(
                vec![Token::Alternation(
                    vec![Token::Literal('a')],
                    vec![Token::Literal('b')]
                )],
                vec![Token::Literal('c')]
            )],
            1
        )]
    );
}
