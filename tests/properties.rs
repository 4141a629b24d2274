use grep_regex::{find_matches, match_pattern, parse_regex, GroupType, Token};

fn m(pattern: &str, text: &str) -> Option<String> {
    let tokens = parse_regex(pattern);
    match_pattern(text, &tokens).map(|s| s.to_string())
}

#[test]
fn plain_pattern_matches_itself_whole() {
    for p in ["abc", "hello world", "x", "a-b_c!", "caf\u{e9}", "]}|)"] {
        assert_eq!(m(p, p), Some(p.to_string()));
    }
}

#[test]
fn plain_pattern_rejects_other_text_of_same_length() {
    assert_eq!(m("abc", "abd"), None);
    assert_eq!(m("abc", "xbc"), None);
    assert_eq!(m("hello", "hellO"), None);
    assert_eq!(m("caf\u{e9}", "cafe"), None);
}

#[test]
fn wildcard_matches_every_single_char() {
    for c in ['a', 'Z', '0', ' ', '\t', '.', '\u{e9}', '\u{65e5}', '\u{1f642}'] {
        let text = c.to_string();
        assert_eq!(m(".", &text), Some(text.clone()));
    }
}

#[test]
fn end_anchor_alone() {
    assert_eq!(m("$", ""), Some(String::new()));
    assert_eq!(m("$", "x"), None);
}

#[test]
fn greedy_star_gives_back_for_trailing_literal() {
    assert_eq!(m("a*ab", "aaab"), Some("aaab".into()));
    assert_eq!(m("a*a", "aaaa"), Some("aaaa".into()));
    assert_eq!(m("a+a", "a"), None);
}

#[test]
fn backreference_round_trip() {
    assert_eq!(m(r"(ab)\1", "abab"), Some("abab".into()));
    assert_eq!(m(r"(ab)\1", "abac"), None);
    assert_eq!(m(r"(a+)b\1", "aaabaaa"), Some("aaabaaa".into()));
    assert_eq!(m(r"(a+)b\1", "aaaba"), None);
}

#[test]
fn alternation_in_group_anchored_and_searched() {
    assert_eq!(m("(a|bc)d", "bcd"), Some("bcd".into()));
    assert_eq!(m("(a|bc)d", "abcd"), None);
    let tokens = parse_regex("(a|bc)d");
    assert_eq!(find_matches("abcd", &tokens, true), vec![]);
    assert_eq!(find_matches("abcd", &tokens, false), vec![(1, 4)]);
}

#[test]
fn braced_quantifier_bounds() {
    assert_eq!(m("a{2,4}", "aaaaa"), Some("aaaa".into()));
    assert_eq!(m("a{2,}", "aaaaa"), Some("aaaaa".into()));
    assert_eq!(m("a{2,4}", "a"), None);
    assert_eq!(m("a{0}", "aaa"), Some(String::new()));
}

#[test]
fn parsing_twice_gives_the_same_tree() {
    for p in ["(a(b)|c)+\\2", "[^x]{2,3}d*", "(a|b|c)(d)\\1", ""] {
        assert_eq!(parse_regex(p), parse_regex(p));
    }
}

#[test]
fn group_ids_follow_opening_parentheses() {
    let t = parse_regex("(a)(b(c))");
    assert_eq!(
        t,
        vec![
            Token::Group(vec![Token::Literal('a')], 1),
            Token::Group(
                vec![Token::Literal('b'), Token::Group(vec![Token::Literal('c')], 3)],
                2
            ),
        ]
    );
}

#[test]
fn empty_pattern_matches_empty_prefix() {
    assert_eq!(m("", "abc"), Some(String::new()));
    assert_eq!(m("", ""), Some(String::new()));
}

#[test]
fn unterminated_constructs_take_the_rest() {
    assert_eq!(
        parse_regex("[ab"),
        vec![Token::BracketGroup(vec!['a', 'b'], GroupType::Positive)]
    );
    assert_eq!(
        parse_regex("(ab"),
        vec![Token::Group(vec![Token::Literal('a'), Token::Literal('b')], 1)]
    );
    assert_eq!(
        parse_regex("a{2"),
        vec![Token::Quantifier(Box::new(Token::Literal('a')), 2, Some(2))]
    );
}

#[test]
fn dangling_quantifiers_and_escape_are_dropped() {
    assert_eq!(parse_regex("*a"), vec![Token::Literal('a')]);
    assert_eq!(parse_regex("+?a"), vec![Token::Literal('a')]);
    assert_eq!(parse_regex("{3}a"), vec![Token::Literal('a')]);
    assert_eq!(parse_regex("a\\"), vec![Token::Literal('a')]);
}

#[test]
fn brace_numbers_are_trimmed_and_lenient() {
    assert_eq!(
        parse_regex("a{ 2 , 3 }"),
        vec![Token::Quantifier(Box::new(Token::Literal('a')), 2, Some(3))]
    );
    assert_eq!(
        parse_regex("a{+2,x}"),
        vec![Token::Quantifier(Box::new(Token::Literal('a')), 2, None)]
    );
    assert_eq!(
        parse_regex("a{x}"),
        vec![Token::Quantifier(Box::new(Token::Literal('a')), 0, Some(0))]
    );
    assert_eq!(
        parse_regex("a{99999999999999999999999,}"),
        vec![Token::Quantifier(Box::new(Token::Literal('a')), 0, None)]
    );
    assert_eq!(
        parse_regex("a{1,2,3}"),
        vec![Token::Quantifier(Box::new(Token::Literal('a')), 1, Some(2))]
    );
}

#[test]
fn escapes_of_digits_are_backreferences() {
    assert_eq!(parse_regex(r"\0\9"), vec![Token::Backreference(0), Token::Backreference(9)]);
    assert_eq!(m(r"\0", "abc"), None);
    assert_eq!(m(r"\1(a)", "aa"), None);
}

#[test]
fn bars_outside_groups_and_nested_bars_stay_literal() {
    assert_eq!(
        parse_regex("a|b"),
        vec![Token::Literal('a'), Token::Literal('|'), Token::Literal('b')]
    );
    assert_eq!(
        parse_regex("((a|b))"),
        vec![Token::Group(
            vec![Token::Group(
                vec![Token::Alternation(vec![Token::Literal('a')], vec![Token::Literal('b')])],
                2
            )],
            1
        )]
    );
}

#[test]
fn multibyte_characters_are_single_characters() {
    assert_eq!(m("\u{e9}.", "\u{e9}\u{e8}x"), Some("\u{e9}\u{e8}".into()));
    assert_eq!(m("(.)\\1", "\u{65e5}\u{65e5}"), Some("\u{65e5}\u{65e5}".into()));
    assert_eq!(m("[\u{e9}x]+", "x\u{e9}y"), Some("x\u{e9}".into()));
}

#[test]
fn group_captures_the_longest_workable_span() {
    assert_eq!(m("(a|ab)(c|bcd)", "abcd"), Some("abc".into()));
    assert_eq!(m("(a*)b", "aaab"), Some("aaab".into()));
    assert_eq!(m("(a*)a", "aaa"), Some("aaa".into()));
}

#[test]
fn group_body_fills_its_span_through_later_branches() {
    assert_eq!(m("(a|ab)c", "abc"), Some("abc".into()));
    assert_eq!(m("(a|ab)c?", "abc"), Some("abc".into()));
    assert_eq!(m("(a|ab)\\1", "abab"), Some("abab".into()));
    assert_eq!(m("(a|ab)c", "ac"), Some("ac".into()));
    assert_eq!(m("(a|ab)c", "abd"), None);
}
