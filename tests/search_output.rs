use grep_regex::cli::{parse_args, use_color, ColorWhen};
use grep_regex::parser::is_white_space_char;
use grep_regex::search::{process_line, render_line};
use grep_regex::{find_matches, match_anywhere, maybe_colorize, parse_regex, search_text};

#[test]
fn colorize_wraps_in_escapes() {
    assert_eq!(maybe_colorize("ab", true), "\x1b[01;31mab\x1b[m");
    assert_eq!(maybe_colorize("ab", false), "ab");
    assert_eq!(maybe_colorize("", true), "\x1b[01;31m\x1b[m");
}

#[test]
fn finds_successive_matches() {
    let tokens = parse_regex("a");
    assert_eq!(find_matches("banana", &tokens, false), vec![(1, 2), (3, 4), (5, 6)]);
    assert_eq!(find_matches("xyz", &tokens, false), vec![]);
}

#[test]
fn anchored_search_tries_the_start_only() {
    let tokens = parse_regex("b");
    assert_eq!(find_matches("banana", &tokens, true), vec![(0, 1)]);
    assert_eq!(find_matches("abba", &tokens, true), vec![]);
}

#[test]
fn empty_matches_advance_by_one_character() {
    let tokens = parse_regex("x*");
    assert_eq!(find_matches("ab", &tokens, false), vec![(0, 0), (1, 1), (2, 2)]);
    let tokens = parse_regex("a*");
    assert_eq!(find_matches("aa", &tokens, false), vec![(0, 2), (2, 2)]);
    assert_eq!(find_matches("\u{e9}", &parse_regex("x*"), false), vec![(0, 0), (1, 1)]);
}

#[test]
fn renders_whole_line_with_marked_matches() {
    let spans = vec![(1, 3), (3, 5)];
    assert_eq!(
        render_line("banana", &spans, false, false, ""),
        vec!["banana".to_string()]
    );
    assert_eq!(
        render_line("banana", &spans, false, true, "f:"),
        vec!["f:b\x1b[01;31man\x1b[m\x1b[01;31man\x1b[ma".to_string()]
    );
    assert_eq!(render_line("banana", &vec![], false, true, ""), Vec::<String>::new());
}

#[test]
fn renders_each_match_on_its_own_line() {
    let spans = vec![(1, 3), (3, 5)];
    assert_eq!(
        render_line("banana", &spans, true, false, "f:"),
        vec!["f:an".to_string(), "f:an".to_string()]
    );
}

#[test]
fn processes_a_line() {
    let tokens = parse_regex("\\d+");
    assert_eq!(
        process_line("a12b345", &tokens, false, true, false, ""),
        vec!["12".to_string(), "345".to_string()]
    );
    assert_eq!(
        process_line("a12b345", &tokens, false, false, true, ""),
        vec!["a\x1b[01;31m12\x1b[mb\x1b[01;31m345\x1b[m".to_string()]
    );
    assert_eq!(process_line("abc", &tokens, false, false, false, ""), Vec::<String>::new());
    let anchored = parse_regex("a");
    assert_eq!(process_line("aXa", &anchored, true, true, false, ""), vec!["a".to_string()]);
}

#[test]
fn white_space_agrees_with_std() {
    for u in 0u32..=0x10ffff {
        if let Some(c) = char::from_u32(u) {
            assert_eq!(is_white_space_char(c), c.is_whitespace(), "{:x}", u);
        }
    }
}

fn args(a: &[&str]) -> Vec<String> {
    a.iter().map(|s| s.to_string()).collect()
}

#[test]
fn parses_command_line() {
    let cfg = parse_args(args(&["grep", "-o", "-E", "^ab", "f1", "f2"]));
    assert!(cfg.use_o);
    assert!(!cfg.recursive);
    assert_eq!(cfg.pattern, "^ab");
    assert!(cfg.anchored);
    assert_eq!(cfg.color, ColorWhen::Never);
    assert_eq!(cfg.paths, vec!["f1".to_string(), "f2".to_string()]);
}

#[test]
fn parses_color_choices() {
    let cfg = parse_args(args(&["grep", "--color=never", "--color=always", "-r", "-E", "x"]));
    assert_eq!(cfg.color, ColorWhen::Always);
    assert!(cfg.recursive);
    assert!(!cfg.anchored);
    assert!(cfg.paths.is_empty());
    let cfg = parse_args(args(&["grep", "--color=auto", "-E", "x"]));
    assert_eq!(cfg.color, ColorWhen::Auto);
    let cfg = parse_args(args(&["grep", "--color=auto", "--color=never", "-E", "x"]));
    assert_eq!(cfg.color, ColorWhen::Never);
}

#[test]
fn first_match_is_leftmost_or_at_start() {
    let tokens = parse_regex("(a|bc)d");
    assert_eq!(match_anywhere("abcd", &tokens, false), Some((1, 4)));
    assert_eq!(match_anywhere("abcd", &tokens, true), None);
    assert_eq!(match_anywhere("xx", &parse_regex("y"), false), None);
    assert_eq!(match_anywhere("xx", &parse_regex(""), false), Some((0, 0)));
    assert_eq!(match_anywhere("\u{e9}\u{e9}ab", &parse_regex("ab"), false), Some((2, 4)));
}

#[test]
fn searches_a_text_line_by_line() {
    let tokens = parse_regex("a");
    assert_eq!(
        search_text("a\nbab\r\nc\n", &tokens, false, true, false, "f:"),
        vec!["f:a".to_string(), "f:a".to_string()]
    );
    assert_eq!(
        search_text("a\nbab\r\nc\n", &tokens, false, false, false, ""),
        vec!["a".to_string(), "bab".to_string()]
    );
    assert_eq!(search_text("", &tokens, false, false, false, ""), Vec::<String>::new());
}

#[test]
fn line_ends_are_cut_as_std_lines_does() {
    let end = parse_regex("a$");
    assert_eq!(search_text("xa\r\n", &end, false, false, false, ""), vec!["xa".to_string()]);
    assert_eq!(search_text("xa\r", &end, false, false, false, ""), Vec::<String>::new());
    let empty = parse_regex("$");
    assert_eq!(
        search_text("\n\n", &empty, false, false, false, ""),
        vec![String::new(), String::new()]
    );
    let text = "one\r\ntwo\n\nthree\r";
    let ours = search_text(text, &parse_regex(""), false, false, false, "");
    let std_lines: Vec<String> = text.lines().map(|l| l.to_string()).collect();
    assert_eq!(ours, std_lines);
}

#[test]
fn color_choice_follows_setting_and_terminal() {
    assert!(use_color(ColorWhen::Always, false));
    assert!(!use_color(ColorWhen::Never, true));
    assert!(use_color(ColorWhen::Auto, true));
    assert!(!use_color(ColorWhen::Auto, false));
}
