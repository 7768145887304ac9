use rust_crawler::text::{
    chars_of, find, lines, normalize, punctuation, same_text, slice_of, split_once, starts_with,
    strip_punctuation, tokens, trim, whitespace,
};

fn chars(s: &str) -> Vec<char> {
    s.chars().collect()
}

fn text(v: &Vec<char>) -> String {
    v.iter().collect()
}

fn texts(v: &Vec<Vec<char>>) -> Vec<String> {
    v.iter().map(text).collect()
}

#[test]
fn chars_of_gives_the_characters_in_order() {
    assert_eq!(chars_of("héllo"), vec!['h', 'é', 'l', 'l', 'o']);
    assert_eq!(chars_of(""), Vec::<char>::new());
}

#[test]
fn whitespace_agrees_with_the_standard_library_on_every_character() {
    let mut code: u32 = 0;
    while code <= 0x10FFFF {
        if let Some(c) = char::from_u32(code) {
            assert_eq!(whitespace(c), c.is_whitespace(), "U+{:04X}", code);
        }
        code += 1;
    }
}

#[test]
fn punctuation_is_the_fixed_set_of_marks() {
    let marks = ".,?!:;()[]'\"<>";
    let mut code: u32 = 0;
    while code < 0x3000 {
        if let Some(c) = char::from_u32(code) {
            assert_eq!(punctuation(c), marks.contains(c), "U+{:04X}", code);
        }
        code += 1;
    }
}

#[test]
fn trim_takes_white_space_from_both_ends_only() {
    assert_eq!(text(&trim(&chars("  a b \t\r\n"))), "a b");
    assert_eq!(text(&trim(&chars("\u{3000}x\u{a0}"))), "x");
    assert_eq!(text(&trim(&chars("   "))), "");
    assert_eq!(text(&trim(&chars(""))), "");
    assert_eq!(text(&trim(&chars("abc"))), "abc");
}

#[test]
fn trim_agrees_with_the_standard_library() {
    for sample in ["", " ", " a", "a ", " a b ", "\n\ta\u{2003}", "\u{85}\u{1680}x y\u{205f}"] {
        assert_eq!(text(&trim(&chars(sample))), sample.trim());
    }
}

#[test]
fn lines_end_at_line_feeds_and_lose_one_carriage_return() {
    assert_eq!(texts(&lines(&chars("a\nb\r\nc"))), vec!["a", "b", "c"]);
    assert_eq!(texts(&lines(&chars("a\n"))), vec!["a"]);
    assert_eq!(texts(&lines(&chars("a\n\n"))), vec!["a", ""]);
    assert_eq!(texts(&lines(&chars("\n"))), vec![""]);
    assert_eq!(texts(&lines(&chars(""))), Vec::<String>::new());
    assert_eq!(texts(&lines(&chars("a\r"))), vec!["a\r"]);
    assert_eq!(texts(&lines(&chars("a\r\r\nb"))), vec!["a\r", "b"]);
}

#[test]
fn lines_agree_with_the_standard_library() {
    for sample in ["", "\n", "a", "a\nb", "a\r\nb\r\n", "\r\n\r\n", "x\n\ny\n", "a\rb\n", "a\r"] {
        let expected: Vec<String> = sample.lines().map(String::from).collect();
        assert_eq!(texts(&lines(&chars(sample))), expected, "{:?}", sample);
    }
}

#[test]
fn find_gives_the_first_place_at_or_after_the_start() {
    let s = chars("a:b:c");
    assert_eq!(find(&s, 0, ':'), 1);
    assert_eq!(find(&s, 2, ':'), 3);
    assert_eq!(find(&s, 4, ':'), 5);
    assert_eq!(find(&s, 5, ':'), 5);
}

#[test]
fn slice_of_copies_the_range() {
    let s = chars("hello");
    assert_eq!(text(&slice_of(&s, 1, 4)), "ell");
    assert_eq!(text(&slice_of(&s, 2, 2)), "");
    assert_eq!(text(&slice_of(&s, 0, 5)), "hello");
}

#[test]
fn split_once_splits_at_the_first_occurrence() {
    let (head, tail) = split_once(&chars("Sitemap: http://x/y"), ':').unwrap();
    assert_eq!(text(&head), "Sitemap");
    assert_eq!(text(&tail), " http://x/y");
    let (head, tail) = split_once(&chars(":"), ':').unwrap();
    assert_eq!(text(&head), "");
    assert_eq!(text(&tail), "");
    assert!(split_once(&chars("no colon"), ':').is_none());
    assert!(split_once(&chars(""), ':').is_none());
}

#[test]
fn same_text_compares_character_by_character() {
    assert!(same_text(&chars("abc"), &chars("abc")));
    assert!(!same_text(&chars("abc"), &chars("abd")));
    assert!(!same_text(&chars("abc"), &chars("ab")));
    assert!(same_text(&chars(""), &chars("")));
}

#[test]
fn starts_with_tests_for_a_prefix() {
    assert!(starts_with(&chars("Bot2"), &chars("Bot")));
    assert!(starts_with(&chars("Bot"), &chars("Bot")));
    assert!(starts_with(&chars("Bot"), &chars("")));
    assert!(!starts_with(&chars("Bot"), &chars("Bot2")));
    assert!(!starts_with(&chars("Bot"), &chars("bot")));
}

#[test]
fn tokens_are_the_runs_between_white_space() {
    assert_eq!(texts(&tokens(&chars("Hello, world! Hello."))), vec!["Hello,", "world!", "Hello."]);
    assert_eq!(texts(&tokens(&chars("  a \t b\n"))), vec!["a", "b"]);
    assert_eq!(texts(&tokens(&chars(""))), Vec::<String>::new());
    assert_eq!(texts(&tokens(&chars(" \n "))), Vec::<String>::new());
    assert_eq!(texts(&tokens(&chars("one"))), vec!["one"]);
}

#[test]
fn tokens_agree_with_the_standard_library() {
    for sample in ["", " ", "a", " a", "a ", "a  b", "\u{a0}x\u{2003}y z\u{3000}", "a\r\nb\tc"] {
        let expected: Vec<String> = sample.split_whitespace().map(String::from).collect();
        assert_eq!(texts(&tokens(&chars(sample))), expected, "{:?}", sample);
    }
}

#[test]
fn strip_punctuation_takes_the_marks_out_everywhere() {
    assert_eq!(text(&strip_punctuation(&chars("(a.b),[c]!?:;'\"<d>"))), "abcd");
    assert_eq!(text(&strip_punctuation(&chars("don't"))), "dont");
    assert_eq!(text(&strip_punctuation(&chars("a-b_c"))), "a-b_c");
    assert_eq!(text(&strip_punctuation(&chars("..."))), "");
}

#[test]
fn normalize_lowers_the_case_and_then_strips_the_marks() {
    assert_eq!(normalize("Hello,"), "hello");
    assert_eq!(normalize("WORLD!"), "world");
    assert_eq!(normalize("ÉTÉ."), "été");
    assert_eq!(normalize("plain"), "plain");
}

#[test]
fn normalize_gives_the_empty_word_for_marks_alone() {
    assert_eq!(normalize("..."), "");
    assert_eq!(normalize("?!"), "");
}
