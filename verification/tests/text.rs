use blip::text::{
    chars_of, find_whitespace, same_text, split_lines, starts_with, text_order, whitespace,
    TextOrder,
};

fn lines(text: &str) -> Vec<String> {
    split_lines(text)
}

#[test]
fn empty_text_has_no_lines() {
    assert_eq!(lines(""), Vec::<String>::new());
}

#[test]
fn last_line_needs_no_line_feed() {
    assert_eq!(lines("a"), vec!["a"]);
    assert_eq!(lines("a\n"), vec!["a"]);
    assert_eq!(lines("a\nb"), vec!["a", "b"]);
    assert_eq!(lines("a\nb\n"), vec!["a", "b"]);
}

#[test]
fn empty_lines_are_lines() {
    assert_eq!(lines("\n"), vec![""]);
    assert_eq!(lines("a\n\n"), vec!["a", ""]);
    assert_eq!(lines("\n\nb"), vec!["", "", "b"]);
}

#[test]
fn carriage_return_before_line_feed_is_dropped() {
    assert_eq!(lines("a\r\nb\r\n"), vec!["a", "b"]);
    assert_eq!(lines("a\r\r\n"), vec!["a\r"]);
    assert_eq!(lines("\r\n"), vec![""]);
}

#[test]
fn other_carriage_returns_stay() {
    assert_eq!(lines("a\rb\n"), vec!["a\rb"]);
    assert_eq!(lines("a\r"), vec!["a\r"]);
}

#[test]
fn lines_agree_with_std() {
    let samples = [
        "",
        "\n",
        "\r",
        "\r\n",
        "one",
        "one\ntwo",
        "one\r\ntwo\r\n\r\n",
        "\n\n\n",
        "tab\there\nünïcödé ✓\nlast\r",
        "a\n\rb\n",
    ];
    for sample in samples {
        let expected: Vec<String> = sample.lines().map(|l| l.to_string()).collect();
        assert_eq!(lines(sample), expected, "for {:?}", sample);
    }
}

#[test]
fn chars_of_gives_scalar_values() {
    assert_eq!(chars_of(""), Vec::<char>::new());
    assert_eq!(chars_of("aé✓"), vec!['a', 'é', '✓']);
}

#[test]
fn text_order_is_lexicographic() {
    assert_eq!(text_order("a", "b"), TextOrder::Before);
    assert_eq!(text_order("b", "a"), TextOrder::After);
    assert_eq!(text_order("abc", "abc"), TextOrder::Same);
    assert_eq!(text_order("", ""), TextOrder::Same);
    assert_eq!(text_order("", "a"), TextOrder::Before);
    assert_eq!(text_order("ab", "abc"), TextOrder::Before);
    assert_eq!(text_order("abc", "ab"), TextOrder::After);
    assert_eq!(text_order("abd", "abc"), TextOrder::After);
    assert_eq!(text_order("Z", "a"), TextOrder::Before);
    assert_eq!(text_order("10", "9"), TextOrder::Before);
}

#[test]
fn text_order_agrees_with_std() {
    let samples = ["", "a", "ab", "b", "é", "z", "zz", "✓", "a b", "a\tb", "A"];
    for a in samples {
        for b in samples {
            let expected = if a < b {
                TextOrder::Before
            } else if a == b {
                TextOrder::Same
            } else {
                TextOrder::After
            };
            assert_eq!(text_order(a, b), expected, "for {:?} and {:?}", a, b);
            assert_eq!(same_text(a, b), a == b);
        }
    }
}

#[test]
fn whitespace_is_what_std_calls_whitespace() {
    for code in 0u32..=0x10ffff {
        if let Some(c) = char::from_u32(code) {
            assert_eq!(whitespace(c), c.is_whitespace(), "for U+{:04X}", code);
        }
    }
}

#[test]
fn whitespace_samples() {
    for c in [' ', '\t', '\n', '\r', '\u{b}', '\u{c}', '\u{a0}', '\u{2003}', '\u{3000}'] {
        assert!(whitespace(c));
    }
    for c in ['a', '0', '_', '\u{0}', '\u{8}', '\u{e}', '\u{200b}', '\u{feff}', 'é'] {
        assert!(!whitespace(c));
    }
}

#[test]
fn find_whitespace_gives_first_position_from_start() {
    let chars: Vec<char> = "a b\tc".chars().collect();
    assert_eq!(find_whitespace(&chars, 0), 1);
    assert_eq!(find_whitespace(&chars, 1), 1);
    assert_eq!(find_whitespace(&chars, 2), 3);
    assert_eq!(find_whitespace(&chars, 4), 5);
    assert_eq!(find_whitespace(&chars, 5), 5);
    let none: Vec<char> = "abc".chars().collect();
    assert_eq!(find_whitespace(&none, 0), 3);
    assert_eq!(find_whitespace(&Vec::new(), 0), 0);
}

#[test]
fn starts_with_compares_the_head() {
    let chars: Vec<char> = "parent abc".chars().collect();
    assert!(starts_with(&chars, "parent "));
    assert!(starts_with(&chars, ""));
    assert!(starts_with(&chars, "parent abc"));
    assert!(!starts_with(&chars, "parent abcd"));
    assert!(!starts_with(&chars, "Parent "));
    assert!(!starts_with(&chars, "arent"));
}
