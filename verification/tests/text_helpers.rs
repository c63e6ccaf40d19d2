use tree_craft::text::{
    chars_of, copy_range, find, is_white_space, split_lines, string_of, trim_range,
};

fn letters(text: &str) -> Vec<char> {
    text.chars().collect()
}

fn rows_of(text: &str) -> Vec<String> {
    split_lines(&letters(text)).into_iter().map(|row| row.into_iter().collect()).collect()
}

#[test]
fn white_space_is_what_the_standard_library_calls_white_space() {
    for code in 0..=0x10FFFFu32 {
        if let Some(c) = char::from_u32(code) {
            assert_eq!(is_white_space(c), c.is_whitespace(), "U+{:04X}", code);
        }
    }
}

#[test]
fn white_space_holds_the_usual_characters() {
    for c in [' ', '\t', '\n', '\r', '\u{0B}', '\u{0C}', '\u{85}', '\u{A0}', '\u{3000}'] {
        assert!(is_white_space(c));
    }
    for c in ['a', '│', '─', '#', '/', '\u{200B}', '\u{180E}', '\0'] {
        assert!(!is_white_space(c));
    }
}

#[test]
fn the_characters_of_a_string_come_in_order() {
    assert_eq!(chars_of("a│b"), vec!['a', '│', 'b']);
    assert_eq!(chars_of(""), Vec::<char>::new());
    assert_eq!(chars_of("é\u{10FFFF}"), vec!['é', '\u{10FFFF}']);
}

#[test]
fn a_string_is_made_of_the_characters_in_the_range() {
    let source = letters("├── name.txt");
    assert_eq!(string_of(&source, 4, 8), "name");
    assert_eq!(string_of(&source, 0, 3), "├──");
    assert_eq!(string_of(&source, 5, 5), "");
    assert_eq!(string_of(&source, 0, source.len()), "├── name.txt");
}

#[test]
fn a_copy_holds_the_characters_in_the_range() {
    let source = letters("abcdef");
    assert_eq!(copy_range(&source, 1, 4), vec!['b', 'c', 'd']);
    assert_eq!(copy_range(&source, 6, 6), Vec::<char>::new());
    assert_eq!(copy_range(&source, 0, 6), source);
}

#[test]
fn trimming_agrees_with_the_standard_library() {
    let samples = [
        "",
        " ",
        "a",
        "  a  ",
        "\t a b \r\n",
        "\u{A0}x\u{3000}",
        "   ",
        "x   ",
        "   x",
        " \u{200B} ",
        "a\u{2003}b",
    ];
    for sample in samples {
        let source = letters(sample);
        let (from, to) = trim_range(&source, 0, source.len());
        assert_eq!(string_of(&source, from, to), sample.trim(), "{:?}", sample);
    }
}

#[test]
fn trimming_stays_within_the_given_range() {
    let source = letters("  ab  cd  ");
    assert_eq!(trim_range(&source, 0, 10), (2, 8));
    assert_eq!(trim_range(&source, 3, 7), (3, 7));
    assert_eq!(trim_range(&source, 3, 6), (3, 4));
    assert_eq!(trim_range(&source, 4, 6), (6, 6));
    assert_eq!(trim_range(&source, 8, 10), (10, 10));
    assert_eq!(trim_range(&source, 5, 5), (5, 5));
}

#[test]
fn find_gives_the_first_place_or_the_end() {
    let source = letters("a#b#c");
    assert_eq!(find(&source, 0, 5, '#'), 1);
    assert_eq!(find(&source, 2, 5, '#'), 3);
    assert_eq!(find(&source, 4, 5, '#'), 5);
    assert_eq!(find(&source, 0, 1, '#'), 1);
    assert_eq!(find(&source, 0, 5, 'z'), 5);
    assert_eq!(find(&source, 3, 3, '#'), 3);
}

#[test]
fn lines_agree_with_the_standard_library() {
    let samples = [
        "",
        "\n",
        "a",
        "a\n",
        "a\nb",
        "a\n\nb\n",
        "a\r\nb\r\n",
        "a\rb\n",
        "a\r",
        "\r\n",
        "\r\r\n",
        "\n\n\n",
        "\n\r",
        "project/\n├── src/\n│   └── main.txt\n└── README.md\n",
    ];
    for sample in samples {
        let expected: Vec<String> = sample.lines().map(|line| line.to_string()).collect();
        assert_eq!(rows_of(sample), expected, "{:?}", sample);
    }
}

#[test]
fn a_text_without_characters_has_no_line() {
    assert!(rows_of("").is_empty());
    assert_eq!(rows_of("\n"), vec![String::new()]);
}

#[test]
fn only_a_carriage_return_before_a_line_feed_is_dropped() {
    assert_eq!(rows_of("a\r\nb\r"), vec!["a".to_string(), "b\r".to_string()]);
    assert_eq!(rows_of("a\r\r\n"), vec!["a\r".to_string()]);
}
