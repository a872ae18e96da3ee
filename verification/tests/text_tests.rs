use starkra::text::{
    chars_of, find_char, has_prefix, is_space, is_word, line_ranges, parse_number, text_between,
    token_ranges,
};

fn pieces(text: &str, ranges: &[(usize, usize)]) -> Vec<String> {
    let chars: Vec<char> = text.chars().collect();
    ranges.iter().map(|&(from, to)| chars[from..to].iter().collect()).collect()
}

#[test]
fn white_space_is_what_unicode_says() {
    for n in 0..=0x10FFFFu32 {
        if let Some(c) = char::from_u32(n) {
            assert_eq!(is_space(c), c.is_whitespace(), "U+{:04X}", n);
        }
    }
}

#[test]
fn chars_of_keeps_every_character() {
    assert_eq!(chars_of(""), Vec::<char>::new());
    assert_eq!(chars_of("a\u{e9}\u{3000}\n"), vec!['a', '\u{e9}', '\u{3000}', '\n']);
}

#[test]
fn lines_are_the_pieces_between_line_feeds() {
    assert_eq!(line_ranges(&chars_of("")), vec![(0, 0)]);
    assert_eq!(line_ranges(&chars_of("ab")), vec![(0, 2)]);
    assert_eq!(line_ranges(&chars_of("ab\n")), vec![(0, 2), (3, 3)]);
    assert_eq!(line_ranges(&chars_of("ab\n\ncd")), vec![(0, 2), (3, 3), (4, 6)]);
    assert_eq!(line_ranges(&chars_of("\n")), vec![(0, 0), (1, 1)]);
    let text = "first\r\nsec\u{e9}nd\n\nlast";
    assert_eq!(
        pieces(text, &line_ranges(&chars_of(text))),
        vec!["first\r", "sec\u{e9}nd", "", "last"]
    );
}

#[test]
fn lines_agree_with_split() {
    for text in ["", "a", "a\n", "\n\n", "x y\nz\n\n w ", "\r\n\r\n", "a\nb\nc"] {
        let expected: Vec<String> = text.split('\n').map(|s| s.to_string()).collect();
        assert_eq!(pieces(text, &line_ranges(&chars_of(text))), expected);
    }
}

#[test]
fn tokens_are_the_runs_without_white_space() {
    let text = "  call\t1 \u{a0}22  ";
    let chars = chars_of(text);
    let ranges = token_ranges(&chars, 0, chars.len());
    assert_eq!(ranges, vec![(2, 6), (7, 8), (10, 12)]);
    assert_eq!(pieces(text, &ranges), vec!["call", "1", "22"]);
    assert_eq!(token_ranges(&chars, 3, 11), vec![(3, 6), (7, 8), (10, 11)]);
    assert_eq!(token_ranges(&chars, 0, 2), Vec::new());
    assert_eq!(token_ranges(&chars, 4, 4), Vec::new());
}

#[test]
fn tokens_agree_with_split_whitespace() {
    for text in ["", " ", "a", " a ", "a b", "a\u{2003}b\u{85}c", "\tjump 12\r", "x  y   z"] {
        let chars = chars_of(text);
        let expected: Vec<String> = text.split_whitespace().map(|s| s.to_string()).collect();
        assert_eq!(pieces(text, &token_ranges(&chars, 0, chars.len())), expected);
    }
}

#[test]
fn find_char_gives_the_first_place() {
    let chars = chars_of("a#b#c");
    assert_eq!(find_char(&chars, '#', 0, 5), 1);
    assert_eq!(find_char(&chars, '#', 2, 5), 3);
    assert_eq!(find_char(&chars, '#', 4, 5), 5);
    assert_eq!(find_char(&chars, '#', 0, 1), 1);
    assert_eq!(find_char(&chars, 'z', 0, 5), 5);
    assert_eq!(find_char(&chars, '#', 2, 2), 2);
}

#[test]
fn numbers_agree_with_the_standard_parser() {
    let samples = [
        "", "0", "1", "42", "007", "+5", "+", "-", "-5", "+-5", "++5", "4294967295",
        "4294967296", "4294967305", "42949672950", "99999999999999999999", "12a", "a12", "1 2",
        " 1", "1 ", "0x1f", "١٢", "00000000000000000000000001", "+0", "+4294967295",
        "+4294967296", "1e3", "٣",
    ];
    for text in samples {
        let chars = chars_of(text);
        assert_eq!(parse_number(&chars, 0, chars.len()), text.parse::<u32>().ok(), "{:?}", text);
    }
}

#[test]
fn number_is_read_between_the_positions() {
    let chars = chars_of("ab123cd");
    assert_eq!(parse_number(&chars, 2, 5), Some(123));
    assert_eq!(parse_number(&chars, 2, 4), Some(12));
    assert_eq!(parse_number(&chars, 1, 5), None);
    assert_eq!(parse_number(&chars, 3, 3), None);
}

#[test]
fn prefix_and_word() {
    let chars = chars_of("final_node=12 ret");
    assert!(has_prefix(&chars, 0, 13, "final_node="));
    assert!(has_prefix(&chars, 0, 13, ""));
    assert!(!has_prefix(&chars, 0, 13, "initial_node="));
    assert!(!has_prefix(&chars, 0, 5, "final_node="));
    assert!(!has_prefix(&chars, 1, 13, "final_node="));
    assert!(is_word(&chars, 14, 17, "ret"));
    assert!(!is_word(&chars, 14, 17, "re"));
    assert!(!is_word(&chars, 14, 17, "rets"));
    assert!(!is_word(&chars, 13, 17, "ret"));
    assert!(is_word(&chars, 3, 3, ""));
}

#[test]
fn text_between_counts_characters() {
    assert_eq!(text_between("a\u{e9}\u{3000}bc", 1, 4), "\u{e9}\u{3000}b");
    assert_eq!(text_between("abc", 0, 3), "abc");
    assert_eq!(text_between("abc", 2, 2), "");
}
