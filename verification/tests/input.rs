use samegame::board::Cell;
use samegame::input::{blank, parse_board, parse_code, parse_row};

fn chars(s: &str) -> Vec<char> {
    s.chars().collect()
}

fn lines_of(line: &str) -> Vec<String> {
    (0..15).map(|_| line.to_string()).collect()
}

#[test]
fn a_word_of_digits_writes_its_number() {
    assert_eq!(parse_code(&chars("0")), Some(0));
    assert_eq!(parse_code(&chars("4")), Some(4));
    assert_eq!(parse_code(&chars("17")), Some(17));
    assert_eq!(parse_code(&chars("007")), Some(7));
    assert_eq!(parse_code(&chars("2147483647")), Some(i32::MAX));
}

#[test]
fn a_sign_may_stand_before_the_digits() {
    assert_eq!(parse_code(&chars("-1")), Some(-1));
    assert_eq!(parse_code(&chars("+3")), Some(3));
    assert_eq!(parse_code(&chars("-0")), Some(0));
    assert_eq!(parse_code(&chars("-2147483648")), Some(i32::MIN));
}

#[test]
fn a_word_that_is_no_number_writes_nothing() {
    assert_eq!(parse_code(&chars("")), None);
    assert_eq!(parse_code(&chars("-")), None);
    assert_eq!(parse_code(&chars("+")), None);
    assert_eq!(parse_code(&chars("+-1")), None);
    assert_eq!(parse_code(&chars("1-")), None);
    assert_eq!(parse_code(&chars("12a")), None);
    assert_eq!(parse_code(&chars("a12")), None);
    assert_eq!(parse_code(&chars("1.5")), None);
    assert_eq!(parse_code(&chars("٣")), None);
}

#[test]
fn a_number_that_does_not_fit_writes_nothing() {
    assert_eq!(parse_code(&chars("2147483648")), None);
    assert_eq!(parse_code(&chars("-2147483649")), None);
    assert_eq!(parse_code(&chars("99999999999999999999999999999999999999")), None);
    assert_eq!(parse_code(&chars("-99999999999999999999999999999999999999")), None);
}

#[test]
fn the_code_of_a_word_is_what_the_standard_library_reads() {
    for word in ["0", "-1", "+4", "12", "x", "", "-", "2147483647", "2147483648", "0003"] {
        assert_eq!(parse_code(&chars(word)), word.parse::<i32>().ok());
    }
}

#[test]
fn white_space_is_blank() {
    for c in [' ', '\t', '\n', '\r', '\u{b}', '\u{c}', '\u{85}', '\u{a0}', '\u{2003}', '\u{3000}'] {
        assert!(blank(c));
    }
    for c in ['0', '-', 'a', '_', '\u{0}', '\u{200b}', '\u{feff}'] {
        assert!(!blank(c));
    }
    for code in 0..0x3100u32 {
        if let Some(c) = char::from_u32(code) {
            assert_eq!(blank(c), c.is_whitespace());
        }
    }
}

#[test]
fn a_line_writes_its_numbers_in_order() {
    assert_eq!(parse_row("0 1 2 3 4"), Some(vec![0, 1, 2, 3, 4]));
    assert_eq!(parse_row("  -1\t 4 \r\n"), Some(vec![-1, 4]));
    assert_eq!(parse_row("12"), Some(vec![12]));
    assert_eq!(parse_row("3\u{a0}4"), Some(vec![3, 4]));
}

#[test]
fn a_line_without_words_writes_no_number() {
    assert_eq!(parse_row(""), Some(vec![]));
    assert_eq!(parse_row(" \t \n"), Some(vec![]));
}

#[test]
fn a_line_with_a_bad_word_writes_nothing() {
    assert_eq!(parse_row("0 1 x 3"), None);
    assert_eq!(parse_row("x"), None);
    assert_eq!(parse_row("0 1 2 3-"), None);
    assert_eq!(parse_row("- 1"), None);
    assert_eq!(parse_row("1 2147483648 3"), None);
}

#[test]
fn a_line_is_read_as_the_standard_library_reads_it() {
    for line in ["1 2 3", " 4  -1 0 ", "", "a", "1 b", "7\t8\n", "+1 -1"] {
        let expected: Option<Vec<i32>> = line
            .split_whitespace()
            .map(|w| w.parse::<i32>().ok())
            .collect();
        assert_eq!(parse_row(line), expected);
    }
}

#[test]
fn fifteen_lines_of_fifteen_codes_are_a_board() {
    let board = parse_board(&lines_of("0 1 2 3 4 -1 0 1 2 3 4 -1 0 1 2\n")).unwrap();
    for y in 0..15 {
        assert_eq!(board.get(0, y), Cell::Red);
        assert_eq!(board.get(4, y), Cell::Purple);
        assert_eq!(board.get(5, y), Cell::Empty);
        assert_eq!(board.get(14, y), Cell::Blue);
    }
}

#[test]
fn the_first_line_is_the_top_row() {
    let mut lines = lines_of("-1 -1 -1 -1 -1 -1 -1 -1 -1 -1 -1 -1 -1 -1 -1");
    lines[0] = "3 -1 -1 -1 -1 -1 -1 -1 -1 -1 -1 -1 -1 -1 -1".to_string();
    lines[14] = "-1 -1 -1 -1 -1 -1 -1 -1 -1 -1 -1 -1 -1 -1 2".to_string();
    let board = parse_board(&lines).unwrap();
    assert_eq!(board.get(0, 14), Cell::Yellow);
    assert_eq!(board.get(14, 0), Cell::Blue);
    assert_eq!(board.get(0, 0), Cell::Empty);
}

#[test]
fn lines_that_are_no_board_are_refused() {
    let good = "0 1 2 3 4 0 1 2 3 4 0 1 2 3 4";
    let mut short = lines_of(good);
    short.pop();
    assert!(parse_board(&short).is_none());
    let mut long = lines_of(good);
    long.push(good.to_string());
    assert!(parse_board(&long).is_none());
    let mut narrow = lines_of(good);
    narrow[3] = "0 1 2".to_string();
    assert!(parse_board(&narrow).is_none());
    let mut bad = lines_of(good);
    bad[9] = "0 1 2 3 4 0 1 2 3 4 0 1 2 3 four".to_string();
    assert!(parse_board(&bad).is_none());
    let mut empty = lines_of(good);
    empty[14] = String::new();
    assert!(parse_board(&empty).is_none());
    assert!(parse_board(&Vec::new()).is_none());
}
