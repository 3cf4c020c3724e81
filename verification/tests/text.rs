use nm_livesearch::text::{
    chars_of, contains_str, decimal_chars, fix_subject, is_space_char, join, pad_right_chars,
    pad_zeros_chars, same_str, trim_chars,
};

fn text(chars: Vec<char>) -> String {
    chars.into_iter().collect()
}

#[test]
fn fix_subject_replaces_line_breaks() {
    assert_eq!(fix_subject("a\r\nb\nc\rd"), "a  b c d");
}

#[test]
fn fix_subject_keeps_other_text() {
    assert_eq!(fix_subject("Re: [list] héllo\tworld"), "Re: [list] héllo\tworld");
    assert_eq!(fix_subject(""), "");
}

#[test]
fn join_puts_separator_between_parts() {
    let parts = vec!["inbox".to_string(), "unread".to_string(), "list".to_string()];
    assert_eq!(join(&parts, ", "), "inbox, unread, list");
}

#[test]
fn join_of_one_and_none() {
    assert_eq!(join(&vec!["inbox".to_string()], ", "), "inbox");
    assert_eq!(join(&Vec::new(), ", "), "");
}

#[test]
fn contains_str_finds_substrings() {
    assert!(contains_str("2021-11-09", "2021-11"));
    assert!(contains_str("2021-11-09", "11-09"));
    assert!(contains_str("2021-11-09", ""));
    assert!(contains_str("", ""));
    assert!(!contains_str("2021-11-09", "2021-12"));
    assert!(!contains_str("abc", "abcd"));
    assert!(!contains_str("", "a"));
}

#[test]
fn contains_str_on_non_ascii() {
    assert!(contains_str("Jürgen <j@example.org>", "ürg"));
    assert!(!contains_str("Jürgen <j@example.org>", "urg"));
}

#[test]
fn same_str_compares_characters() {
    assert!(same_str("oldest", "oldest"));
    assert!(!same_str("oldest", "oldes"));
    assert!(!same_str("oldest", "newest"));
    assert!(same_str("", ""));
}

#[test]
fn decimal_chars_writes_integers() {
    assert_eq!(text(decimal_chars(0)), "0");
    assert_eq!(text(decimal_chars(7)), "7");
    assert_eq!(text(decimal_chars(10)), "10");
    assert_eq!(text(decimal_chars(1234567890)), "1234567890");
    assert_eq!(text(decimal_chars(-5)), "-5");
    assert_eq!(text(decimal_chars(i32::MAX)), "2147483647");
    assert_eq!(text(decimal_chars(i32::MIN)), "-2147483648");
}

#[test]
fn pad_right_fills_with_spaces() {
    assert_eq!(text(pad_right_chars(&chars_of("ab"), 5)), "ab   ");
    assert_eq!(text(pad_right_chars(&chars_of("abcdef"), 5)), "abcdef");
    assert_eq!(text(pad_right_chars(&chars_of("ab"), 0)), "ab");
    assert_eq!(text(pad_right_chars(&chars_of("äö"), 3)), "äö ");
}

#[test]
fn pad_zeros_fills_on_the_left() {
    assert_eq!(text(pad_zeros_chars(&chars_of("7"), 3)), "007");
    assert_eq!(text(pad_zeros_chars(&chars_of("1234"), 3)), "1234");
    assert_eq!(text(pad_zeros_chars(&chars_of("-5"), 4)), "00-5");
}

#[test]
fn trim_chars_strips_white_space() {
    assert_eq!(text(trim_chars(&chars_of("  date \t"))), "date");
    assert_eq!(text(trim_chars(&chars_of("date"))), "date");
    assert_eq!(text(trim_chars(&chars_of("a b"))), "a b");
    assert_eq!(text(trim_chars(&chars_of(" \n "))), "");
    assert_eq!(text(trim_chars(&chars_of(""))), "");
    assert_eq!(text(trim_chars(&chars_of("\u{a0}x\u{3000}"))), "x");
}

#[test]
fn is_space_char_agrees_with_std() {
    let mut code: u32 = 0;
    while code < 0x3100 {
        if let Some(c) = char::from_u32(code) {
            assert_eq!(is_space_char(c), c.is_whitespace(), "code point {}", code);
        }
        code += 1;
    }
}

#[test]
fn chars_of_lists_characters() {
    assert_eq!(chars_of("a│b"), vec!['a', '│', 'b']);
    assert_eq!(chars_of(""), Vec::<char>::new());
}
