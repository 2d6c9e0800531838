use gib2sgf::text::{decimal_len, find, is_digit_char, push_chars, push_decimal, push_padded_decimal};

fn decimal(n: u32) -> String {
    let mut text = String::from(">");
    push_decimal(&mut text, n);
    text
}

fn padded(n: u32, width: usize) -> String {
    let mut text = String::from(">");
    push_padded_decimal(&mut text, n, width);
    text
}

fn position(text: &str, pattern: &str, from: usize) -> Option<usize> {
    find(&text.chars().collect(), &pattern.chars().collect(), from)
}

#[test]
fn numerals_have_no_leading_zeros() {
    assert_eq!(decimal(0), ">0");
    assert_eq!(decimal(7), ">7");
    assert_eq!(decimal(10), ">10");
    assert_eq!(decimal(2009), ">2009");
    assert_eq!(decimal(u32::MAX), ">4294967295");
}

#[test]
fn numeral_length_counts_the_digits() {
    for n in [0, 9, 10, 99, 100, 65535, 999_999_999, 1_000_000_000, u32::MAX] {
        assert_eq!(decimal_len(n), n.to_string().len());
    }
}

#[test]
fn padding_fills_up_with_zeros_and_cuts_nothing() {
    assert_eq!(padded(7, 2), ">07");
    assert_eq!(padded(7, 1), ">7");
    assert_eq!(padded(7, 0), ">7");
    assert_eq!(padded(0, 4), ">0000");
    assert_eq!(padded(2020, 4), ">2020");
    assert_eq!(padded(65535, 4), ">65535");
    assert_eq!(padded(1, 12), ">000000000001");
}

#[test]
fn only_the_ten_ascii_digits_are_digits() {
    assert!("0123456789".chars().all(is_digit_char));
    assert!(!"/:a ٣-+".chars().any(is_digit_char));
}

#[test]
fn parts_of_character_rows_are_appended() {
    let chars = vec!['a', '한', 'c', 'd'];
    let mut text = String::from(">");
    push_chars(&mut text, &chars, 1, 3);
    push_chars(&mut text, &chars, 2, 2);
    push_chars(&mut text, &chars, 0, 4);
    assert_eq!(text, ">한ca한cd");
}

#[test]
fn find_gives_the_first_position_from_the_start_given() {
    assert_eq!(position("abcabc", "bc", 0), Some(1));
    assert_eq!(position("abcabc", "bc", 1), Some(1));
    assert_eq!(position("abcabc", "bc", 2), Some(4));
    assert_eq!(position("abcabc", "bc", 5), None);
    assert_eq!(position("abcabc", "bd", 0), None);
    assert_eq!(position("abc", "abcd", 0), None);
    assert_eq!(position("abc", "", 0), Some(0));
    assert_eq!(position("abc", "", 3), Some(3));
    assert_eq!(position("abc", "", 4), None);
    assert_eq!(position("", "", 0), Some(0));
    assert_eq!(position("", "a", 0), None);
    assert_eq!(position("한글한글", "글", 2), Some(3));
}
