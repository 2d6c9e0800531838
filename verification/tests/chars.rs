use gib2sgf::chars::{chars_of, first_char, starts_with, utf8_width};

#[test]
fn width_is_the_number_of_bytes_of_a_character() {
    for c in ['\0', 'a', '\u{7f}', '\u{80}', 'é', '\u{7ff}', '\u{800}', '한', '\u{ffff}', '\u{10000}', '𝄞', '\u{10ffff}'] {
        assert_eq!(utf8_width(c), c.len_utf8());
    }
    assert_eq!(utf8_width('a'), 1);
    assert_eq!(utf8_width('é'), 2);
    assert_eq!(utf8_width('한'), 3);
    assert_eq!(utf8_width('𝄞'), 4);
}

#[test]
fn characters_come_one_by_one() {
    assert_eq!(chars_of(""), Vec::<char>::new());
    assert_eq!(chars_of("a한é𝄞."), vec!['a', '한', 'é', '𝄞', '.']);
    assert_eq!(first_char(""), None);
    assert_eq!(first_char("한a"), Some('한'));
    assert_eq!(first_char("a한"), Some('a'));
}

#[test]
fn prefixes_are_found_by_their_characters() {
    assert!(starts_with("STO 0 1", "STO "));
    assert!(starts_with("STO", "STO"));
    assert!(starts_with("STO", ""));
    assert!(starts_with("", ""));
    assert!(!starts_with("", "S"));
    assert!(!starts_with("ST", "STO"));
    assert!(!starts_with("SKO", "STO"));
    assert!(!starts_with("sTO", "STO"));
    assert!(starts_with("한국어", "한국"));
    assert!(!starts_with("한국어", "한어"));
    assert!(!starts_with("é", "e"));
}
