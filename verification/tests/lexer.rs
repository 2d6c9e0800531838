use gib2sgf::lexer::Lexer;

#[test]
fn new_lexer_has_the_whole_text_left() {
    let lexer = Lexer::new("STO 0 1");
    assert_eq!(lexer.rest(), "STO 0 1");
    assert!(!lexer.at_end());
    assert!(Lexer::new("").at_end());
}

#[test]
fn read_while_takes_the_longest_run() {
    let mut lexer = Lexer::new("abc123def");
    assert_eq!(lexer.read_while(|c| c.is_ascii_alphabetic()), "abc");
    assert_eq!(lexer.rest(), "123def");
    assert_eq!(lexer.read_while(|c| c.is_ascii_alphabetic()), "");
    assert_eq!(lexer.rest(), "123def");
    assert_eq!(lexer.read_while(|_| true), "123def");
    assert!(lexer.at_end());
    assert_eq!(lexer.read_while(|_| true), "");
}

#[test]
fn read_while_never_splits_a_character() {
    let mut lexer = Lexer::new("héllo wörld 한국 𝄞x");
    assert_eq!(lexer.read_while(|c| c != ' '), "héllo");
    assert!(lexer.optional(" "));
    assert_eq!(lexer.read_while(|c| c != 'r'), "wö");
    assert_eq!(lexer.read_while(|c| c != ' '), "rld");
    assert!(lexer.optional(" 한"));
    assert_eq!(lexer.read_while(|c| !c.is_ascii()), "국");
    assert_eq!(lexer.read_while(|c| c != 'x'), " 𝄞");
    assert_eq!(lexer.rest(), "x");
}

#[test]
fn optional_reads_only_what_matches() {
    let mut lexer = Lexer::new("\\[GAMEPLACE=x\\]");
    assert!(!lexer.optional("\\]"));
    assert_eq!(lexer.rest(), "\\[GAMEPLACE=x\\]");
    assert!(lexer.optional("\\["));
    assert_eq!(lexer.rest(), "GAMEPLACE=x\\]");
    assert!(lexer.optional(""));
    assert_eq!(lexer.rest(), "GAMEPLACE=x\\]");
    assert!(!lexer.optional("GAMEPLACE=x\\]\\"));
    assert!(lexer.optional("GAMEPLACE=x\\]"));
    assert!(lexer.at_end());
    assert!(!lexer.optional("x"));
    assert!(lexer.optional(""));
}

#[test]
fn expect_names_what_is_missing() {
    let mut lexer = Lexer::new("abc");
    assert_eq!(lexer.expect("ab"), Ok(()));
    assert_eq!(lexer.rest(), "c");
    assert_eq!(lexer.expect("-"), Err(String::from("Expected '-', but did not see")));
    assert_eq!(lexer.rest(), "c");
    assert_eq!(lexer.expect("cd"), Err(String::from("Expected 'cd', but did not see")));
    assert_eq!(lexer.expect("c"), Ok(()));
    assert_eq!(lexer.expect("c"), Err(String::from("Expected 'c', but did not see")));
}

#[test]
fn read_number_reads_the_run_of_digits() {
    let mut lexer = Lexer::new("2009- 3-28");
    assert_eq!(lexer.read_number::<u16>(), Ok(2009));
    assert_eq!(lexer.rest(), "- 3-28");
    assert_eq!(lexer.read_number::<u16>(), Err(String::from("not a number ''")));
    assert_eq!(lexer.rest(), "- 3-28");
    assert!(lexer.optional("- "));
    assert_eq!(lexer.read_number::<u8>(), Ok(3));
    assert!(lexer.optional("-"));
    assert_eq!(lexer.read_number::<u32>(), Ok(28));
    assert!(lexer.at_end());
    assert_eq!(lexer.read_number::<u32>(), Err(String::from("not a number ''")));
}

#[test]
fn read_number_refuses_what_the_type_cannot_hold() {
    assert_eq!(Lexer::new("255").read_number::<u8>(), Ok(255));
    assert_eq!(Lexer::new("256").read_number::<u8>(), Err(String::from("not a number '256'")));
    assert_eq!(Lexer::new("65535").read_number::<u16>(), Ok(65535));
    assert_eq!(Lexer::new("65536").read_number::<u16>(), Err(String::from("not a number '65536'")));
    assert_eq!(Lexer::new("4294967295").read_number::<u32>(), Ok(4294967295));
    assert_eq!(
        Lexer::new("4294967296").read_number::<u32>(),
        Err(String::from("not a number '4294967296'"))
    );
    assert_eq!(Lexer::new("32767").read_number::<i16>(), Ok(32767));
    assert_eq!(Lexer::new("32768").read_number::<i16>(), Err(String::from("not a number '32768'")));
    assert_eq!(
        Lexer::new("99999999999999999999999999").read_number::<u32>(),
        Err(String::from("not a number '99999999999999999999999999'"))
    );
}

#[test]
fn read_number_reads_the_digits_even_when_it_fails() {
    let mut lexer = Lexer::new("300x");
    assert!(lexer.read_number::<u8>().is_err());
    assert_eq!(lexer.rest(), "x");
}

#[test]
fn read_number_accepts_leading_zeros_and_only_ascii_digits() {
    assert_eq!(Lexer::new("007").read_number::<u8>(), Ok(7));
    assert_eq!(Lexer::new("0000000000000000000000255").read_number::<u8>(), Ok(255));
    assert_eq!(Lexer::new("0").read_number::<u8>(), Ok(0));
    assert_eq!(Lexer::new("٣").read_number::<u8>(), Err(String::from("not a number ''")));
    assert_eq!(Lexer::new("+5").read_number::<u8>(), Err(String::from("not a number ''")));
    assert_eq!(Lexer::new("-5").read_number::<i16>(), Err(String::from("not a number ''")));
}
