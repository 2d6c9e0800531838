//! Readers for the parts of a GIB text.

use vstd::prelude::*;
use vstd::string::*;
use crate::chars::{byte_offset, first_char, lemma_byte_offset_step, split_chars, utf8_width};
use crate::gib::format::{
    date_at,
    field_at,
    is_space,
    other_than,
    pass_word,
    plain,
    setup_at,
    setup_word,
    space,
    stone_at,
    stone_word,
    tag_close,
    tag_open,
    trim,
    trim_end,
    counts,
};
use crate::go::{GoMove, Handicap, PlayerColor, BOARD_SIZE};
use crate::lexer::{read_run, Lexer, Number};
use crate::text::is_digit_char;
use crate::time::LocalDate;

verus! {

/// Why a text is not a readable game record.
#[derive(Debug)]
pub struct GibParseError {
    message: String,
}

impl View for GibParseError {
    type V = Seq<char>;

    closed spec fn view(&self) -> Seq<char> {
        self.message@
    }
}

impl GibParseError {
    pub(crate) fn new(message: String) -> (error: GibParseError)
        ensures
            error@ == message@,
    {
        GibParseError { message }
    }

    /// The message that says what was wrong.
    pub fn message(&self) -> (message: &str)
        ensures
            message@ == self@,
    {
        self.message.as_str()
    }

    pub fn to_string(&self) -> (message: String)
        ensures
            message@ == self@,
    {
        self.message.clone()
    }
}

pub fn is_space_char(c: char) -> (b: bool)
    ensures
        b == is_space(c),
{
    c == ' ' || c == '\t' || c == '\r' || c == '\n'
}

pub(crate) fn is_plain_char(c: char) -> (b: bool)
    ensures
        b == plain()(c),
{
    !is_space_char(c) && c != '\\'
}

pub(crate) fn is_not_backslash(c: char) -> (b: bool)
    ensures
        b == other_than('\\')(c),
{
    c != '\\'
}

pub(crate) fn is_not_comma(c: char) -> (b: bool)
    ensures
        b == other_than(',')(c),
{
    c != ','
}

pub(crate) fn is_not_opening(c: char) -> (b: bool)
    ensures
        b == other_than('(')(c),
{
    c != '('
}

pub(crate) fn is_not_closing(c: char) -> (b: bool)
    ensures
        b == other_than(')')(c),
{
    c != ')'
}

pub(crate) fn tag_open_mark() -> (mark: &'static str)
    ensures
        mark@ == tag_open(),
{
    proof {
        reveal_strlit("\\[");
        assert("\\["@ =~= tag_open());
    }
    "\\["
}

pub(crate) fn tag_close_mark() -> (mark: &'static str)
    ensures
        mark@ == tag_close(),
{
    proof {
        reveal_strlit("\\]");
        assert("\\]"@ =~= tag_close());
    }
    "\\]"
}

pub(crate) fn backslash_mark() -> (mark: &'static str)
    ensures
        mark@ == seq!['\\'],
{
    proof {
        reveal_strlit("\\");
        assert("\\"@ =~= seq!['\\']);
    }
    "\\"
}

pub(crate) fn stone_keyword() -> (word: &'static str)
    ensures
        word@ == stone_word(),
{
    proof {
        reveal_strlit("STO ");
        assert("STO "@ =~= stone_word());
    }
    "STO "
}

pub(crate) fn setup_keyword() -> (word: &'static str)
    ensures
        word@ == setup_word(),
{
    proof {
        reveal_strlit("INI ");
        assert("INI "@ =~= setup_word());
    }
    "INI "
}

pub(crate) fn pass_keyword() -> (word: &'static str)
    ensures
        word@ == pass_word(),
{
    proof {
        reveal_strlit("SKI ");
        assert("SKI "@ =~= pass_word());
    }
    "SKI "
}

/// A text that ends behind its last character that is no white space is
/// what `trim_end` leaves of it.
proof fn lemma_trim_end_is(text: Seq<char>, kept: int)
    requires
        0 <= kept <= text.len(),
        forall|i: int| kept <= i < text.len() ==> is_space(#[trigger] text[i]),
        kept > 0 ==> !is_space(text[kept - 1]),
    ensures
        trim_end(text) == text.take(kept),
    decreases text.len() - kept,
{
    if kept < text.len() {
        let shorter = text.drop_last();
        assert(is_space(text[text.len() - 1]));
        assert forall|i: int| kept <= i < shorter.len() implies is_space(#[trigger] shorter[i]) by {
            assert(shorter[i] == text[i]);
        }
        lemma_trim_end_is(shorter, kept);
        assert(shorter.take(kept) =~= text.take(kept));
    } else {
        assert(text.take(kept) =~= text);
    }
}

/// `text` without the white space at its start and at its end.
pub fn trimmed<'a>(text: &'a str) -> (result: &'a str)
    ensures
        result@ == trim(text@),
{
    let mut lexer = Lexer::new(text);
    read_run(&mut lexer, is_space_char, Ghost(space()));
    let body = lexer.rest();
    let total = body.as_bytes().len();
    let mut bytes: usize = 0;
    let mut kept_bytes: usize = 0;
    let ghost mut chars: int = 0;
    let ghost mut kept: int = 0;
    proof {
        assert(body@.take(0) =~= Seq::<char>::empty());
    }
    loop
        invariant
            0 <= kept <= chars <= body@.len(),
            bytes == byte_offset(body@, chars),
            kept_bytes == byte_offset(body@, kept),
            total == vstd::utf8::encode_utf8(body@).len(),
            bytes <= total,
            forall|i: int| kept <= i < chars ==> is_space(#[trigger] body@[i]),
            kept > 0 ==> !is_space(body@[kept - 1]),
        ensures
            chars == body@.len(),
        decreases body@.len() - chars,
    {
        let (_, tail) = split_chars(body, bytes, Ghost(chars));
        match first_char(tail) {
            Some(c) => {
                proof {
                    lemma_byte_offset_step(body@, chars);
                }
                bytes += utf8_width(c);
                proof {
                    chars = chars + 1;
                }
                if !is_space_char(c) {
                    kept_bytes = bytes;
                    proof {
                        kept = chars;
                    }
                }
            },
            None => {
                break ;
            },
        }
    }
    proof {
        lemma_trim_end_is(body@, kept);
    }
    let (result, _) = split_chars(body, kept_bytes, Ghost(kept));
    result
}

/// Whether what is left of `lexer` begins with a digit.
pub(crate) fn digit_follows(lexer: &Lexer) -> (follows: bool)
    ensures
        follows == (lexer.remaining().len() > 0 && crate::text::is_digit(lexer.remaining()[0])),
{
    match first_char(lexer.rest()) {
        Some(c) => is_digit_char(c),
        None => false,
    }
}

/// Reads `key` if the text goes on with it and then with a digit.
pub(crate) fn optional_before_digit(lexer: &mut Lexer, key: &str) -> (found: bool)
    ensures
        found == counts(old(lexer).remaining(), key@),
        final(lexer).remaining() == if found {
            old(lexer).remaining().skip(key@.len() as int)
        } else {
            old(lexer).remaining()
        },
{
    let mut probe = Lexer::new(lexer.rest());
    if probe.optional(key) && digit_follows(&probe) {
        *lexer = probe;
        true
    } else {
        false
    }
}

/// Reads white space, then a number.
pub(crate) fn read_field<T: Number>(lexer: &mut Lexer) -> (result: Result<T, GibParseError>)
    ensures
        match result {
            Ok(number) => field_at(old(lexer).remaining(), T::spec_limit()) matches Ok(
                (value, rest),
            ) && value == number.spec_value() && rest == final(lexer).remaining(),
            Err(error) => field_at(old(lexer).remaining(), T::spec_limit()) matches Err(message)
                && message == error@,
        },
{
    read_run(lexer, is_space_char, Ghost(space()));
    match lexer.read_number::<T>() {
        Ok(number) => Ok(number),
        Err(message) => Err(GibParseError::new(message)),
    }
}

/// Reads the numbers of the record of a stone.
pub(crate) fn read_stone(lexer: &mut Lexer) -> (result: Result<GoMove, GibParseError>)
    ensures
        match result {
            Ok(stone) => stone_at(old(lexer).remaining()) matches Ok((read, rest)) && read
                == stone && rest == final(lexer).remaining(),
            Err(error) => stone_at(old(lexer).remaining()) matches Err(message) && message
                == error@,
        },
{
    let _first: u32 = match read_field::<u32>(lexer) {
        Ok(number) => number,
        Err(error) => {
            return Err(error);
        },
    };
    let _number: u32 = match read_field::<u32>(lexer) {
        Ok(number) => number,
        Err(error) => {
            return Err(error);
        },
    };
    let player: u8 = match read_field::<u8>(lexer) {
        Ok(number) => number,
        Err(error) => {
            return Err(error);
        },
    };
    let x: u8 = match read_field::<u8>(lexer) {
        Ok(number) => number,
        Err(error) => {
            return Err(error);
        },
    };
    let y: u8 = match read_field::<u8>(lexer) {
        Ok(number) => number,
        Err(error) => {
            return Err(error);
        },
    };
    if player != 1 && player != 2 {
        Err(GibParseError::new(String::from_str("unknown player in a move")))
    } else if x >= BOARD_SIZE || y >= BOARD_SIZE {
        Err(GibParseError::new(String::from_str("move off the board")))
    } else {
        let color = if player == 1 {
            PlayerColor::Black
        } else {
            PlayerColor::White
        };
        Ok(GoMove::place_stone(color, (x, y)))
    }
}

/// Reads the numbers of the record of the setup.
pub(crate) fn read_setup(lexer: &mut Lexer) -> (result: Result<Option<Handicap>, GibParseError>)
    ensures
        match result {
            Ok(handicap) => setup_at(old(lexer).remaining()) matches Ok((stones, rest)) && rest
                == final(lexer).remaining() && match handicap {
                Some(h) => stones == Some(h.spec_stones()),
                None => stones is None,
            },
            Err(error) => setup_at(old(lexer).remaining()) matches Err(message) && message
                == error@,
        },
{
    let _first: u32 = match read_field::<u32>(lexer) {
        Ok(number) => number,
        Err(error) => {
            return Err(error);
        },
    };
    let _second: u32 = match read_field::<u32>(lexer) {
        Ok(number) => number,
        Err(error) => {
            return Err(error);
        },
    };
    let stones: u8 = match read_field::<u8>(lexer) {
        Ok(number) => number,
        Err(error) => {
            return Err(error);
        },
    };
    Ok(Handicap::from(stones))
}

/// The date that `text` writes, with `separator` between year, month and
/// day; none where `text` holds white space alone.
pub fn read_date(text: &str, separator: &str) -> (result: Result<Option<LocalDate>, GibParseError>)
    ensures
        match result {
            Ok(Some(date)) => date_at(text@, separator@) matches Ok(Some(day)) && day == (
                date.spec_year(),
                date.spec_month(),
                date.spec_day(),
            ),
            Ok(None) => date_at(text@, separator@) matches Ok(None),
            Err(error) => date_at(text@, separator@) matches Err(message) && message == error@,
        },
{
    let mut lexer = Lexer::new(text);
    read_run(&mut lexer, is_space_char, Ghost(space()));
    if lexer.at_end() {
        return Ok(None);
    }
    let year: u16 = match lexer.read_number::<u16>() {
        Ok(number) => number,
        Err(message) => {
            return Err(GibParseError::new(message));
        },
    };
    match lexer.expect(separator) {
        Ok(()) => {},
        Err(message) => {
            return Err(GibParseError::new(message));
        },
    }
    let month: u8 = match read_field::<u8>(&mut lexer) {
        Ok(number) => number,
        Err(error) => {
            return Err(error);
        },
    };
    match lexer.expect(separator) {
        Ok(()) => {},
        Err(message) => {
            return Err(GibParseError::new(message));
        },
    }
    let day: u8 = match read_field::<u8>(&mut lexer) {
        Ok(number) => number,
        Err(error) => {
            return Err(error);
        },
    };
    match LocalDate::ymd(year, month, day) {
        Ok(date) => Ok(Some(date)),
        Err(message) => Err(GibParseError::new(message)),
    }
}

} // verus!
