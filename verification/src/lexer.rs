//! A cursor over a text, for parsers that read it from left to right.

use vstd::prelude::*;
use vstd::string::*;
use crate::chars::{
    byte_offset,
    first_char,
    lemma_byte_offset_step,
    split_chars,
    starts_with,
    utf8_width,
};
use crate::text::{decimal_value, is_digit, is_digit_char};

verus! {

/// The number of characters at the start of `text` that all satisfy `accepts`.
pub open spec fn run_length(text: Seq<char>, accepts: spec_fn(char) -> bool) -> nat
    decreases text.len(),
{
    if text.len() > 0 && accepts(text[0]) {
        1 + run_length(text.drop_first(), accepts)
    } else {
        0
    }
}

/// The longest start of `text` whose characters all satisfy `accepts`.
pub open spec fn leading_run(text: Seq<char>, accepts: spec_fn(char) -> bool) -> Seq<char> {
    text.take(run_length(text, accepts) as int)
}

/// What is left of `text` behind its [`leading_run`].
pub open spec fn after_run(text: Seq<char>, accepts: spec_fn(char) -> bool) -> Seq<char> {
    text.skip(run_length(text, accepts) as int)
}

/// A run is the only start of a text that holds accepted characters alone
/// and ends before a character that is not accepted, or with the text.
pub proof fn lemma_run_length_is(text: Seq<char>, accepts: spec_fn(char) -> bool, n: int)
    requires
        0 <= n <= text.len(),
        forall|i: int| 0 <= i < n ==> accepts(#[trigger] text[i]),
        n < text.len() ==> !accepts(text[n]),
    ensures
        run_length(text, accepts) == n,
    decreases n,
{
    if n > 0 {
        let rest = text.drop_first();
        assert forall|i: int| 0 <= i < n - 1 implies accepts(#[trigger] rest[i]) by {
            assert(rest[i] == text[i + 1]);
        }
        lemma_run_length_is(rest, accepts, n - 1);
    }
}

/// A run lies within its text, holds accepted characters alone, and what
/// follows it does not begin with an accepted character.
pub proof fn lemma_run_length_properties(text: Seq<char>, accepts: spec_fn(char) -> bool)
    ensures
        run_length(text, accepts) <= text.len(),
        forall|i: int| 0 <= i < run_length(text, accepts) ==> accepts(#[trigger] text[i]),
        run_length(text, accepts) < text.len() ==> !accepts(text[run_length(text, accepts) as int]),
    decreases text.len(),
{
    if text.len() > 0 && accepts(text[0]) {
        let rest = text.drop_first();
        lemma_run_length_properties(rest, accepts);
        assert forall|i: int| 0 <= i < run_length(text, accepts) implies accepts(
            #[trigger] text[i],
        ) by {
            if i > 0 {
                assert(text[i] == rest[i - 1]);
            }
        }
    }
}

/// The test for a decimal digit.
pub open spec fn digit() -> spec_fn(char) -> bool {
    |c: char| is_digit(c)
}

/// The number that `text` begins with and what follows it: the longest run
/// of digits at the start of `text` is read as a decimal numeral. There is no
/// number where that run is empty or writes more than `limit`.
pub open spec fn number_at(text: Seq<char>, limit: nat) -> Result<(nat, Seq<char>), Seq<char>> {
    let digits = leading_run(text, digit());
    if digits.len() > 0 && decimal_value(digits) <= limit {
        Ok((decimal_value(digits), after_run(text, digit())))
    } else {
        Err(not_a_number_message(digits))
    }
}

/// The message with which [`Lexer::expect`] reports that `literal` is missing.
pub open spec fn expected_message(literal: Seq<char>) -> Seq<char> {
    "Expected '"@ + literal + "', but did not see"@
}

/// The message with which [`Lexer::read_number`] refuses the run `digits`.
pub open spec fn not_a_number_message(digits: Seq<char>) -> Seq<char> {
    "not a number '"@ + digits + "'"@
}

/// An integer type that [`Lexer::read_number`] can read.
pub trait Number: Sized {
    /// The largest value of the type.
    spec fn spec_limit() -> nat;

    /// The value as an integer.
    spec fn spec_value(&self) -> int;

    /// The largest value of the type.
    fn limit() -> (limit: u64)
        ensures
            limit == Self::spec_limit(),
    ;

    /// The value `n` in this type; `n` is at most the type's limit.
    fn from_u64(n: u64) -> (number: Self)
        requires
            n <= Self::spec_limit(),
        ensures
            number.spec_value() == n,
    ;
}

impl Number for u8 {
    open spec fn spec_limit() -> nat {
        u8::MAX as nat
    }

    open spec fn spec_value(&self) -> int {
        *self as int
    }

    fn limit() -> (limit: u64) {
        u8::MAX as u64
    }

    fn from_u64(n: u64) -> (number: u8) {
        n as u8
    }
}

impl Number for u16 {
    open spec fn spec_limit() -> nat {
        u16::MAX as nat
    }

    open spec fn spec_value(&self) -> int {
        *self as int
    }

    fn limit() -> (limit: u64) {
        u16::MAX as u64
    }

    fn from_u64(n: u64) -> (number: u16) {
        n as u16
    }
}

impl Number for u32 {
    open spec fn spec_limit() -> nat {
        u32::MAX as nat
    }

    open spec fn spec_value(&self) -> int {
        *self as int
    }

    fn limit() -> (limit: u64) {
        u32::MAX as u64
    }

    fn from_u64(n: u64) -> (number: u32) {
        n as u32
    }
}

impl Number for i16 {
    open spec fn spec_limit() -> nat {
        i16::MAX as nat
    }

    open spec fn spec_value(&self) -> int {
        *self as int
    }

    fn limit() -> (limit: u64) {
        i16::MAX as u64
    }

    fn from_u64(n: u64) -> (number: i16) {
        n as i16
    }
}

/// A cursor over a text. It holds what is left to read and never copies it.
pub struct Lexer<'a> {
    rest: &'a str,
}

impl<'a> Lexer<'a> {
    /// The text that is left to read.
    pub closed spec fn remaining(&self) -> Seq<char> {
        self.rest@
    }

    /// A cursor at the start of `str`.
    pub fn new(str: &'a str) -> (lexer: Lexer<'a>)
        ensures
            lexer.remaining() == str@,
    {
        Lexer { rest: str }
    }

    /// The text that is left to read.
    pub fn rest(&self) -> (rest: &'a str)
        ensures
            rest@ == self.remaining(),
    {
        self.rest
    }

    /// Whether nothing is left to read.
    pub fn at_end(&self) -> (at_end: bool)
        ensures
            at_end == (self.remaining().len() == 0),
    {
        self.rest.is_empty()
    }

    /// Reads the longest run of characters that `predicate` accepts, which
    /// may be empty, and returns it.
    pub fn read_while<P: Fn(char) -> bool>(&mut self, predicate: P) -> (run: &'a str)
        requires
            forall|c: char| predicate.requires((c,)),
        ensures
            old(self).remaining() == run@ + final(self).remaining(),
            run@.len() <= old(self).remaining().len(),
            run@ == old(self).remaining().take(run@.len() as int),
            final(self).remaining() == old(self).remaining().skip(run@.len() as int),
            forall|i: int| 0 <= i < run@.len() ==> predicate.ensures((#[trigger] run@[i],), true),
            final(self).remaining().len() > 0 ==> predicate.ensures(
                (final(self).remaining()[0],),
                false,
            ),
    {
        let text = self.rest;
        let total = text.as_bytes().len();
        let mut bytes: usize = 0;
        let ghost mut chars: int = 0;
        proof {
            assert(text@.take(0) =~= Seq::<char>::empty());
        }
        loop
            invariant
                0 <= chars <= text@.len(),
                bytes == byte_offset(text@, chars),
                total == vstd::utf8::encode_utf8(text@).len(),
                bytes <= total,
                forall|c: char| predicate.requires((c,)),
                forall|i: int| 0 <= i < chars ==> predicate.ensures((#[trigger] text@[i],), true),
            ensures
                chars < text@.len() ==> predicate.ensures((text@[chars],), false),
            decreases text@.len() - chars,
        {
            let (_, tail) = split_chars(text, bytes, Ghost(chars));
            match first_char(tail) {
                Some(c) => {
                    if !predicate(c) {
                        break ;
                    }
                    proof {
                        lemma_byte_offset_step(text@, chars);
                    }
                    bytes += utf8_width(c);
                    proof {
                        chars = chars + 1;
                    }
                },
                None => {
                    break ;
                },
            }
        }
        let (run, tail) = split_chars(text, bytes, Ghost(chars));
        self.rest = tail;
        run
    }

    /// Reads `str` if the text goes on with it, and tells whether it did.
    pub fn optional(&mut self, str: &str) -> (found: bool)
        ensures
            found == str@.is_prefix_of(old(self).remaining()),
            final(self).remaining() == if found {
                old(self).remaining().skip(str@.len() as int)
            } else {
                old(self).remaining()
            },
    {
        if starts_with(self.rest, str) {
            let bytes = str.as_bytes().len();
            proof {
                assert(self.rest@.take(str@.len() as int) =~= str@);
            }
            let (_, tail) = split_chars(self.rest, bytes, Ghost(str@.len() as int));
            self.rest = tail;
            true
        } else {
            false
        }
    }

    /// Reads `str`, or fails and reads nothing when the text does not go on
    /// with it.
    pub fn expect(&mut self, str: &str) -> (result: Result<(), String>)
        ensures
            result is Ok <==> str@.is_prefix_of(old(self).remaining()),
            result matches Err(message) ==> message@ == expected_message(str@),
            final(self).remaining() == if result is Ok {
                old(self).remaining().skip(str@.len() as int)
            } else {
                old(self).remaining()
            },
    {
        if self.optional(str) {
            Ok(())
        } else {
            let mut message = String::from_str("Expected '");
            message.append(str);
            message.append("', but did not see");
            Err(message)
        }
    }

    /// Reads the longest run of decimal digits and returns the number that
    /// it writes. Fails, with the run read, when the run is empty or its
    /// number is beyond `T`.
    pub fn read_number<T: Number>(&mut self) -> (result: Result<T, String>)
        ensures
            final(self).remaining() == after_run(old(self).remaining(), digit()),
            match result {
                Ok(number) => number_at(old(self).remaining(), T::spec_limit()) matches Ok(
                    (value, _),
                ) && value == number.spec_value(),
                Err(message) => number_at(old(self).remaining(), T::spec_limit()) matches Err(
                    said,
                ) && said == message@,
            },
    {
        let digits = read_run(self, is_digit_char, Ghost(digit()));
        proof {
            lemma_run_length_properties(old(self).remaining(), digit());
        }
        match parse_digits(digits, T::limit()) {
            Some(n) => Ok(T::from_u64(n)),
            None => {
                let mut message = String::from_str("not a number '");
                message.append(digits);
                message.append("'");
                Err(message)
            },
        }
    }
}

/// Reads the longest run of characters that `predicate` accepts, where
/// `predicate` computes `accepts`.
pub(crate) fn read_run<'a, P: Fn(char) -> bool>(
    lexer: &mut Lexer<'a>,
    predicate: P,
    Ghost(accepts): Ghost<spec_fn(char) -> bool>,
) -> (run: &'a str)
    requires
        forall|c: char| predicate.requires((c,)),
        forall|c: char, b: bool| predicate.ensures((c,), b) ==> b == accepts(c),
    ensures
        run@ == leading_run(old(lexer).remaining(), accepts),
        final(lexer).remaining() == after_run(old(lexer).remaining(), accepts),
{
    let ghost before = lexer.remaining();
    let run = lexer.read_while(predicate);
    proof {
        assert forall|i: int| 0 <= i < run@.len() implies accepts(#[trigger] before[i]) by {
            assert(predicate.ensures((run@[i],), true));
        }
        lemma_run_length_is(before, accepts, run@.len() as int);
    }
    run
}

/// Every start of a run of digits writes a number that is at most the
/// number of the whole run.
proof fn lemma_decimal_value_grows(digits: Seq<char>, n: int)
    requires
        0 <= n <= digits.len(),
        forall|i: int| 0 <= i < digits.len() ==> is_digit(#[trigger] digits[i]),
    ensures
        decimal_value(digits.take(n)) <= decimal_value(digits),
    decreases digits.len() - n,
{
    if n < digits.len() {
        lemma_decimal_value_grows(digits, n + 1);
        let longer = digits.take(n + 1);
        assert(longer.drop_last() =~= digits.take(n));
        assert(is_digit(digits[n]));
        assert(longer.last() == digits[n]);
    } else {
        assert(digits.take(n) =~= digits);
    }
}

/// The number that the digits of `digits` write, if it is at most `limit`
/// and there is a digit at all.
fn parse_digits(digits: &str, limit: u64) -> (number: Option<u64>)
    requires
        forall|i: int| 0 <= i < digits@.len() ==> is_digit(#[trigger] digits@[i]),
    ensures
        number is Some <==> digits@.len() > 0 && decimal_value(digits@) <= limit,
        number matches Some(n) ==> n == decimal_value(digits@),
{
    if digits.is_empty() {
        return None;
    }
    let mut lexer = Lexer::new(digits);
    let mut value: u64 = 0;
    let ghost mut read: int = 0;
    proof {
        assert(digits@.take(0) =~= Seq::<char>::empty());
        assert(digits@.skip(0) =~= digits@);
    }
    loop
        invariant
            0 <= read <= digits@.len(),
            lexer.remaining() == digits@.skip(read),
            value == decimal_value(digits@.take(read)),
            value <= limit,
            forall|i: int| 0 <= i < digits@.len() ==> is_digit(#[trigger] digits@[i]),
        ensures
            read == digits@.len(),
        decreases digits@.len() - read,
    {
        match first_char(lexer.rest) {
            Some(c) => {
                let code: u32 = c as u32;
                let digit: u64 = (code - 48) as u64;
                proof {
                    assert(c == digits@[read]);
                    assert(is_digit(digits@[read]));
                    let longer = digits@.take(read + 1);
                    assert(longer.drop_last() =~= digits@.take(read));
                    assert(longer.last() == c);
                    assert(decimal_value(longer) == value * 10 + digit);
                    lemma_decimal_value_grows(digits@, read + 1);
                }
                if digit > limit || value > (limit - digit) / 10 {
                    assert(value * 10 + digit > limit);
                    return None;
                }
                value = value * 10 + digit;
                proof {
                    lemma_byte_offset_step(lexer.rest@, 0);
                    assert(lexer.rest@.take(0) =~= Seq::<char>::empty());
                }
                let (_, tail) = split_chars(lexer.rest, utf8_width(c), Ghost(1));
                lexer.rest = tail;
                proof {
                    assert(digits@.skip(read).skip(1) =~= digits@.skip(read + 1));
                    read = read + 1;
                }
            },
            None => {
                break ;
            },
        }
    }
    proof {
        assert(digits@.take(read) =~= digits@);
    }
    Some(value)
}

} // verus!
